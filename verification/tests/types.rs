use std::collections::HashSet;
use type_inference::ast::{Expr, PrimitiveType};
use type_inference::infer::{
    bool_type, fun_type, int_type, list_type, mgu, mono_scheme, top_level_env, tp, type_of,
    Enviroment, Error, Subst, TypeScheme, VarGenerator,
};

fn v(n: u32) -> PrimitiveType {
    PrimitiveType::Var(n)
}

fn arrow(a: PrimitiveType, b: PrimitiveType) -> PrimitiveType {
    PrimitiveType::Fun(Box::new(a), Box::new(b))
}

fn con(name: &str, args: Vec<PrimitiveType>) -> PrimitiveType {
    PrimitiveType::Con(name.to_owned(), args)
}

fn set(vars: &[u32]) -> HashSet<u32> {
    vars.iter().cloned().collect()
}

#[test]
fn variables_of_a_type() {
    assert_eq!(v(3).type_vars(), set(&[3]));
    assert_eq!(int_type().type_vars(), set(&[]));
    let t = arrow(v(1), con("Pair", vec![v(2), arrow(v(1), list_type(v(5)))]));
    assert_eq!(t.type_vars(), set(&[1, 2, 5]));
}

#[test]
fn types_print_as_text() {
    assert_eq!(v(12).to_string(), "'12");
    assert_eq!(v(0).to_string(), "'0");
    assert_eq!(v(u32::MAX).to_string(), "'4294967295");
    assert_eq!(int_type().to_string(), "int");
    assert_eq!(bool_type().to_string(), "bool");
    assert_eq!(list_type(v(1)).to_string(), "List<'1>");
    assert_eq!(arrow(v(1), int_type()).to_string(), "('1 -> int)");
    assert_eq!(
        arrow(arrow(v(1), v(2)), list_type(bool_type())).to_string(),
        "(('1 -> '2) -> List<bool>)"
    );
}

#[test]
fn constructor_of_several_arguments_prints_as_text() {
    let pair = con("Pair", vec![int_type(), bool_type()]);
    assert_eq!(pair.to_string(), "Pair<bool , int, bool>");
    let triple = con("T", vec![v(1), v(2), v(3)]);
    assert_eq!(triple.to_string(), "T<'2 , '1, '2, '3>");
}

#[test]
fn basic_types_are_constructors() {
    assert_eq!(int_type(), con("int", vec![]));
    assert_eq!(bool_type(), con("bool", vec![]));
    assert_eq!(list_type(v(4)), con("List", vec![v(4)]));
    assert_eq!(fun_type(v(1), v(2)), arrow(v(1), v(2)));
}

#[test]
fn generator_counts_up_from_one() {
    let mut gen = VarGenerator::new();
    assert_eq!(gen.remaining(), u32::MAX);
    assert_eq!(gen.next_typevar(), v(1));
    assert_eq!(gen.next_typevar(), v(2));
    assert_eq!(gen.remaining(), u32::MAX - 2);
    let mut later = VarGenerator::resume(41);
    assert_eq!(later.next_typevar(), v(42));
    let mut copy = later.clone();
    assert_eq!(copy.next_typevar(), v(43));
    assert_eq!(later.next_typevar(), v(43));
}

#[test]
fn empty_substitution_changes_nothing() {
    let s = Subst::empty();
    let t = arrow(v(1), list_type(v(2)));
    assert_eq!(s.apply(&t), t);
    assert_eq!(s.lookup(&v(1)), v(1));
    assert_eq!(s.lookup(&int_type()), int_type());
}

#[test]
fn substitution_is_applied_transitively() {
    let s = Subst::empty()
        .extend(v(1), arrow(v(2), v(3)))
        .extend(v(2), list_type(v(4)))
        .extend(v(4), int_type());
    assert_eq!(s.lookup(&v(1)), arrow(v(2), v(3)));
    assert_eq!(s.lookup(&v(3)), v(3));
    assert_eq!(s.lookup(&arrow(v(1), v(1))), arrow(v(1), v(1)));
    assert_eq!(s.apply(&v(1)), arrow(list_type(int_type()), v(3)));
    assert_eq!(
        s.apply(&con("Pair", vec![v(4), v(2), v(9)])),
        con("Pair", vec![int_type(), list_type(int_type()), v(9)])
    );
}

#[test]
fn extending_leaves_the_extended_substitution_alone() {
    let s = Subst::empty().extend(v(1), int_type());
    let longer = s.extend(v(2), bool_type());
    assert_eq!(s.apply(&v(2)), v(2));
    assert_eq!(longer.apply(&v(2)), bool_type());
    assert_eq!(longer.apply(&v(1)), int_type());
    let copy = longer.clone();
    assert_eq!(copy.apply(&arrow(v(1), v(2))), arrow(int_type(), bool_type()));
}

#[test]
fn later_binding_overrides_an_earlier_one() {
    let s = Subst::empty().extend(v(1), int_type()).extend(v(1), bool_type());
    assert_eq!(s.lookup(&v(1)), bool_type());
    assert_eq!(s.apply(&v(1)), bool_type());
}

#[test]
fn applying_twice_is_applying_once() {
    let s = Subst::empty()
        .extend(v(1), arrow(v(2), v(3)))
        .extend(v(3), list_type(v(2)))
        .extend(v(2), v(7));
    let t = con("Pair", vec![v(1), arrow(v(3), v(8))]);
    let once = s.apply(&t);
    assert_eq!(s.apply(&once), once);
    assert_eq!(
        once,
        con(
            "Pair",
            vec![
                arrow(v(7), list_type(v(7))),
                arrow(list_type(v(7)), v(8))
            ]
        )
    );
    for bound in [1, 2, 3] {
        assert!(!once.type_vars().contains(&bound));
    }
}

#[test]
fn unification_binds_variables_on_either_side() {
    let s = mgu(&v(1), &int_type(), &Subst::empty()).unwrap();
    assert_eq!(s.apply(&v(1)), int_type());
    let s = mgu(&int_type(), &v(1), &Subst::empty()).unwrap();
    assert_eq!(s.apply(&v(1)), int_type());
    let s = mgu(&v(1), &v(1), &Subst::empty()).unwrap();
    assert_eq!(s.apply(&v(1)), v(1));
    let s = mgu(&v(1), &v(2), &Subst::empty()).unwrap();
    assert_eq!(s.apply(&v(1)), v(2));
    assert_eq!(s.apply(&v(2)), v(2));
}

#[test]
fn unification_goes_on_from_the_given_substitution() {
    let s = Subst::empty().extend(v(1), int_type());
    let r = mgu(&v(1), &v(2), &s).unwrap();
    assert_eq!(r.apply(&v(2)), int_type());
    assert_eq!(r.apply(&v(1)), int_type());
    match mgu(&v(1), &bool_type(), &s) {
        Err(Error::TypeError(msg)) => assert_eq!(msg, "cannot unify int with bool"),
        other => panic!("unexpected outcome: {:?}", other),
    }
}

#[test]
fn unification_of_function_types_goes_side_by_side() {
    let t = arrow(v(1), v(1));
    let u = arrow(int_type(), v(2));
    let s = mgu(&t, &u, &Subst::empty()).unwrap();
    assert_eq!(s.apply(&v(2)), int_type());
    assert_eq!(s.apply(&t), arrow(int_type(), int_type()));
    let u = arrow(int_type(), bool_type());
    match mgu(&t, &u, &Subst::empty()) {
        Err(Error::TypeError(msg)) => assert_eq!(msg, "cannot unify int with bool"),
        other => panic!("unexpected outcome: {:?}", other),
    }
}

#[test]
fn unification_of_constructors_needs_name_and_arity_to_agree() {
    let s = mgu(
        &con("Pair", vec![v(1), bool_type()]),
        &con("Pair", vec![int_type(), v(2)]),
        &Subst::empty(),
    )
    .unwrap();
    assert_eq!(s.apply(&arrow(v(1), v(2))), arrow(int_type(), bool_type()));
    match mgu(&list_type(v(1)), &con("Set", vec![v(1)]), &Subst::empty()) {
        Err(Error::TypeError(msg)) => assert_eq!(msg, "cannot unify List<'1> with Set<'1>"),
        other => panic!("unexpected outcome: {:?}", other),
    }
    match mgu(&con("T", vec![v(1)]), &con("T", vec![]), &Subst::empty()) {
        Err(Error::TypeError(msg)) => assert_eq!(msg, "cannot unify T<'1> with T"),
        other => panic!("unexpected outcome: {:?}", other),
    }
    match mgu(&arrow(v(1), v(2)), &int_type(), &Subst::empty()) {
        Err(Error::TypeError(msg)) => assert_eq!(msg, "cannot unify ('1 -> '2) with int"),
        other => panic!("unexpected outcome: {:?}", other),
    }
}

#[test]
fn unification_fails_at_the_first_pair_that_does_not_unify() {
    let t = con("T", vec![int_type(), v(1), v(1)]);
    let u = con("T", vec![v(2), bool_type(), v(2)]);
    match mgu(&t, &u, &Subst::empty()) {
        Err(Error::TypeError(msg)) => assert_eq!(msg, "cannot unify bool with int"),
        other => panic!("unexpected outcome: {:?}", other),
    }
}

#[test]
fn occurs_check_works_on_either_side() {
    let t = list_type(v(1));
    match mgu(&v(1), &t, &Subst::empty()) {
        Err(Error::TypeError(msg)) => assert_eq!(msg, "cannot unify '1 with List<'1>"),
        other => panic!("unexpected outcome: {:?}", other),
    }
    match mgu(&t, &v(1), &Subst::empty()) {
        Err(Error::TypeError(msg)) => assert_eq!(msg, "cannot unify '1 with List<'1>"),
        other => panic!("unexpected outcome: {:?}", other),
    }
    let s = Subst::empty().extend(v(2), arrow(v(1), v(3)));
    assert!(matches!(mgu(&v(1), &v(2), &s), Err(Error::TypeError(_))));
}

#[test]
fn unification_does_not_depend_on_the_order_of_its_arguments() {
    let t = arrow(v(1), arrow(v(2), list_type(v(1))));
    let u = arrow(list_type(v(3)), arrow(v(4), v(5)));
    let s = mgu(&t, &u, &Subst::empty()).unwrap();
    let r = mgu(&u, &t, &Subst::empty()).unwrap();
    assert_eq!(s.apply(&t), s.apply(&u));
    assert_eq!(r.apply(&t), r.apply(&u));
    let expected = "(List<'3> -> ('4 -> List<List<'3>>))";
    assert_eq!(s.apply(&t).to_string(), expected);
    assert_eq!(r.apply(&t).to_string(), "(List<'3> -> ('2 -> List<List<'3>>))");
    assert_eq!(s.apply(&r.apply(&t)), s.apply(&t));
    assert_eq!(r.apply(&s.apply(&t)), r.apply(&t));
    let bad = arrow(v(1), v(1));
    let worse = arrow(int_type(), bool_type());
    assert!(mgu(&bad, &worse, &Subst::empty()).is_err());
    assert!(mgu(&worse, &bad, &Subst::empty()).is_err());
}

#[test]
fn scheme_knows_its_free_variables() {
    let body = arrow(v(1), arrow(v(2), v(3)));
    let scheme = TypeScheme::new(body, set(&[1, 3]));
    assert_eq!(scheme.type_vars(), set(&[2]));
    assert_eq!(scheme.quantified_vars(), vec![1, 3]);
    assert_eq!(mono_scheme(v(5)).type_vars(), set(&[5]));
    assert_eq!(mono_scheme(v(5)).quantified_vars(), Vec::<u32>::new());
}

#[test]
fn instance_replaces_quantified_variables_in_order_of_occurrence() {
    let body = con(
        "T",
        vec![v(9), arrow(v(4), v(9)), v(2), list_type(v(4))],
    );
    let scheme = TypeScheme::new(body, set(&[4, 9]));
    let mut gen = VarGenerator::resume(9);
    let t = scheme.new_instance(&mut gen);
    assert_eq!(
        t,
        con(
            "T",
            vec![v(10), arrow(v(11), v(10)), v(2), list_type(v(11))]
        )
    );
    assert_eq!(gen.next_typevar(), v(12));
    let again = scheme.clone().new_instance(&mut gen);
    assert_eq!(
        again,
        con(
            "T",
            vec![v(13), arrow(v(14), v(13)), v(2), list_type(v(14))]
        )
    );
}

#[test]
fn instance_is_right_where_new_numbers_meet_quantified_ones() {
    let scheme = TypeScheme::new(arrow(v(2), v(3)), set(&[2, 3]));
    let mut gen = VarGenerator::resume(2);
    assert_eq!(scheme.new_instance(&mut gen), arrow(v(3), v(4)));
    let scheme = TypeScheme::new(arrow(v(3), v(2)), set(&[2, 3]));
    let mut gen = VarGenerator::resume(1);
    assert_eq!(scheme.new_instance(&mut gen), arrow(v(2), v(3)));
}

#[test]
fn generalisation_spares_the_variables_of_the_environment() {
    let env = Enviroment::empty()
        .extend("x".to_owned(), mono_scheme(v(1)))
        .extend("y".to_owned(), TypeScheme::new(arrow(v(2), v(3)), set(&[2])));
    assert_eq!(env.type_vars(), set(&[1, 3]));
    let scheme = TypeScheme::from_type(&arrow(v(1), arrow(v(2), arrow(v(3), v(4)))), &env);
    assert_eq!(scheme.type_vars(), set(&[1, 3]));
    assert_eq!(scheme.quantified_vars(), vec![2, 4]);
    let closed = TypeScheme::from_type(&arrow(v(1), v(2)), &Enviroment::empty());
    assert_eq!(closed.type_vars(), set(&[]));
}

#[test]
fn environment_looks_names_up_innermost_first() {
    let env = Enviroment::empty();
    assert!(env.lookup("x").is_none());
    assert_eq!(env.schemes().len(), 0);
    assert_eq!(env.type_vars(), set(&[]));
    let outer = env.extend("x".to_owned(), mono_scheme(int_type()));
    let inner = outer
        .extend("y".to_owned(), mono_scheme(v(7)))
        .extend("x".to_owned(), mono_scheme(bool_type()));
    let mut gen = VarGenerator::new();
    assert_eq!(
        inner.lookup("x").unwrap().new_instance(&mut gen),
        bool_type()
    );
    assert_eq!(
        outer.lookup("x").unwrap().new_instance(&mut gen),
        int_type()
    );
    assert_eq!(inner.lookup("y").unwrap().new_instance(&mut gen), v(7));
    assert!(inner.lookup("z").is_none());
    assert!(outer.lookup("y").is_none());
    let schemes = inner.schemes();
    assert_eq!(schemes.len(), 3);
    assert_eq!(schemes[0].new_instance(&mut gen), bool_type());
    assert_eq!(schemes[1].new_instance(&mut gen), v(7));
    assert_eq!(schemes[2].new_instance(&mut gen), int_type());
    assert_eq!(inner.type_vars(), set(&[7]));
    assert_eq!(inner.clone().type_vars(), set(&[7]));
}

#[test]
fn substitution_spares_quantified_variables_of_a_scheme() {
    let s = Subst::empty()
        .extend(v(1), int_type())
        .extend(v(2), bool_type());
    let scheme = TypeScheme::new(arrow(v(1), v(2)), set(&[1]));
    let applied = s.apply_scheme(&scheme);
    assert_eq!(applied.type_vars(), set(&[]));
    assert_eq!(applied.quantified_vars(), vec![1]);
    let mut gen = VarGenerator::resume(10);
    assert_eq!(applied.new_instance(&mut gen), arrow(v(11), bool_type()));
    let env = Enviroment::empty()
        .extend("f".to_owned(), scheme)
        .extend("x".to_owned(), mono_scheme(v(1)));
    let applied = s.apply_env(&env);
    assert_eq!(
        applied.lookup("x").unwrap().new_instance(&mut gen),
        int_type()
    );
    assert_eq!(
        applied.lookup("f").unwrap().new_instance(&mut gen),
        arrow(v(12), bool_type())
    );
    assert_eq!(env.type_vars(), set(&[1, 2]));
    assert_eq!(applied.type_vars(), set(&[]));
}

#[test]
fn prelude_binds_the_list_primitives() {
    let mut gen = VarGenerator::new();
    let env = top_level_env(&mut gen);
    assert_eq!(gen.next_typevar(), v(6));
    assert_eq!(env.type_vars(), set(&[]));
    assert_eq!(env.schemes().len(), 5);
    let mut gen = VarGenerator::resume(100);
    let text = |name: &str, gen: &mut VarGenerator| {
        env.lookup(name).unwrap().new_instance(gen).to_string()
    };
    assert_eq!(text("nil", &mut gen), "List<'101>");
    assert_eq!(
        text("pair", &mut gen),
        "('102 -> (List<'102> -> List<'102>))"
    );
    assert_eq!(text("first", &mut gen), "(List<'103> -> '103)");
    assert_eq!(text("rest", &mut gen), "(List<'104> -> List<'104>)");
    assert_eq!(text("is_nil", &mut gen), "(List<'105> -> bool)");
}

#[test]
fn inference_threads_the_substitution_it_is_given() {
    let s = Subst::empty().extend(v(1), int_type());
    let mut gen = VarGenerator::resume(1);
    let r = tp(&Expr::Num(7), &v(1), &Enviroment::empty(), &s, &mut gen).unwrap();
    assert_eq!(r.apply(&v(1)), int_type());
    let failed = tp(&Expr::Bool(true), &v(1), &Enviroment::empty(), &s, &mut gen);
    match failed {
        Err(Error::TypeError(msg)) => assert_eq!(msg, "cannot unify int with bool"),
        other => panic!("unexpected outcome: {:?}", other),
    }
    assert_eq!(gen.next_typevar(), v(2));
}

#[test]
fn inference_stops_when_the_variables_run_out() {
    let identity = Expr::Fun("x".to_owned(), Box::new(Expr::Var("x".to_owned())));
    let mut gen = VarGenerator::resume(u32::MAX);
    let r = type_of(&Expr::Num(1), &Enviroment::empty(), &mut gen);
    assert!(matches!(r, Err(Error::OutOfVariables)));
    let mut gen = VarGenerator::resume(u32::MAX - 2);
    let r = type_of(&identity, &Enviroment::empty(), &mut gen);
    assert!(matches!(r, Err(Error::OutOfVariables)));
    assert_eq!(gen.remaining(), 1);
    let mut gen = VarGenerator::resume(u32::MAX - 3);
    let t = type_of(&identity, &Enviroment::empty(), &mut gen).unwrap();
    assert_eq!(t.to_string(), "('4294967294 -> '4294967294)");
    assert_eq!(gen.remaining(), 0);
    let scheme = TypeScheme::new(v(1), set(&[1]));
    let env = Enviroment::empty().extend("x".to_owned(), scheme);
    let mut gen = VarGenerator::resume(u32::MAX - 1);
    let r = type_of(&Expr::Var("x".to_owned()), &env, &mut gen);
    assert!(matches!(r, Err(Error::OutOfVariables)));
    assert_eq!(
        Error::OutOfVariables.to_string(),
        "out of type variables"
    );
}

#[test]
fn errors_print_as_text() {
    assert_eq!(
        Error::UndefinedName("foo".to_owned()).to_string(),
        "foo is undefined"
    );
    assert_eq!(
        Error::TypeError("cannot unify int with bool".to_owned()).to_string(),
        "Type error: cannot unify int with bool"
    );
    let copy = Error::TypeError("m".to_owned()).clone();
    assert!(matches!(copy, Error::TypeError(m) if m == "m"));
}

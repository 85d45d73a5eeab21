use std::collections::HashSet;
use type_inference::ast::{Expr, Op, PrimitiveType};
use type_inference::infer::{
    bool_type, int_type, list_type, mgu, top_level_env, type_of, Enviroment, Error, Subst,
    TypeScheme, VarGenerator,
};

fn var(name: &str) -> Box<Expr> {
    Box::new(Expr::Var(name.to_owned()))
}

fn num(n: i32) -> Box<Expr> {
    Box::new(Expr::Num(n))
}

fn fun(x: &str, body: Box<Expr>) -> Box<Expr> {
    Box::new(Expr::Fun(x.to_owned(), body))
}

fn app(f: Box<Expr>, a: Box<Expr>) -> Box<Expr> {
    Box::new(Expr::App(f, a))
}

fn binop(l: Box<Expr>, op: Op, r: Box<Expr>) -> Box<Expr> {
    Box::new(Expr::BinOp(l, op, r))
}

fn arrow(a: PrimitiveType, b: PrimitiveType) -> PrimitiveType {
    PrimitiveType::Fun(Box::new(a), Box::new(b))
}

fn infer_closed(e: &Expr) -> Result<PrimitiveType, Error> {
    let mut gen = VarGenerator::new();
    type_of(e, &Enviroment::empty(), &mut gen)
}

#[test]
fn number_has_type_int() {
    let t = infer_closed(&Expr::Num(42)).unwrap();
    assert_eq!(t, int_type());
    assert_eq!(t.to_string(), "int");
}

#[test]
fn identity_is_polymorphic() {
    let t = infer_closed(&fun("x", var("x"))).unwrap();
    match t {
        PrimitiveType::Fun(a, b) => {
            assert!(matches!(*a, PrimitiveType::Var(_)));
            assert_eq!(a, b);
        }
        other => panic!("not a function type: {:?}", other),
    }
}

#[test]
fn twice_has_the_expected_shape() {
    let e = fun("f", fun("x", app(var("f"), app(var("f"), var("x")))));
    let t = infer_closed(&e).unwrap();
    match t {
        PrimitiveType::Fun(f, r) => {
            assert_eq!(f, r);
            match *f {
                PrimitiveType::Fun(a, b) => {
                    assert!(matches!(*a, PrimitiveType::Var(_)));
                    assert_eq!(a, b);
                }
                other => panic!("not a function type: {:?}", other),
            }
        }
        other => panic!("not a function type: {:?}", other),
    }
}

#[test]
fn let_bound_identity_is_used_at_two_types() {
    let e = Expr::Let(
        "id".to_owned(),
        fun("x", var("x")),
        app(var("id"), var("id")),
    );
    let t = infer_closed(&e).unwrap();
    match t {
        PrimitiveType::Fun(a, b) => {
            assert!(matches!(*a, PrimitiveType::Var(_)));
            assert_eq!(a, b);
        }
        other => panic!("not a function type: {:?}", other),
    }
}

#[test]
fn adding_a_boolean_is_a_type_error() {
    let e = fun("x", binop(var("x"), Op::Add, Box::new(Expr::Bool(true))));
    assert!(matches!(infer_closed(&e), Err(Error::TypeError(_))));
}

#[test]
fn conditional_on_a_comparison_has_type_int() {
    let e = Expr::If(binop(num(1), Op::Lt, num(2)), num(3), num(4));
    assert_eq!(infer_closed(&e).unwrap(), int_type());
}

#[test]
fn factorial_has_type_int_to_int() {
    let body = Expr::If(
        binop(var("n"), Op::Lt, num(1)),
        num(1),
        binop(
            var("n"),
            Op::Mul,
            app(var("f"), binop(var("n"), Op::Sub, num(1))),
        ),
    );
    let e = Expr::LetRec("f".to_owned(), fun("n", Box::new(body)), var("f"));
    let t = infer_closed(&e).unwrap();
    assert_eq!(t, arrow(int_type(), int_type()));
    assert_eq!(t.to_string(), "(int -> int)");
}

#[test]
fn self_application_fails_the_occurs_check() {
    let e = fun("x", app(var("x"), var("x")));
    assert!(matches!(infer_closed(&e), Err(Error::TypeError(_))));
}

#[test]
fn unbound_name_is_reported() {
    match infer_closed(&Expr::Var("foo".to_owned())) {
        Err(Error::UndefinedName(name)) => assert_eq!(name, "foo"),
        other => panic!("unexpected outcome: {:?}", other),
    }
}

#[test]
fn pair_of_a_number_and_nil_is_a_list_of_int() {
    let mut gen = VarGenerator::new();
    let env = top_level_env(&mut gen);
    let e = app(app(var("pair"), num(1)), var("nil"));
    let t = type_of(&e, &env, &mut gen).unwrap();
    assert_eq!(t, list_type(int_type()));
    assert_eq!(t.to_string(), "List<int>");
}

#[test]
fn occurs_check_rejects_a_variable_inside_its_own_type() {
    let a = PrimitiveType::Var(1);
    let t = arrow(PrimitiveType::Var(1), PrimitiveType::Var(2));
    match mgu(&a, &t, &Subst::empty()) {
        Err(Error::TypeError(msg)) => assert_eq!(msg, "cannot unify '1 with ('1 -> '2)"),
        other => panic!("unexpected outcome: {:?}", other),
    }
}

#[test]
fn unifier_makes_both_sides_equal() {
    let t = arrow(PrimitiveType::Var(1), int_type());
    let u = arrow(bool_type(), PrimitiveType::Var(2));
    let s = mgu(&t, &u, &Subst::empty()).unwrap();
    assert_eq!(s.apply(&t), s.apply(&u));
    assert_eq!(s.apply(&t), arrow(bool_type(), int_type()));
}

#[test]
fn scheme_instances_use_new_variables() {
    let body = arrow(PrimitiveType::Var(7), PrimitiveType::Var(9));
    let mut quantified = HashSet::new();
    quantified.insert(7);
    let scheme = TypeScheme::new(body, quantified);
    let mut gen = VarGenerator::new();
    let t = scheme.new_instance(&mut gen);
    assert_eq!(t, arrow(PrimitiveType::Var(1), PrimitiveType::Var(9)));
}

fn boolean(b: bool) -> Box<Expr> {
    Box::new(Expr::Bool(b))
}

fn cond(p: Box<Expr>, t: Box<Expr>, f: Box<Expr>) -> Box<Expr> {
    Box::new(Expr::If(p, t, f))
}

#[test]
fn let_leaves_the_type_of_a_parameter_as_it_is() {
    // fun x -> let y = x in if y true then y 1 else 2
    let body = Expr::Let(
        "y".to_owned(),
        var("x"),
        cond(app(var("y"), boolean(true)), app(var("y"), num(1)), num(2)),
    );
    let e = fun("x", Box::new(body));
    assert!(matches!(infer_closed(&e), Err(Error::TypeError(_))));
}

#[test]
fn let_generalises_beside_the_type_of_a_parameter() {
    // fun x -> let y = fun z -> x in if y true then y 1 else x
    let body = Expr::Let(
        "y".to_owned(),
        fun("z", var("x")),
        cond(app(var("y"), boolean(true)), app(var("y"), num(1)), var("x")),
    );
    let e = fun("x", Box::new(body));
    assert_eq!(infer_closed(&e).unwrap(), arrow(bool_type(), bool_type()));
}

#[test]
fn letrec_generalises_for_what_follows() {
    // letrec f = fun x -> x in if f true then f 1 else 2
    let e = Expr::LetRec(
        "f".to_owned(),
        fun("x", var("x")),
        cond(app(var("f"), boolean(true)), app(var("f"), num(1)), num(2)),
    );
    assert_eq!(infer_closed(&e).unwrap(), int_type());
}

#[test]
fn letrec_keeps_one_type_inside_the_value() {
    // letrec f = fun x -> if f true then f 1 else 2 in f
    let value = fun(
        "x",
        cond(app(var("f"), boolean(true)), app(var("f"), num(1)), num(2)),
    );
    let e = Expr::LetRec("f".to_owned(), value, var("f"));
    assert!(matches!(infer_closed(&e), Err(Error::TypeError(_))));
}

#[test]
fn nested_lets_generalise_one_after_the_other() {
    // let id = fun x -> x in let twice = fun f -> fun y -> f (f y) in twice id 3
    let twice = fun("f", fun("y", app(var("f"), app(var("f"), var("y")))));
    let inner = Expr::Let(
        "twice".to_owned(),
        twice,
        app(app(var("twice"), var("id")), num(3)),
    );
    let e = Expr::Let("id".to_owned(), fun("x", var("x")), Box::new(inner));
    assert_eq!(infer_closed(&e).unwrap(), int_type());
}

#[test]
fn let_bound_empty_list_is_a_list_of_anything() {
    // let l = nil in if is_nil l then first (pair 1 l) else 2
    let mut gen = VarGenerator::new();
    let env = top_level_env(&mut gen);
    let one = app(app(var("pair"), num(1)), var("l"));
    let e = Expr::Let(
        "l".to_owned(),
        var("nil"),
        cond(app(var("is_nil"), var("l")), app(var("first"), one), num(2)),
    );
    assert_eq!(type_of(&e, &env, &mut gen).unwrap(), int_type());
    // let l = nil in pair (is_nil l) (pair 1 l)
    let mixed = Expr::Let(
        "l".to_owned(),
        var("nil"),
        app(
            app(var("pair"), app(var("is_nil"), var("l"))),
            app(app(var("pair"), num(1)), var("l")),
        ),
    );
    assert!(matches!(type_of(&mixed, &env, &mut gen), Err(Error::TypeError(_))));
}

fn canonical(t: &PrimitiveType, names: &mut Vec<u32>) -> PrimitiveType {
    match t {
        PrimitiveType::Var(v) => {
            let place = match names.iter().position(|w| w == v) {
                Some(i) => i,
                None => {
                    names.push(*v);
                    names.len() - 1
                }
            };
            PrimitiveType::Var(place as u32)
        }
        PrimitiveType::Fun(a, b) => {
            let left = canonical(a, names);
            let right = canonical(b, names);
            arrow(left, right)
        }
        PrimitiveType::Con(name, args) => PrimitiveType::Con(
            name.clone(),
            args.iter().map(|arg| canonical(arg, names)).collect(),
        ),
    }
}

fn let_of(e: &Expr) -> Expr {
    Expr::Let("it".to_owned(), Box::new(e.clone()), var("it"))
}

#[test]
fn let_that_gives_back_its_value_has_the_type_of_the_value() {
    let twice = fun("f", fun("x", app(var("f"), app(var("f"), var("x")))));
    let compose = fun(
        "f",
        fun("g", fun("x", app(var("f"), app(var("g"), var("x"))))),
    );
    let constant = fun("x", fun("y", var("x")));
    let nested = Expr::Let("id".to_owned(), fun("x", var("x")), app(var("id"), var("id")));
    let typed: Vec<Expr> = vec![
        Expr::Num(1),
        *fun("x", var("x")),
        *twice,
        *compose,
        *constant,
        nested,
        *fun("x", binop(var("x"), Op::Lt, num(1))),
    ];
    for e in typed {
        let alone = infer_closed(&e).unwrap();
        let bound = infer_closed(&let_of(&e)).unwrap();
        assert_ne!(alone.to_string(), "");
        assert_eq!(
            canonical(&alone, &mut Vec::new()),
            canonical(&bound, &mut Vec::new())
        );
    }
    let untyped: Vec<Expr> = vec![
        *fun("x", app(var("x"), var("x"))),
        *binop(num(1), Op::Add, boolean(true)),
        Expr::Var("nowhere".to_owned()),
    ];
    for e in untyped {
        assert!(infer_closed(&e).is_err());
        assert!(infer_closed(&let_of(&e)).is_err());
    }
}

#[test]
fn let_needs_more_variables_than_its_value() {
    let e = Expr::Num(1);
    let mut gen = VarGenerator::resume(u32::MAX - 1);
    assert_eq!(type_of(&e, &Enviroment::empty(), &mut gen).unwrap(), int_type());
    let mut gen = VarGenerator::resume(u32::MAX - 1);
    assert!(matches!(
        type_of(&let_of(&e), &Enviroment::empty(), &mut gen),
        Err(Error::OutOfVariables)
    ));
}

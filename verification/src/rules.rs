//! The typing rules of the language, and what inference has to do with
//! them.

use crate::ast::{lemma_occurs_arg, lemma_renamed_con, Term, Ty};
use crate::substitution::{
    acyclic, apply, lemma_apply_con, lemma_apply_fun, lemma_refines_trans, refines,
};
use crate::typing::{
    apply_env, apply_scheme, bool_ty, find_frame, first_seen, first_seen_all, fresh, fun_ty,
    generalize, infer, instance_vars, instantiate, int_ty, is_comparison, lemma_infer_refines,
    lemma_unified_sound, operand_ty, result_ty, Scheme, shift, unified,
};
use vstd::prelude::*;

verus! {

/// The type `t` with every variable that `f` binds replaced by what `f`
/// binds it to, once.
pub open spec fn fill(t: Ty, f: Map<u32, Ty>) -> Ty
    decreases t,
{
    match t {
        Ty::Var(v) => if f.contains_key(v) {
            f[v]
        } else {
            t
        },
        Ty::Fun(a, b) => Ty::Fun(Box::new(fill(*a, f)), Box::new(fill(*b, f))),
        Ty::Con(name, args) => Ty::Con(
            name,
            Seq::new(
                args.len(),
                |i: int|
                    if 0 <= i < args.len() {
                        fill(args[i], f)
                    } else {
                        t
                    },
            ),
        ),
    }
}

/// Whether `t` is an instance of the scheme: its body with types in place of
/// quantified variables.
pub open spec fn instance_of(scheme: Scheme, t: Ty) -> bool {
    exists|f: Map<u32, Ty>|
        f.dom().subset_of(scheme.quantified) && #[trigger] fill(scheme.body, f) == t
}

/// The typing rules: whether the expression `e` has the type `t` in the
/// environment `env`. A variable has every instance of its scheme; the
/// value of a `let` is generalised over the variables that are not free in
/// the environment; the parameter of a function, and the name of a
/// `letrec` within its own value, have one type.
pub open spec fn types(env: Seq<(Seq<char>, Scheme)>, e: Term, t: Ty) -> bool
    decreases e,
{
    match e {
        Term::Num(_) => t == int_ty(),
        Term::Bool(_) => t == bool_ty(),
        Term::Var(x) => find_frame(env, x) matches Some(scheme) && instance_of(scheme, t),
        Term::BinOp(l, op, r) => t == result_ty(op) && exists|a: Ty|
            types(env, *l, #[trigger] operand_ty(op, a)) && types(env, *r, operand_ty(op, a)),
        Term::If(p, c, f) => types(env, *p, bool_ty()) && types(env, *c, t) && types(env, *f, t),
        Term::Fun(x, body) => t matches Ty::Fun(a, r) && types(
            seq![(x, Scheme::mono(*a))] + env,
            *body,
            *r,
        ),
        Term::App(f, arg) => exists|a: Ty|
            types(env, *f, #[trigger] fun_ty(a, t)) && types(env, *arg, a),
        Term::Let(x, v, body) => exists|a: Ty|
            types(env, *v, a) && types(seq![(x, #[trigger] generalize(a, env))] + env, *body, t),
        Term::LetRec(x, v, body) => exists|a: Ty|
            types(seq![(x, #[trigger] Scheme::mono(a))] + env, *v, a) && types(
                seq![(x, generalize(a, env))] + env,
                *body,
                t,
            ),
    }
}

/// Whether no scheme of the environment quantifies a variable.
pub open spec fn monomorphic(env: Seq<(Seq<char>, Scheme)>) -> bool {
    forall|i: int| 0 <= i < env.len() ==> (#[trigger] env[i]).1.quantified == Set::<u32>::empty()
}

/// Whether the expression holds neither `let` nor `letrec`.
pub open spec fn let_free(e: Term) -> bool
    decreases e,
{
    match e {
        Term::Num(_) => true,
        Term::Bool(_) => true,
        Term::Var(_) => true,
        Term::BinOp(l, _, r) => let_free(*l) && let_free(*r),
        Term::If(p, c, f) => let_free(*p) && let_free(*c) && let_free(*f),
        Term::Fun(_, body) => let_free(*body),
        Term::App(f, arg) => let_free(*f) && let_free(*arg),
        Term::Let(_, _, _) => false,
        Term::LetRec(_, _, _) => false,
    }
}

/// Filling in nothing changes nothing.
pub proof fn lemma_fill_nothing(t: Ty, f: Map<u32, Ty>)
    requires
        f.dom() == Set::<u32>::empty(),
    ensures
        fill(t, f) == t,
    decreases t,
{
    match t {
        Ty::Var(v) => {},
        Ty::Fun(a, b) => {
            lemma_fill_nothing(*a, f);
            lemma_fill_nothing(*b, f);
        },
        Ty::Con(name, args) => {
            let out = fill(t, f)->Con_1;
            assert forall|i: int| 0 <= i < args.len() implies out[i] == args[i] by {
                lemma_fill_nothing(args[i], f);
            }
            assert(out =~= args);
        },
    }
}

/// A scheme without quantified variables has one instance: its body.
pub proof fn lemma_mono_instance(scheme: Scheme, t: Ty)
    requires
        scheme.quantified == Set::<u32>::empty(),
    ensures
        instance_of(scheme, t) <==> t == scheme.body,
{
    let none = Map::<u32, Ty>::empty();
    lemma_fill_nothing(scheme.body, none);
    assert(none.dom() =~= Set::<u32>::empty());
    if t == scheme.body {
        assert(none.dom().subset_of(scheme.quantified) && fill(scheme.body, none) == t);
    }
    if instance_of(scheme, t) {
        let f = choose|f: Map<u32, Ty>|
            f.dom().subset_of(scheme.quantified) && #[trigger] fill(scheme.body, f) == t;
        assert(f.dom() =~= Set::<u32>::empty());
        lemma_fill_nothing(scheme.body, f);
    }
}

/// A renaming that changes no variable of a type leaves the type.
pub proof fn lemma_renamed_same(t: Ty, f: spec_fn(u32) -> u32)
    requires
        forall|v: u32| #[trigger] t.occurs(v) ==> f(v) == v,
    ensures
        t.renamed(f) == t,
    decreases t,
{
    match t {
        Ty::Var(v) => {
            assert(t.occurs(v));
        },
        Ty::Fun(a, b) => {
            assert forall|v: u32| #[trigger] a.occurs(v) implies f(v) == v by {
                assert(t.occurs(v));
            }
            assert forall|v: u32| #[trigger] b.occurs(v) implies f(v) == v by {
                assert(t.occurs(v));
            }
            lemma_renamed_same(*a, f);
            lemma_renamed_same(*b, f);
        },
        Ty::Con(name, args) => {
            lemma_renamed_con(f, name, args);
            let out = t.renamed(f)->Con_1;
            assert forall|i: int| 0 <= i < args.len() implies out[i] == args[i] by {
                let arg = args[i];
                assert forall|v: u32| #[trigger] arg.occurs(v) implies f(v) == v by {
                    lemma_occurs_arg(name, args, i, v);
                }
                lemma_renamed_same(arg, f);
            }
            assert(out =~= args);
        },
    }
}

/// Where no variable is sought, none is seen.
pub proof fn lemma_first_seen_nothing(t: Ty, seen: Seq<u32>)
    ensures
        first_seen(t, Set::empty(), seen) == seen,
    decreases t, (if t is Con { t->Con_1.len() + 1 } else { 0 }),
{
    match t {
        Ty::Var(_) => {},
        Ty::Fun(a, b) => {
            lemma_first_seen_nothing(*a, seen);
            lemma_first_seen_nothing(*b, seen);
        },
        Ty::Con(_, args) => {
            lemma_first_seen_all_nothing(t, args, args.len() as int, seen);
            assert(args.take(args.len() as int) =~= args);
        },
    }
}

/// `lemma_first_seen_nothing` for the first `n` arguments of a constructor.
pub proof fn lemma_first_seen_all_nothing(t: Ty, ts: Seq<Ty>, n: int, seen: Seq<u32>)
    requires
        t matches Ty::Con(_, args) && args == ts,
        0 <= n <= ts.len(),
    ensures
        first_seen_all(ts.take(n), Set::empty(), seen) == seen,
    decreases t, n,
{
    if n > 0 {
        let k = n - 1;
        assert(ts.take(n).drop_last() =~= ts.take(k));
        assert(ts.take(n).last() == ts[k]);
        lemma_first_seen_all_nothing(t, ts, k, seen);
        lemma_first_seen_nothing(ts[k], seen);
    } else {
        assert(ts.take(0) =~= Seq::<Ty>::empty());
    }
}

/// The instance of a scheme without quantified variables is its body, and
/// takes no new variable.
pub proof fn lemma_mono_instantiate(scheme: Scheme, last: nat)
    requires
        scheme.quantified == Set::<u32>::empty(),
    ensures
        instance_vars(scheme).len() == 0,
        instantiate(scheme, last) == scheme.body,
{
    let order = instance_vars(scheme);
    lemma_first_seen_nothing(scheme.body, Seq::empty());
    let f = shift(order, last);
    assert forall|v: u32| #[trigger] scheme.body.occurs(v) implies f(v) == v by {}
    lemma_renamed_same(scheme.body, f);
}

/// A substitution leaves the types `int` and `bool` alone.
pub proof fn lemma_apply_constant(s: Map<u32, Ty>)
    requires
        acyclic(s),
    ensures
        apply(s, int_ty()) == int_ty(),
        apply(s, bool_ty()) == bool_ty(),
{
    lemma_apply_con(s, "int"@, Seq::empty());
    lemma_apply_con(s, "bool"@, Seq::empty());
    assert(apply(s, int_ty())->Con_1 =~= Seq::<Ty>::empty());
    assert(apply(s, bool_ty())->Con_1 =~= Seq::<Ty>::empty());
}

/// An environment without quantified variables under a substitution: the
/// substitution applied to each body.
pub proof fn lemma_apply_env_mono(s: Map<u32, Ty>, env: Seq<(Seq<char>, Scheme)>)
    requires
        monomorphic(env),
    ensures
        monomorphic(apply_env(s, env)),
        apply_env(s, env).len() == env.len(),
        forall|i: int|
            0 <= i < env.len() ==> (#[trigger] apply_env(s, env)[i]) == (
                env[i].0,
                Scheme::mono(apply(s, env[i].1.body)),
            ),
{
    assert forall|i: int| 0 <= i < env.len() implies (#[trigger] apply_env(s, env)[i]) == (
        env[i].0,
        Scheme::mono(apply(s, env[i].1.body)),
    ) by {
        assert(env[i].1.quantified == Set::<u32>::empty());
        assert(s.remove_keys(Set::<u32>::empty()) =~= s);
    }
}

/// Looking a name up in an environment under a substitution gives the
/// scheme of the name under the substitution.
pub proof fn lemma_find_applied(s: Map<u32, Ty>, env: Seq<(Seq<char>, Scheme)>, x: Seq<char>)
    ensures
        find_frame(apply_env(s, env), x) == match find_frame(env, x) {
            Some(scheme) => Some(apply_scheme(s, scheme)),
            None => None,
        },
    decreases env.len(),
{
    if env.len() > 0 {
        assert(apply_env(s, env)[0] == (env[0].0, apply_scheme(s, env[0].1)));
        assert(apply_env(s, env).drop_first() =~= apply_env(s, env.drop_first()));
        lemma_find_applied(s, env.drop_first(), x);
    }
}

/// A name that an environment without quantified variables binds is bound
/// to a scheme without quantified variables.
pub proof fn lemma_find_mono(env: Seq<(Seq<char>, Scheme)>, x: Seq<char>)
    requires
        monomorphic(env),
    ensures
        find_frame(env, x) matches Some(scheme) ==> scheme.quantified == Set::<u32>::empty(),
    decreases env.len(),
{
    if env.len() > 0 {
        assert(env[0].1.quantified == Set::<u32>::empty());
        let rest = env.drop_first();
        assert forall|i: int| 0 <= i < rest.len() implies (#[trigger] rest[i]).1.quantified
            == Set::<u32>::empty() by {
            assert(rest[i] == env[i + 1]);
        }
        lemma_find_mono(rest, x);
    }
}

/// An environment with one more frame in front, under a substitution.
pub proof fn lemma_apply_env_frame(
    s: Map<u32, Ty>,
    env: Seq<(Seq<char>, Scheme)>,
    x: Seq<char>,
    a: Ty,
)
    requires
        monomorphic(env),
    ensures
        monomorphic(seq![(x, Scheme::mono(a))] + env),
        apply_env(s, seq![(x, Scheme::mono(a))] + env) == seq![(x, Scheme::mono(apply(s, a)))]
            + apply_env(s, env),
{
    let longer = seq![(x, Scheme::mono(a))] + env;
    assert forall|i: int| 0 <= i < longer.len() implies (#[trigger] longer[i]).1.quantified
        == Set::<u32>::empty() by {
        if i > 0 {
            assert(longer[i] == env[i - 1]);
        }
    }
    assert(s.remove_keys(Set::<u32>::empty()) =~= s);
    assert(apply_env(s, longer) =~= seq![(x, Scheme::mono(apply(s, a)))] + apply_env(s, env));
}

/// An environment under a substitution that refines another one is the
/// same with or without the other one applied before.
pub proof fn lemma_apply_env_refined(
    fine: Map<u32, Ty>,
    coarse: Map<u32, Ty>,
    env: Seq<(Seq<char>, Scheme)>,
)
    requires
        monomorphic(env),
        refines(fine, coarse),
    ensures
        apply_env(fine, apply_env(coarse, env)) == apply_env(fine, env),
{
    lemma_apply_env_mono(coarse, env);
    lemma_apply_env_mono(fine, env);
    lemma_apply_env_mono(fine, apply_env(coarse, env));
    assert forall|i: int| 0 <= i < env.len() implies apply_env(fine, apply_env(coarse, env))[i]
        == apply_env(fine, env)[i] by {
        assert(apply_env(coarse, env)[i].1.body == apply(coarse, env[i].1.body));
        assert(apply(fine, apply(coarse, env[i].1.body)) == apply(fine, env[i].1.body));
    }
    assert(apply_env(fine, apply_env(coarse, env)) =~= apply_env(fine, env));
}

/// The typing rules are stable under substitution, for expressions without
/// `let` in environments without quantified variables.
pub proof fn lemma_types_stable(env: Seq<(Seq<char>, Scheme)>, e: Term, t: Ty, s: Map<u32, Ty>)
    requires
        acyclic(s),
        monomorphic(env),
        let_free(e),
        types(env, e, t),
    ensures
        types(apply_env(s, env), e, apply(s, t)),
    decreases e,
{
    lemma_apply_constant(s);
    let env2 = apply_env(s, env);
    match e {
        Term::Num(_) => {},
        Term::Bool(_) => {},
        Term::Var(x) => {
            lemma_find_applied(s, env, x);
            lemma_find_mono(env, x);
            let scheme = find_frame(env, x)->Some_0;
            lemma_mono_instance(scheme, t);
            assert(s.remove_keys(Set::<u32>::empty()) =~= s);
            lemma_mono_instance(apply_scheme(s, scheme), apply(s, t));
        },
        Term::BinOp(l, op, r) => {
            let a = choose|a: Ty|
                types(env, *l, #[trigger] operand_ty(op, a)) && types(env, *r, operand_ty(op, a));
            lemma_types_stable(env, *l, operand_ty(op, a), s);
            lemma_types_stable(env, *r, operand_ty(op, a), s);
            let b = apply(s, a);
            assert(apply(s, operand_ty(op, a)) == operand_ty(op, b));
            assert(types(env2, *l, operand_ty(op, b)) && types(env2, *r, operand_ty(op, b)));
        },
        Term::If(p, c, f) => {
            lemma_types_stable(env, *p, bool_ty(), s);
            lemma_types_stable(env, *c, t, s);
            lemma_types_stable(env, *f, t, s);
        },
        Term::Fun(x, body) => {
            let a = *t->Fun_0;
            let r = *t->Fun_1;
            lemma_apply_fun(s, a, r);
            lemma_apply_env_frame(s, env, x, a);
            lemma_types_stable(seq![(x, Scheme::mono(a))] + env, *body, r, s);
        },
        Term::App(f, arg) => {
            let a = choose|a: Ty| types(env, *f, #[trigger] fun_ty(a, t)) && types(env, *arg, a);
            lemma_types_stable(env, *f, fun_ty(a, t), s);
            lemma_types_stable(env, *arg, a, s);
            lemma_apply_fun(s, a, t);
            let b = apply(s, a);
            assert(types(env2, *f, fun_ty(b, apply(s, t))) && types(env2, *arg, b));
        },
        Term::Let(_, _, _) => {},
        Term::LetRec(_, _, _) => {},
    }
}

/// A typing under a substitution holds under every substitution that
/// refines it.
pub proof fn lemma_types_refined(
    env: Seq<(Seq<char>, Scheme)>,
    e: Term,
    t: Ty,
    coarse: Map<u32, Ty>,
    fine: Map<u32, Ty>,
)
    requires
        acyclic(fine),
        monomorphic(env),
        let_free(e),
        refines(fine, coarse),
        types(apply_env(coarse, env), e, apply(coarse, t)),
    ensures
        types(apply_env(fine, env), e, apply(fine, t)),
{
    lemma_apply_env_mono(coarse, env);
    lemma_types_stable(apply_env(coarse, env), e, apply(coarse, t), fine);
    lemma_apply_env_refined(fine, coarse, env);
    assert(apply(fine, apply(coarse, t)) == apply(fine, t));
}

/// Whether inference is sound at an expression: under the substitution
/// that it returns, the expression has the expected type by the typing
/// rules.
pub open spec fn sound_at(
    e: Term,
    expected: Ty,
    env: Seq<(Seq<char>, Scheme)>,
    s: Map<u32, Ty>,
    last: nat,
) -> bool {
    infer(e, expected, env, s, last).result matches Ok(out) ==> types(
        apply_env(out, env),
        e,
        apply(out, expected),
    )
}

/// Inference is sound for expressions without `let` in environments
/// without quantified variables: under the substitution that it returns,
/// the expression has the expected type by the typing rules.
pub proof fn lemma_infer_sound(
    e: Term,
    expected: Ty,
    env: Seq<(Seq<char>, Scheme)>,
    s: Map<u32, Ty>,
    last: nat,
)
    requires
        acyclic(s),
        monomorphic(env),
        let_free(e),
    ensures
        sound_at(e, expected, env, s, last),
    decreases e, 1nat,
{
    if infer(e, expected, env, s, last).result is Ok {
        match e {
            Term::Num(_) => {
                lemma_unified_sound(expected, int_ty(), s);
                lemma_apply_constant(unified(expected, int_ty(), s)->Ok_0);
            },
            Term::Bool(_) => {
                lemma_unified_sound(expected, bool_ty(), s);
                lemma_apply_constant(unified(expected, bool_ty(), s)->Ok_0);
            },
            Term::Var(x) => {
                lemma_var_sound(x, expected, env, s, last);
            },
            Term::BinOp(l, op, r) => {
                lemma_binop_sound(e, expected, env, s, last);
            },
            Term::If(p, c, f) => {
                lemma_if_sound(e, expected, env, s, last);
            },
            Term::Fun(x, body) => {
                lemma_fun_sound(e, expected, env, s, last);
            },
            Term::App(f, arg) => {
                lemma_app_sound(e, expected, env, s, last);
            },
            Term::Let(_, _, _) => {},
            Term::LetRec(_, _, _) => {},
        }
    }
}

/// Inference is sound at a variable.
pub proof fn lemma_var_sound(
    x: Seq<char>,
    expected: Ty,
    env: Seq<(Seq<char>, Scheme)>,
    s: Map<u32, Ty>,
    last: nat,
)
    requires
        acyclic(s),
        monomorphic(env),
        infer(Term::Var(x), expected, env, s, last).result is Ok,
    ensures
        sound_at(Term::Var(x), expected, env, s, last),
{
    let out = infer(Term::Var(x), expected, env, s, last).result->Ok_0;
    let scheme = find_frame(env, x)->Some_0;
    lemma_find_mono(env, x);
    lemma_mono_instantiate(scheme, last);
    lemma_unified_sound(expected, scheme.body, s);
    lemma_find_applied(out, env, x);
    assert(out.remove_keys(Set::<u32>::empty()) =~= out);
    lemma_mono_instance(apply_scheme(out, scheme), apply(out, expected));
}

/// Inference is sound at a binary operator, if it is at its operands.
pub proof fn lemma_binop_sound(
    e: Term,
    expected: Ty,
    env: Seq<(Seq<char>, Scheme)>,
    s: Map<u32, Ty>,
    last: nat,
)
    requires
        acyclic(s),
        monomorphic(env),
        let_free(e),
        e is BinOp,
        infer(e, expected, env, s, last).result is Ok,
    ensures
        sound_at(e, expected, env, s, last),
    decreases e, 0nat,
{
    let l = *e->BinOp_0;
    let op = e->BinOp_1;
    let r = *e->BinOp_2;
    let out = infer(e, expected, env, s, last).result->Ok_0;
    let start = if is_comparison(op) {
        last + 1
    } else {
        last
    };
    let operand = operand_ty(op, fresh(last));
    let left = infer(l, operand, env, s, start);
    let s1 = left.result->Ok_0;
    lemma_infer_refines(l, operand, env, s, start);
    lemma_infer_sound(l, operand, env, s, start);
    let right = infer(r, operand, env, s1, left.last);
    let s2 = right.result->Ok_0;
    lemma_infer_refines(r, operand, env, s1, left.last);
    lemma_infer_sound(r, operand, env, s1, left.last);
    lemma_unified_sound(expected, result_ty(op), s2);
    lemma_refines_trans(out, s2, s1);
    lemma_types_refined(env, l, operand, s1, out);
    lemma_types_refined(env, r, operand, s2, out);
    lemma_apply_constant(out);
    let a = apply(out, operand);
    assert(operand_ty(op, a) == a);
    assert(types(apply_env(out, env), l, operand_ty(op, a)) && types(
        apply_env(out, env),
        r,
        operand_ty(op, a),
    ));
    assert(apply(out, expected) == result_ty(op));
}

/// Inference is sound at a conditional, if it is at its three parts.
pub proof fn lemma_if_sound(
    e: Term,
    expected: Ty,
    env: Seq<(Seq<char>, Scheme)>,
    s: Map<u32, Ty>,
    last: nat,
)
    requires
        acyclic(s),
        monomorphic(env),
        let_free(e),
        e is If,
        infer(e, expected, env, s, last).result is Ok,
    ensures
        sound_at(e, expected, env, s, last),
    decreases e, 0nat,
{
    let p = *e->If_0;
    let c = *e->If_1;
    let f = *e->If_2;
    let out = infer(e, expected, env, s, last).result->Ok_0;
    let cond = infer(p, bool_ty(), env, s, last);
    let s1 = cond.result->Ok_0;
    lemma_infer_refines(p, bool_ty(), env, s, last);
    lemma_infer_sound(p, bool_ty(), env, s, last);
    let first = infer(c, expected, env, s1, cond.last);
    let s2 = first.result->Ok_0;
    lemma_infer_refines(c, expected, env, s1, cond.last);
    lemma_infer_sound(c, expected, env, s1, cond.last);
    lemma_infer_refines(f, expected, env, s2, first.last);
    lemma_infer_sound(f, expected, env, s2, first.last);
    lemma_refines_trans(out, s2, s1);
    lemma_types_refined(env, p, bool_ty(), s1, out);
    lemma_types_refined(env, c, expected, s2, out);
    lemma_apply_constant(out);
}

/// Inference is sound at a function, if it is at its body.
pub proof fn lemma_fun_sound(
    e: Term,
    expected: Ty,
    env: Seq<(Seq<char>, Scheme)>,
    s: Map<u32, Ty>,
    last: nat,
)
    requires
        acyclic(s),
        monomorphic(env),
        let_free(e),
        e is Fun,
        infer(e, expected, env, s, last).result is Ok,
    ensures
        sound_at(e, expected, env, s, last),
    decreases e, 0nat,
{
    let x = e->Fun_0;
    let body = *e->Fun_1;
    let out = infer(e, expected, env, s, last).result->Ok_0;
    let a = fresh(last);
    let b = fresh(last + 1);
    let s1 = unified(expected, fun_ty(a, b), s)->Ok_0;
    lemma_unified_sound(expected, fun_ty(a, b), s);
    let env1 = seq![(x, Scheme::mono(a))] + env;
    lemma_apply_env_frame(out, env, x, a);
    lemma_infer_refines(body, b, env1, s1, last + 2);
    lemma_infer_sound(body, b, env1, s1, last + 2);
    lemma_apply_fun(out, a, b);
    assert(apply(out, apply(s1, expected)) == apply(out, expected));
    assert(apply(out, apply(s1, fun_ty(a, b))) == apply(out, fun_ty(a, b)));
}

/// Inference is sound at an application, if it is at the function and at
/// the argument.
pub proof fn lemma_app_sound(
    e: Term,
    expected: Ty,
    env: Seq<(Seq<char>, Scheme)>,
    s: Map<u32, Ty>,
    last: nat,
)
    requires
        acyclic(s),
        monomorphic(env),
        let_free(e),
        e is App,
        infer(e, expected, env, s, last).result is Ok,
    ensures
        sound_at(e, expected, env, s, last),
    decreases e, 0nat,
{
    let f = *e->App_0;
    let arg = *e->App_1;
    let out = infer(e, expected, env, s, last).result->Ok_0;
    let a = fresh(last);
    let fun = infer(f, fun_ty(a, expected), env, s, last + 1);
    let s1 = fun.result->Ok_0;
    lemma_infer_refines(f, fun_ty(a, expected), env, s, last + 1);
    lemma_infer_sound(f, fun_ty(a, expected), env, s, last + 1);
    lemma_infer_refines(arg, a, env, s1, fun.last);
    lemma_infer_sound(arg, a, env, s1, fun.last);
    lemma_types_refined(env, f, fun_ty(a, expected), s1, out);
    lemma_apply_fun(out, a, expected);
    let b = apply(out, a);
    assert(types(apply_env(out, env), f, fun_ty(b, apply(out, expected))) && types(
        apply_env(out, env),
        arg,
        b,
    ));
}

/// The application of a variable to itself.
pub open spec fn self_application(x: Seq<char>) -> Term {
    Term::App(Box::new(Term::Var(x)), Box::new(Term::Var(x)))
}

/// The parameter of a function has one type: a function that applies its
/// parameter to itself has no type, whatever the environment.
pub proof fn lemma_self_application_untypable(
    env: Seq<(Seq<char>, Scheme)>,
    x: Seq<char>,
    t: Ty,
)
    ensures
        !types(env, Term::Fun(x, Box::new(self_application(x))), t),
{
    let e = Term::Fun(x, Box::new(self_application(x)));
    if types(env, e, t) {
        let a = *t->Fun_0;
        let r = *t->Fun_1;
        let inner = seq![(x, Scheme::mono(a))] + env;
        assert(types(inner, self_application(x), r));
        let b = choose|b: Ty|
            types(inner, Term::Var(x), #[trigger] fun_ty(b, r)) && types(inner, Term::Var(x), b);
        assert(inner[0] == (x, Scheme::mono(a)));
        assert(find_frame(inner, x) == Some(Scheme::mono(a)));
        lemma_mono_instance(Scheme::mono(a), fun_ty(b, r));
        lemma_mono_instance(Scheme::mono(a), b);
        assert(a == fun_ty(a, r));
        assert(a.size() == 1 + a.size() + r.size());
    }
}

/// Inference fails on a function that applies its parameter to itself, in
/// every environment without quantified variables.
pub proof fn lemma_self_application_fails(
    x: Seq<char>,
    expected: Ty,
    env: Seq<(Seq<char>, Scheme)>,
    s: Map<u32, Ty>,
    last: nat,
)
    requires
        acyclic(s),
        monomorphic(env),
    ensures
        infer(Term::Fun(x, Box::new(self_application(x))), expected, env, s, last).result is Err,
{
    let e = Term::Fun(x, Box::new(self_application(x)));
    assert(let_free(e)) by {
        assert(let_free(Term::Var(x)));
        assert(let_free(self_application(x)));
    }
    lemma_infer_sound(e, expected, env, s, last);
    if infer(e, expected, env, s, last).result is Ok {
        let out = infer(e, expected, env, s, last).result->Ok_0;
        lemma_self_application_untypable(apply_env(out, env), x, apply(out, expected));
    }
}

} // verus!

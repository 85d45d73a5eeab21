//! The soundness of inference for every expression: under a substitution
//! that refines what inference returns and leaves the generalised
//! variables alone, the expression has the expected type by the typing
//! rules.

use crate::ast::{lemma_occurs_arg, lemma_renamed_con, Term, Ty};
use crate::reach::{
    lemma_reach_from, lemma_reach_into, lemma_reach_on, lemma_reach_unbound, reach,
};
use crate::rules::{fill, instance_of, lemma_apply_constant, lemma_find_applied, types};
use crate::substitution::{
    acyclic, apply, lemma_apply_con, lemma_apply_fun, lemma_apply_keeps, lemma_apply_var,
    lemma_refines_trans, refines,
};
use crate::typing::{
    apply_env, apply_scheme, bool_ty, env_vars, find_frame, fresh, fun_ty, generalize, infer,
    instance_vars, instantiate, int_ty, is_comparison, lemma_first_seen, lemma_infer_refines,
    lemma_unified_sound, operand_ty, result_ty, shift, unified, Scheme,
};
use vstd::prelude::*;

verus! {

/// Whether the variable `u` is free in the scheme: it occurs in the body
/// and is not quantified.
pub open spec fn free_in(scheme: Scheme, u: u32) -> bool {
    scheme.body.occurs(u) && !scheme.quantified.contains(u)
}

/// Whether a substitution leaves the quantified variables of a scheme
/// alone: they occur in the body, the substitution binds none of them, and
/// leads to none of them from a free variable of the scheme.
pub open spec fn sealed(s: Map<u32, Ty>, scheme: Scheme) -> bool {
    &&& forall|q: u32| #[trigger] scheme.quantified.contains(q) ==> scheme.body.occurs(q)
    &&& forall|q: u32| #[trigger] scheme.quantified.contains(q) ==> !s.contains_key(q)
    &&& forall|u: u32, q: u32|
        #![trigger reach(s, u, q)]
        free_in(scheme, u) && scheme.quantified.contains(q) ==> !reach(s, u, q)
}

/// Whether a substitution leaves the quantified variables of every scheme
/// of the environment alone.
pub open spec fn env_sealed(s: Map<u32, Ty>, env: Seq<(Seq<char>, Scheme)>) -> bool {
    forall|i: int| 0 <= i < env.len() ==> sealed(s, (#[trigger] env[i]).1)
}

/// Whether a substitution keeps off the variables of `q`: it binds none of
/// them, and leads to none of them from a free variable of the
/// environment.
pub open spec fn keeps_off(s: Map<u32, Ty>, env: Seq<(Seq<char>, Scheme)>, q: Set<u32>) -> bool {
    &&& forall|v: u32| #[trigger] q.contains(v) ==> !s.contains_key(v)
    &&& forall|i: int, u: u32, v: u32|
        #![trigger env[i], reach(s, u, v)]
        0 <= i < env.len() && free_in(env[i].1, u) && q.contains(v) ==> !reach(s, u, v)
}

/// A scheme under a substitution that binds none of its quantified
/// variables: the substitution applied to the body.
pub proof fn lemma_apply_scheme_sealed(s: Map<u32, Ty>, scheme: Scheme)
    requires
        forall|q: u32| #[trigger] scheme.quantified.contains(q) ==> !s.contains_key(q),
    ensures
        apply_scheme(s, scheme) == (Scheme {
            body: apply(s, scheme.body),
            quantified: scheme.quantified,
        }),
{
    assert(s.remove_keys(scheme.quantified) =~= s);
}

/// How filling acts on a constructor: argument by argument.
pub proof fn lemma_fill_con(f: Map<u32, Ty>, name: Seq<char>, args: Seq<Ty>)
    ensures
        fill(Ty::Con(name, args), f) matches Ty::Con(n, out) && n == name && out.len()
            == args.len() && forall|i: int|
            0 <= i < args.len() ==> #[trigger] out[i] == fill(args[i], f),
{
}

/// Filling leaves a type alone in which no variable occurs that is to be
/// filled.
pub proof fn lemma_fill_absent(t: Ty, f: Map<u32, Ty>)
    requires
        forall|v: u32| #[trigger] t.occurs(v) ==> !f.contains_key(v),
    ensures
        fill(t, f) == t,
    decreases t,
{
    match t {
        Ty::Var(v) => {
            assert(t.occurs(v));
        },
        Ty::Fun(a, b) => {
            assert forall|v: u32| #[trigger] a.occurs(v) implies !f.contains_key(v) by {
                assert(t.occurs(v));
            }
            assert forall|v: u32| #[trigger] b.occurs(v) implies !f.contains_key(v) by {
                assert(t.occurs(v));
            }
            lemma_fill_absent(*a, f);
            lemma_fill_absent(*b, f);
        },
        Ty::Con(name, args) => {
            lemma_fill_con(f, name, args);
            let out = fill(t, f)->Con_1;
            assert forall|i: int| 0 <= i < args.len() implies out[i] == args[i] by {
                let arg = args[i];
                assert forall|v: u32| #[trigger] arg.occurs(v) implies !f.contains_key(v) by {
                    lemma_occurs_arg(name, args, i, v);
                }
                lemma_fill_absent(arg, f);
            }
            assert(out =~= args);
        },
    }
}

/// What a substitution makes of a renamed type is what it makes of the
/// type, with what it makes of the new names filled in for the old ones;
/// where the substitution binds none of the renamed variables and leads to
/// none of them from the other variables of the type.
pub proof fn lemma_fill_renamed(
    s: Map<u32, Ty>,
    t: Ty,
    q: Set<u32>,
    f: spec_fn(u32) -> u32,
    m: Map<u32, Ty>,
)
    requires
        acyclic(s),
        forall|v: u32| #[trigger] q.contains(v) ==> !s.contains_key(v),
        forall|u: u32| #[trigger] t.occurs(u) && !q.contains(u) ==> f(u) == u,
        forall|u: u32, v: u32|
            #![trigger reach(s, u, v)]
            t.occurs(u) && !q.contains(u) && q.contains(v) ==> !reach(s, u, v),
        forall|v: u32| q.contains(v) <==> #[trigger] m.contains_key(v),
        forall|v: u32| #[trigger] q.contains(v) ==> m[v] == apply(s, Ty::Var(f(v))),
    ensures
        fill(apply(s, t), m) == apply(s, t.renamed(f)),
    decreases t,
{
    match t {
        Ty::Var(u) => {
            assert(t.occurs(u));
            if q.contains(u) {
                lemma_apply_var(s, u);
            } else {
                assert forall|v: u32| #[trigger] apply(s, t).occurs(v) implies !m.contains_key(
                    v,
                ) by {
                    if q.contains(v) {
                        assert(reach(s, u, v));
                    }
                }
                lemma_fill_absent(apply(s, t), m);
            }
        },
        Ty::Fun(a, b) => {
            assert forall|u: u32| #[trigger] a.occurs(u) implies t.occurs(u) by {}
            assert forall|u: u32| #[trigger] b.occurs(u) implies t.occurs(u) by {}
            lemma_fill_renamed(s, *a, q, f, m);
            lemma_fill_renamed(s, *b, q, f, m);
            lemma_apply_fun(s, *a, *b);
            lemma_apply_fun(s, a.renamed(f), b.renamed(f));
        },
        Ty::Con(name, args) => {
            lemma_apply_con(s, name, args);
            let mid = apply(s, t)->Con_1;
            lemma_fill_con(m, name, mid);
            let left = fill(apply(s, t), m)->Con_1;
            lemma_renamed_con(f, name, args);
            let named = t.renamed(f)->Con_1;
            lemma_apply_con(s, name, named);
            let right = apply(s, t.renamed(f))->Con_1;
            assert forall|i: int| 0 <= i < args.len() implies left[i] == right[i] by {
                let arg = args[i];
                assert forall|u: u32| #[trigger] arg.occurs(u) implies t.occurs(u) by {
                    lemma_occurs_arg(name, args, i, u);
                }
                lemma_fill_renamed(s, arg, q, f, m);
            }
            assert(left =~= right);
        },
    }
}

/// What a substitution makes of an instance of a scheme is an instance of
/// what it makes of the scheme, where it leaves the quantified variables of
/// the scheme alone.
pub proof fn lemma_instance_sound(s: Map<u32, Ty>, scheme: Scheme, last: nat)
    requires
        acyclic(s),
        sealed(s, scheme),
    ensures
        instance_of(apply_scheme(s, scheme), apply(s, instantiate(scheme, last))),
{
    let q = scheme.quantified;
    let order = instance_vars(scheme);
    let f = shift(order, last);
    let m = Map::new(|v: u32| q.contains(v), |v: u32| apply(s, Ty::Var(f(v))));
    lemma_first_seen(scheme.body, q, Seq::empty());
    lemma_apply_scheme_sealed(s, scheme);
    assert forall|u: u32| #[trigger] scheme.body.occurs(u) && !q.contains(u) implies f(u)
        == u by {
        assert(!order.contains(u));
    }
    assert forall|u: u32, v: u32|
        #![trigger reach(s, u, v)]
        scheme.body.occurs(u) && !q.contains(u) && q.contains(v) implies !reach(s, u, v) by {
        assert(free_in(scheme, u));
    }
    lemma_fill_renamed(s, scheme.body, q, f, m);
    assert(m.dom().subset_of(q));
    assert(fill(apply_scheme(s, scheme).body, m) == apply(s, instantiate(scheme, last)));
}

/// A variable that is free in an environment under a substitution is one
/// that the substitution leads to from a free variable of the environment.
pub proof fn lemma_env_vars_from(s: Map<u32, Ty>, env: Seq<(Seq<char>, Scheme)>, w: u32) -> (at: (
    int,
    u32,
))
    requires
        acyclic(s),
        env_sealed(s, env),
        env_vars(apply_env(s, env)).contains(w),
    ensures
        0 <= at.0 < env.len(),
        free_in(env[at.0].1, at.1),
        reach(s, at.1, w),
{
    let env2 = apply_env(s, env);
    let i = choose|i: int| 0 <= i < env2.len() && (#[trigger] env2[i]).1.free_vars().contains(w);
    let scheme = env[i].1;
    assert(sealed(s, scheme));
    lemma_apply_scheme_sealed(s, scheme);
    let u = lemma_reach_from(s, scheme.body, w);
    if scheme.quantified.contains(u) {
        lemma_reach_unbound(s, u, w);
    }
    (i, u)
}

/// A variable that a substitution leads to from a free variable of an
/// environment is free in the environment under the substitution.
pub proof fn lemma_env_vars_into(
    s: Map<u32, Ty>,
    env: Seq<(Seq<char>, Scheme)>,
    i: int,
    u: u32,
    w: u32,
)
    requires
        acyclic(s),
        env_sealed(s, env),
        0 <= i < env.len(),
        free_in(env[i].1, u),
        reach(s, u, w),
    ensures
        env_vars(apply_env(s, env)).contains(w),
{
    let env2 = apply_env(s, env);
    let scheme = env[i].1;
    assert(sealed(s, scheme));
    lemma_apply_scheme_sealed(s, scheme);
    lemma_reach_into(s, scheme.body, u, w);
    assert(env2[i].1.free_vars().contains(w));
}

/// Generalising and applying a substitution can be done in either order,
/// where the substitution keeps off the generalised variables.
pub proof fn lemma_generalize_applied(
    fine: Map<u32, Ty>,
    coarse: Map<u32, Ty>,
    env: Seq<(Seq<char>, Scheme)>,
    t: Ty,
)
    requires
        acyclic(fine),
        acyclic(coarse),
        refines(fine, coarse),
        env_sealed(coarse, env),
        env_sealed(fine, env),
        keeps_off(fine, env, generalize(t, apply_env(coarse, env)).quantified),
    ensures
        apply_scheme(fine, generalize(t, apply_env(coarse, env))) == generalize(
            apply(fine, t),
            apply_env(fine, env),
        ),
        sealed(fine, generalize(t, apply_env(coarse, env))),
{
    let scheme = generalize(t, apply_env(coarse, env));
    let q = scheme.quantified;
    let made = apply(fine, t);
    let other = generalize(made, apply_env(fine, env));
    lemma_apply_scheme_sealed(fine, scheme);
    assert forall|w: u32| q.contains(w) <==> other.quantified.contains(w) by {
        if q.contains(w) {
            lemma_apply_keeps(fine, t, w);
            if env_vars(apply_env(fine, env)).contains(w) {
                let at = lemma_env_vars_from(fine, env, w);
                assert(reach(fine, at.1, w));
            }
        }
        if other.quantified.contains(w) {
            let u = lemma_reach_from(fine, t, w);
            if q.contains(u) {
                lemma_reach_unbound(fine, u, w);
            } else {
                assert(env_vars(apply_env(coarse, env)).contains(u));
                let at = lemma_env_vars_from(coarse, env, u);
                lemma_reach_on(fine, coarse, at.1, u, w);
                lemma_env_vars_into(fine, env, at.0, at.1, w);
            }
        }
    }
    assert(q =~= other.quantified);
    assert forall|u: u32, v: u32|
        #![trigger reach(fine, u, v)]
        free_in(scheme, u) && q.contains(v) implies !reach(fine, u, v) by {
        if reach(fine, u, v) {
            assert(env_vars(apply_env(coarse, env)).contains(u));
            let at = lemma_env_vars_from(coarse, env, u);
            lemma_reach_on(fine, coarse, at.1, u, v);
            assert(reach(fine, at.1, v));
        }
    }
}

/// An environment with one more frame in front, under a substitution.
pub proof fn lemma_apply_env_cons(
    s: Map<u32, Ty>,
    env: Seq<(Seq<char>, Scheme)>,
    x: Seq<char>,
    scheme: Scheme,
)
    ensures
        apply_env(s, seq![(x, scheme)] + env) == seq![(x, apply_scheme(s, scheme))] + apply_env(
            s,
            env,
        ),
{
    assert(apply_env(s, seq![(x, scheme)] + env) =~= seq![(x, apply_scheme(s, scheme))]
        + apply_env(s, env));
}

/// An environment with one more frame in front is left alone where the
/// environment and the scheme of the frame are.
pub proof fn lemma_env_sealed_cons(
    s: Map<u32, Ty>,
    env: Seq<(Seq<char>, Scheme)>,
    x: Seq<char>,
    scheme: Scheme,
)
    requires
        env_sealed(s, env),
        sealed(s, scheme),
    ensures
        env_sealed(s, seq![(x, scheme)] + env),
{
    let longer = seq![(x, scheme)] + env;
    assert forall|i: int| 0 <= i < longer.len() implies sealed(s, (#[trigger] longer[i]).1) by {
        if i > 0 {
            assert(longer[i] == env[i - 1]);
        }
    }
}

/// A scheme that an environment binds a name to is left alone where the
/// environment is.
pub proof fn lemma_find_sealed(s: Map<u32, Ty>, env: Seq<(Seq<char>, Scheme)>, x: Seq<char>)
    requires
        env_sealed(s, env),
    ensures
        find_frame(env, x) matches Some(scheme) ==> sealed(s, scheme),
    decreases env.len(),
{
    if env.len() > 0 {
        assert(sealed(s, env[0].1));
        let rest = env.drop_first();
        assert forall|i: int| 0 <= i < rest.len() implies sealed(s, (#[trigger] rest[i]).1) by {
            assert(rest[i] == env[i + 1]);
        }
        lemma_find_sealed(s, rest, x);
    }
}

/// Whether the substitution `other` keeps off the variables that inference
/// generalises on its way through the expression, and the substitutions at
/// which it generalises leave the environment alone.
pub open spec fn hygienic(
    e: Term,
    expected: Ty,
    env: Seq<(Seq<char>, Scheme)>,
    s: Map<u32, Ty>,
    last: nat,
    other: Map<u32, Ty>,
) -> bool
    decreases e,
{
    match e {
        Term::Num(_) => true,
        Term::Bool(_) => true,
        Term::Var(_) => true,
        Term::BinOp(l, op, r) => if is_comparison(op) && last >= u32::MAX {
            true
        } else {
            let start = if is_comparison(op) {
                last + 1
            } else {
                last
            };
            let operand = operand_ty(op, fresh(last));
            let left = infer(*l, operand, env, s, start);
            hygienic(*l, operand, env, s, start, other) && match left.result {
                Err(_) => true,
                Ok(s1) => hygienic(*r, operand, env, s1, left.last, other),
            }
        },
        Term::If(p, c, f) => {
            let cond = infer(*p, bool_ty(), env, s, last);
            hygienic(*p, bool_ty(), env, s, last, other) && match cond.result {
                Err(_) => true,
                Ok(s1) => {
                    let first = infer(*c, expected, env, s1, cond.last);
                    hygienic(*c, expected, env, s1, cond.last, other) && match first.result {
                        Err(_) => true,
                        Ok(s2) => hygienic(*f, expected, env, s2, first.last, other),
                    }
                },
            }
        },
        Term::Fun(x, body) => if last + 2 > u32::MAX {
            true
        } else {
            let a = fresh(last);
            let b = fresh(last + 1);
            match unified(expected, fun_ty(a, b), s) {
                Err(_) => true,
                Ok(s1) => hygienic(
                    *body,
                    b,
                    seq![(x, Scheme::mono(a))] + env,
                    s1,
                    last + 2,
                    other,
                ),
            }
        },
        Term::App(f, arg) => if last >= u32::MAX {
            true
        } else {
            let a = fresh(last);
            let fun = infer(*f, fun_ty(a, expected), env, s, last + 1);
            hygienic(*f, fun_ty(a, expected), env, s, last + 1, other) && match fun.result {
                Err(_) => true,
                Ok(s1) => hygienic(*arg, a, env, s1, fun.last, other),
            }
        },
        Term::Let(x, v, body) => if last >= u32::MAX {
            true
        } else {
            let a = fresh(last);
            let val = infer(*v, a, env, s, last + 1);
            hygienic(*v, a, env, s, last + 1, other) && match val.result {
                Err(_) => true,
                Ok(s1) => {
                    let scheme = generalize(apply(s1, a), apply_env(s1, env));
                    &&& env_sealed(s1, env)
                    &&& keeps_off(other, env, scheme.quantified)
                    &&& hygienic(*body, expected, seq![(x, scheme)] + env, s1, val.last, other)
                },
            }
        },
        Term::LetRec(x, v, body) => if last >= u32::MAX {
            true
        } else {
            let a = fresh(last);
            let val = infer(*v, a, seq![(x, Scheme::mono(a))] + env, s, last + 1);
            hygienic(*v, a, seq![(x, Scheme::mono(a))] + env, s, last + 1, other)
                && match val.result {
                Err(_) => true,
                Ok(s1) => {
                    let scheme = generalize(apply(s1, a), apply_env(s1, env));
                    &&& env_sealed(s1, env)
                    &&& keeps_off(other, env, scheme.quantified)
                    &&& hygienic(*body, expected, seq![(x, scheme)] + env, s1, val.last, other)
                },
            }
        },
    }
}

/// A scheme without quantified variables is left alone by every
/// substitution, and under a substitution it is the scheme of what the
/// substitution makes of its body.
pub proof fn lemma_mono_sealed(s: Map<u32, Ty>, a: Ty)
    ensures
        sealed(s, Scheme::mono(a)),
        apply_scheme(s, Scheme::mono(a)) == Scheme::mono(apply(s, a)),
{
    lemma_apply_scheme_sealed(s, Scheme::mono(a));
}

/// What is needed of a substitution for inference to be sound under it at
/// an expression.
pub open spec fn sound_under(
    e: Term,
    expected: Ty,
    env: Seq<(Seq<char>, Scheme)>,
    s: Map<u32, Ty>,
    last: nat,
    other: Map<u32, Ty>,
) -> bool {
    &&& acyclic(s)
    &&& acyclic(other)
    &&& infer(e, expected, env, s, last).result matches Ok(out) && refines(other, out)
    &&& env_sealed(other, env)
    &&& hygienic(e, expected, env, s, last, other)
}

/// Inference is sound under every substitution that refines what it
/// returns, leaves the quantified variables of the environment alone and
/// keeps off the variables that inference generalised.
pub proof fn lemma_sound_under(
    e: Term,
    expected: Ty,
    env: Seq<(Seq<char>, Scheme)>,
    s: Map<u32, Ty>,
    last: nat,
    other: Map<u32, Ty>,
)
    requires
        sound_under(e, expected, env, s, last, other),
    ensures
        types(apply_env(other, env), e, apply(other, expected)),
    decreases e, 1nat,
{
    let out = infer(e, expected, env, s, last).result->Ok_0;
    lemma_apply_constant(other);
    match e {
        Term::Num(_) => {
            lemma_unified_sound(expected, int_ty(), s);
            assert(apply(other, apply(out, expected)) == apply(other, expected));
            assert(apply(other, apply(out, int_ty())) == apply(other, int_ty()));
        },
        Term::Bool(_) => {
            lemma_unified_sound(expected, bool_ty(), s);
            assert(apply(other, apply(out, expected)) == apply(other, expected));
            assert(apply(other, apply(out, bool_ty())) == apply(other, bool_ty()));
        },
        Term::Var(x) => {
            let scheme = find_frame(env, x)->Some_0;
            let inst = instantiate(scheme, last);
            lemma_unified_sound(expected, inst, s);
            assert(apply(other, apply(out, expected)) == apply(other, expected));
            assert(apply(other, apply(out, inst)) == apply(other, inst));
            lemma_find_applied(other, env, x);
            lemma_find_sealed(other, env, x);
            lemma_instance_sound(other, scheme, last);
        },
        Term::BinOp(_, _, _) => {
            lemma_binop_sound_under(e, expected, env, s, last, other);
        },
        Term::If(_, _, _) => {
            lemma_if_sound_under(e, expected, env, s, last, other);
        },
        Term::Fun(_, _) => {
            lemma_fun_sound_under(e, expected, env, s, last, other);
        },
        Term::App(_, _) => {
            lemma_app_sound_under(e, expected, env, s, last, other);
        },
        Term::Let(_, _, _) => {
            lemma_let_sound_under(e, expected, env, s, last, other);
        },
        Term::LetRec(_, _, _) => {
            lemma_letrec_sound_under(e, expected, env, s, last, other);
        },
    }
}

/// `lemma_sound_under` at a binary operator.
pub proof fn lemma_binop_sound_under(
    e: Term,
    expected: Ty,
    env: Seq<(Seq<char>, Scheme)>,
    s: Map<u32, Ty>,
    last: nat,
    other: Map<u32, Ty>,
)
    requires
        e is BinOp,
        sound_under(e, expected, env, s, last, other),
    ensures
        types(apply_env(other, env), e, apply(other, expected)),
    decreases e, 0nat,
{
    let l = *e->BinOp_0;
    let op = e->BinOp_1;
    let r = *e->BinOp_2;
    let out = infer(e, expected, env, s, last).result->Ok_0;
    let start = if is_comparison(op) {
        last + 1
    } else {
        last
    };
    let operand = operand_ty(op, fresh(last));
    let left = infer(l, operand, env, s, start);
    let s1 = left.result->Ok_0;
    lemma_infer_refines(l, operand, env, s, start);
    let right = infer(r, operand, env, s1, left.last);
    let s2 = right.result->Ok_0;
    lemma_infer_refines(r, operand, env, s1, left.last);
    lemma_unified_sound(expected, result_ty(op), s2);
    lemma_refines_trans(other, out, s2);
    lemma_refines_trans(other, s2, s1);
    lemma_sound_under(l, operand, env, s, start, other);
    lemma_sound_under(r, operand, env, s1, left.last, other);
    lemma_apply_constant(other);
    let a = apply(other, operand);
    assert(operand_ty(op, a) == a);
    assert(types(apply_env(other, env), l, operand_ty(op, a)) && types(
        apply_env(other, env),
        r,
        operand_ty(op, a),
    ));
    assert(apply(other, apply(out, expected)) == apply(other, expected));
    assert(apply(other, apply(out, result_ty(op))) == apply(other, result_ty(op)));
}

/// `lemma_sound_under` at a conditional.
pub proof fn lemma_if_sound_under(
    e: Term,
    expected: Ty,
    env: Seq<(Seq<char>, Scheme)>,
    s: Map<u32, Ty>,
    last: nat,
    other: Map<u32, Ty>,
)
    requires
        e is If,
        sound_under(e, expected, env, s, last, other),
    ensures
        types(apply_env(other, env), e, apply(other, expected)),
    decreases e, 0nat,
{
    let p = *e->If_0;
    let c = *e->If_1;
    let f = *e->If_2;
    let out = infer(e, expected, env, s, last).result->Ok_0;
    let cond = infer(p, bool_ty(), env, s, last);
    let s1 = cond.result->Ok_0;
    lemma_infer_refines(p, bool_ty(), env, s, last);
    let first = infer(c, expected, env, s1, cond.last);
    let s2 = first.result->Ok_0;
    lemma_infer_refines(c, expected, env, s1, cond.last);
    lemma_infer_refines(f, expected, env, s2, first.last);
    lemma_refines_trans(other, out, s2);
    lemma_refines_trans(other, s2, s1);
    lemma_sound_under(p, bool_ty(), env, s, last, other);
    lemma_sound_under(c, expected, env, s1, cond.last, other);
    lemma_sound_under(f, expected, env, s2, first.last, other);
    lemma_apply_constant(other);
}

/// `lemma_sound_under` at a function.
pub proof fn lemma_fun_sound_under(
    e: Term,
    expected: Ty,
    env: Seq<(Seq<char>, Scheme)>,
    s: Map<u32, Ty>,
    last: nat,
    other: Map<u32, Ty>,
)
    requires
        e is Fun,
        sound_under(e, expected, env, s, last, other),
    ensures
        types(apply_env(other, env), e, apply(other, expected)),
    decreases e, 0nat,
{
    let x = e->Fun_0;
    let body = *e->Fun_1;
    let out = infer(e, expected, env, s, last).result->Ok_0;
    let a = fresh(last);
    let b = fresh(last + 1);
    let s1 = unified(expected, fun_ty(a, b), s)->Ok_0;
    lemma_unified_sound(expected, fun_ty(a, b), s);
    let env1 = seq![(x, Scheme::mono(a))] + env;
    lemma_infer_refines(body, b, env1, s1, last + 2);
    lemma_refines_trans(other, out, s1);
    lemma_mono_sealed(other, a);
    lemma_env_sealed_cons(other, env, x, Scheme::mono(a));
    lemma_apply_env_cons(other, env, x, Scheme::mono(a));
    lemma_sound_under(body, b, env1, s1, last + 2, other);
    lemma_apply_fun(other, a, b);
    assert(apply(other, apply(s1, expected)) == apply(other, expected));
    assert(apply(other, apply(s1, fun_ty(a, b))) == apply(other, fun_ty(a, b)));
}

/// `lemma_sound_under` at an application.
pub proof fn lemma_app_sound_under(
    e: Term,
    expected: Ty,
    env: Seq<(Seq<char>, Scheme)>,
    s: Map<u32, Ty>,
    last: nat,
    other: Map<u32, Ty>,
)
    requires
        e is App,
        sound_under(e, expected, env, s, last, other),
    ensures
        types(apply_env(other, env), e, apply(other, expected)),
    decreases e, 0nat,
{
    let f = *e->App_0;
    let arg = *e->App_1;
    let out = infer(e, expected, env, s, last).result->Ok_0;
    let a = fresh(last);
    let fun = infer(f, fun_ty(a, expected), env, s, last + 1);
    let s1 = fun.result->Ok_0;
    lemma_infer_refines(f, fun_ty(a, expected), env, s, last + 1);
    lemma_infer_refines(arg, a, env, s1, fun.last);
    lemma_refines_trans(other, out, s1);
    lemma_sound_under(f, fun_ty(a, expected), env, s, last + 1, other);
    lemma_sound_under(arg, a, env, s1, fun.last, other);
    lemma_apply_fun(other, a, expected);
    let b = apply(other, a);
    assert(types(apply_env(other, env), f, fun_ty(b, apply(other, expected))) && types(
        apply_env(other, env),
        arg,
        b,
    ));
}

/// `lemma_sound_under` at a `let`.
pub proof fn lemma_let_sound_under(
    e: Term,
    expected: Ty,
    env: Seq<(Seq<char>, Scheme)>,
    s: Map<u32, Ty>,
    last: nat,
    other: Map<u32, Ty>,
)
    requires
        e is Let,
        sound_under(e, expected, env, s, last, other),
    ensures
        types(apply_env(other, env), e, apply(other, expected)),
    decreases e, 0nat,
{
    let x = e->Let_0;
    let v = *e->Let_1;
    let body = *e->Let_2;
    let out = infer(e, expected, env, s, last).result->Ok_0;
    let a = fresh(last);
    let val = infer(v, a, env, s, last + 1);
    let s1 = val.result->Ok_0;
    lemma_infer_refines(v, a, env, s, last + 1);
    let scheme = generalize(apply(s1, a), apply_env(s1, env));
    let env1 = seq![(x, scheme)] + env;
    lemma_infer_refines(body, expected, env1, s1, val.last);
    lemma_refines_trans(other, out, s1);
    lemma_generalize_applied(other, s1, env, apply(s1, a));
    lemma_env_sealed_cons(other, env, x, scheme);
    lemma_apply_env_cons(other, env, x, scheme);
    lemma_sound_under(v, a, env, s, last + 1, other);
    lemma_sound_under(body, expected, env1, s1, val.last, other);
    let made = apply(other, a);
    assert(apply(other, apply(s1, a)) == made);
    let env2 = apply_env(other, env);
    assert(types(env2, v, made) && types(seq![(x, generalize(made, env2))] + env2, body, apply(
        other,
        expected,
    )));
}

/// `lemma_sound_under` at a `letrec`.
pub proof fn lemma_letrec_sound_under(
    e: Term,
    expected: Ty,
    env: Seq<(Seq<char>, Scheme)>,
    s: Map<u32, Ty>,
    last: nat,
    other: Map<u32, Ty>,
)
    requires
        e is LetRec,
        sound_under(e, expected, env, s, last, other),
    ensures
        types(apply_env(other, env), e, apply(other, expected)),
    decreases e, 0nat,
{
    let x = e->LetRec_0;
    let v = *e->LetRec_1;
    let body = *e->LetRec_2;
    let out = infer(e, expected, env, s, last).result->Ok_0;
    let a = fresh(last);
    let env0 = seq![(x, Scheme::mono(a))] + env;
    let val = infer(v, a, env0, s, last + 1);
    let s1 = val.result->Ok_0;
    lemma_infer_refines(v, a, env0, s, last + 1);
    let scheme = generalize(apply(s1, a), apply_env(s1, env));
    let env1 = seq![(x, scheme)] + env;
    lemma_infer_refines(body, expected, env1, s1, val.last);
    lemma_refines_trans(other, out, s1);
    lemma_generalize_applied(other, s1, env, apply(s1, a));
    lemma_env_sealed_cons(other, env, x, scheme);
    lemma_apply_env_cons(other, env, x, scheme);
    lemma_mono_sealed(other, a);
    lemma_env_sealed_cons(other, env, x, Scheme::mono(a));
    lemma_apply_env_cons(other, env, x, Scheme::mono(a));
    lemma_sound_under(v, a, env0, s, last + 1, other);
    lemma_sound_under(body, expected, env1, s1, val.last, other);
    let made = apply(other, a);
    assert(apply(other, apply(s1, a)) == made);
    let env2 = apply_env(other, env);
    assert(types(seq![(x, Scheme::mono(made))] + env2, v, made) && types(
        seq![(x, generalize(made, env2))] + env2,
        body,
        apply(other, expected),
    ));
}

} // verus!

//! Inference finds a most general type: for expressions without `let`, in
//! environments without quantified variables, it succeeds wherever the
//! typing rules give the expression a type, and every such type is an
//! instance of the type it returns.

use crate::ast::{Term, Ty};
use crate::laws::{
    closed, env_below, lemma_closed_env, lemma_closed_self_contained, lemma_principal_sound,
};
use crate::rules::{
    lemma_apply_constant, lemma_apply_env_frame, lemma_apply_env_mono, lemma_apply_env_refined,
    lemma_find_applied, lemma_find_mono, lemma_mono_instance, lemma_mono_instantiate,
    lemma_types_stable, let_free, monomorphic, types,
};
use crate::scope::{
    env_mentions, lemma_apply_scope, lemma_find_scope, lemma_frame_scope, lemma_infer_scope,
    lemma_insert_scope, lemma_unified_scope, mentions,
};
use crate::substitution::{
    acyclic, apply, clean, height, height_all, lemma_apply_clean, lemma_apply_empty,
    lemma_apply_fixed, lemma_apply_fun, lemma_apply_idempotent, lemma_apply_insert, lemma_apply_var,
    lemma_clean_fun, lemma_refines_self, lemma_replace_absent, ranked, refines,
};
use crate::typing::{
    apply_env, apply_scheme, bool_ty, find_frame, fresh, fun_ty, infer, int_ty, is_comparison,
    lemma_infer_refines, lemma_unified_sound, operand_ty, principal, result_ty, Scheme, unified,
};
use crate::unification::lemma_unify_most_general;
use vstd::prelude::*;

verus! {

/// Whether every variable of the type is numbered `n` at most.
pub open spec fn below(t: Ty, n: nat) -> bool {
    forall|v: u32| #[trigger] t.occurs(v) ==> v <= n
}

/// Whether every variable that the substitution mentions is numbered `n`
/// at most.
pub open spec fn sub_below(s: Map<u32, Ty>, n: nat) -> bool {
    forall|v: u32| #[trigger] mentions(s, v) ==> v <= n
}

/// Whether two substitutions make the same of every type whose variables
/// are numbered `n` at most.
pub open spec fn agree(a: Map<u32, Ty>, b: Map<u32, Ty>, n: nat) -> bool {
    forall|t: Ty| below(t, n) ==> #[trigger] apply(a, t) == apply(b, t)
}

/// The substitution that binds every variable numbered above `n` to `int`.
pub open spec fn grounding(n: nat) -> Map<u32, Ty> {
    Map::new(|v: u32| v > n, |v: u32| int_ty())
}

/// What a substitution makes of a type, once the variables numbered above
/// `n` are replaced by `int`.
pub open spec fn settled(s: Map<u32, Ty>, n: nat, t: Ty) -> Ty {
    apply(s, apply(grounding(n), t))
}

/// The grounding substitution is acyclic, leaves the types below its
/// number alone, and makes every type one of them.
pub proof fn lemma_grounding(n: nat, t: Ty)
    ensures
        acyclic(grounding(n)),
        below(t, n) ==> apply(grounding(n), t) == t,
        below(apply(grounding(n), t), n),
{
    let g = grounding(n);
    let zero = |v: u32| 0nat;
    assert forall|v: u32| #[trigger] g.contains_key(v) implies height(zero, g[v]) <= zero(v) by {
        assert(g[v] == int_ty());
        assert(height(zero, int_ty()) == height_all(zero, Seq::<Ty>::empty()));
        assert(height_all(zero, Seq::<Ty>::empty()) == 0);
    }
    assert(ranked(g, zero));
    lemma_apply_clean(g, t);
    if below(t, n) {
        assert forall|v: u32| #[trigger] t.occurs(v) implies !g.contains_key(v) by {}
        lemma_apply_fixed(g, t);
    }
    assert forall|v: u32| #[trigger] apply(g, t).occurs(v) implies v <= n by {
        assert(!g.contains_key(v));
    }
}

/// What a substitution below a number makes of a type below the number is
/// below the number.
pub proof fn lemma_apply_below(s: Map<u32, Ty>, t: Ty, n: nat)
    requires
        acyclic(s),
        sub_below(s, n),
        below(t, n),
    ensures
        below(apply(s, t), n),
{
    assert forall|v: u32| #[trigger] apply(s, t).occurs(v) implies v <= n by {
        lemma_apply_scope(s, t, v);
        if !t.occurs(v) {
            assert(mentions(s, v));
        }
    }
}

/// An environment without quantified variables below a number, under a
/// substitution below the number, is below the number, and the grounding
/// substitution leaves it alone.
pub proof fn lemma_env_below(s: Map<u32, Ty>, env: Seq<(Seq<char>, Scheme)>, n: nat)
    requires
        acyclic(s),
        sub_below(s, n),
        monomorphic(env),
        env_below(env, n),
    ensures
        monomorphic(apply_env(s, env)),
        env_below(apply_env(s, env), n),
        apply_env(grounding(n), apply_env(s, env)) == apply_env(s, env),
        apply_env(s, apply_env(s, env)) == apply_env(s, env),
{
    let env2 = apply_env(s, env);
    lemma_apply_env_mono(s, env);
    assert forall|i: int| 0 <= i < env.len() implies below(#[trigger] env2[i].1.body, n) by {
        let body = env[i].1.body;
        assert forall|v: u32| #[trigger] body.occurs(v) implies v <= n by {
            assert(env[i].1.body.occurs(v));
            assert(env_mentions(env, v));
        }
        lemma_apply_below(s, body, n);
    }
    assert forall|v: u32| env_mentions(env2, v) implies v <= n by {
        let i = choose|i: int|
            0 <= i < env2.len() && ((#[trigger] env2[i]).1.body.occurs(v)
                || env2[i].1.quantified.contains(v));
        assert(below(env2[i].1.body, n));
    }
    lemma_apply_env_mono(grounding(n), env2);
    assert forall|i: int| 0 <= i < env2.len() implies apply_env(grounding(n), env2)[i]
        == env2[i] by {
        assert(below(env2[i].1.body, n));
        lemma_grounding(n, env2[i].1.body);
    }
    assert(apply_env(grounding(n), env2) =~= env2);
    lemma_refines_self(s);
    lemma_apply_env_refined(s, s, env);
}

/// Binding a variable numbered above `n` to a type below `n` changes
/// nothing for the types below `n`.
pub proof fn lemma_extend(s: Map<u32, Ty>, v: u32, b: Ty, n: nat)
    requires
        acyclic(s),
        sub_below(s, n),
        v > n,
        below(b, n),
        clean(s, b),
    ensures
        acyclic(s.insert(v, b)),
        sub_below(s.insert(v, b), v as nat),
        agree(s.insert(v, b), s, n),
        apply(s.insert(v, b), Ty::Var(v)) == b,
        forall|coarse: Map<u32, Ty>| refines(s, coarse) ==> refines(s.insert(v, b), coarse),
{
    let s2 = s.insert(v, b);
    assert(!s.contains_key(v)) by {
        if s.contains_key(v) {
            assert(mentions(s, v));
        }
    }
    assert(!b.occurs(v));
    lemma_apply_insert(s, v, b, Ty::Var(v));
    lemma_apply_var(s, v);
    assert forall|u: u32| #[trigger] mentions(s2, u) implies u <= v by {
        lemma_insert_scope(s, v, b, u);
        if mentions(s, u) {
        } else if b.occurs(u) {
        }
    }
    assert forall|t: Ty| below(t, n) implies #[trigger] apply(s2, t) == apply(s, t) by {
        lemma_apply_insert(s, v, b, t);
        lemma_apply_below(s, t, n);
        assert(!apply(s, t).occurs(v));
        lemma_replace_absent(v, b, apply(s, t));
    }
    assert forall|coarse: Map<u32, Ty>| refines(s, coarse) implies refines(s2, coarse) by {
        assert forall|t: Ty| apply(s2, #[trigger] apply(coarse, t)) == apply(s2, t) by {
            lemma_apply_insert(s, v, b, apply(coarse, t));
            lemma_apply_insert(s, v, b, t);
        }
    }
}

/// A typing under a substitution holds for the settled type too, which is
/// below the number of the substitution and holds none of its bound
/// variables.
pub proof fn lemma_settle(
    s: Map<u32, Ty>,
    env: Seq<(Seq<char>, Scheme)>,
    e: Term,
    t: Ty,
    n: nat,
)
    requires
        acyclic(s),
        sub_below(s, n),
        monomorphic(env),
        env_below(env, n),
        let_free(e),
        types(apply_env(s, env), e, t),
    ensures
        types(apply_env(s, env), e, settled(s, n, t)),
        below(settled(s, n, t), n),
        clean(s, settled(s, n, t)),
{
    let g = grounding(n);
    let env2 = apply_env(s, env);
    lemma_env_below(s, env, n);
    lemma_grounding(n, t);
    lemma_types_stable(env2, e, t, g);
    lemma_types_stable(env2, e, apply(g, t), s);
    lemma_apply_below(s, apply(g, t), n);
    lemma_apply_clean(s, apply(g, t));
}

/// Settling leaves a type alone that was made by the substitution from a
/// type below its number.
pub proof fn lemma_settled_same(s: Map<u32, Ty>, n: nat, t: Ty)
    requires
        acyclic(s),
        sub_below(s, n),
        below(t, n),
    ensures
        settled(s, n, apply(s, t)) == apply(s, t),
{
    lemma_apply_below(s, t, n);
    lemma_grounding(n, apply(s, t));
    lemma_apply_idempotent(s, t);
}

/// The number of type variables that inference takes for an expression
/// without `let` in an environment without quantified variables.
pub open spec fn demand(e: Term) -> nat
    decreases e,
{
    match e {
        Term::BinOp(l, op, r) => (if is_comparison(op) {
            1nat
        } else {
            0nat
        }) + demand(*l) + demand(*r),
        Term::If(p, c, f) => demand(*p) + demand(*c) + demand(*f),
        Term::Fun(_, body) => 2 + demand(*body),
        Term::App(f, arg) => 1 + demand(*f) + demand(*arg),
        _ => 0,
    }
}

/// Two substitutions that agree below a number make the same of a type
/// below the number.
pub proof fn lemma_agree_apply(a: Map<u32, Ty>, b: Map<u32, Ty>, n: nat, t: Ty)
    requires
        agree(a, b, n),
        below(t, n),
    ensures
        apply(a, t) == apply(b, t),
{
}

/// Two substitutions that agree below a number make the same of an
/// environment below the number.
pub proof fn lemma_agree_env(
    a: Map<u32, Ty>,
    b: Map<u32, Ty>,
    n: nat,
    env: Seq<(Seq<char>, Scheme)>,
)
    requires
        agree(a, b, n),
        monomorphic(env),
        env_below(env, n),
    ensures
        apply_env(a, env) == apply_env(b, env),
{
    lemma_apply_env_mono(a, env);
    lemma_apply_env_mono(b, env);
    assert forall|i: int| 0 <= i < env.len() implies apply_env(a, env)[i] == apply_env(
        b,
        env,
    )[i] by {
        let body = env[i].1.body;
        assert forall|v: u32| #[trigger] body.occurs(v) implies v <= n by {
            assert(env[i].1.body.occurs(v));
            assert(env_mentions(env, v));
        }
        lemma_agree_apply(a, b, n, body);
    }
    assert(apply_env(a, env) =~= apply_env(b, env));
}

/// Agreement below a number is agreement below every smaller number, and
/// goes from one substitution to the next.
pub proof fn lemma_agree_chain(
    a: Map<u32, Ty>,
    b: Map<u32, Ty>,
    c: Map<u32, Ty>,
    n: nat,
    m: nat,
)
    requires
        agree(a, b, m),
        agree(b, c, n),
        n <= m,
    ensures
        agree(a, c, n),
{
    assert forall|t: Ty| below(t, n) implies #[trigger] apply(a, t) == apply(c, t) by {
        assert forall|v: u32| #[trigger] t.occurs(v) implies v <= m by {}
        lemma_agree_apply(a, b, m, t);
        lemma_agree_apply(b, c, n, t);
    }
}

/// A substitution agrees with itself.
pub proof fn lemma_agree_self(a: Map<u32, Ty>, n: nat)
    ensures
        agree(a, a, n),
{
}

/// What is below a number is below every larger number.
pub proof fn lemma_below_more(
    s: Map<u32, Ty>,
    env: Seq<(Seq<char>, Scheme)>,
    t: Ty,
    n: nat,
    m: nat,
)
    requires
        n <= m,
    ensures
        sub_below(s, n) ==> sub_below(s, m),
        env_below(env, n) ==> env_below(env, m),
        below(t, n) ==> below(t, m),
{
    if sub_below(s, n) {
        assert forall|v: u32| #[trigger] mentions(s, v) implies v <= m by {}
    }
    if env_below(env, n) {
        assert forall|v: u32| env_mentions(env, v) implies v <= m by {}
    }
    if below(t, n) {
        assert forall|v: u32| #[trigger] t.occurs(v) implies v <= m by {}
    }
}

/// A function type is below a number when both its sides are; the types
/// `int` and `bool` are below every number.
pub proof fn lemma_below_parts(a: Ty, b: Ty, n: nat)
    ensures
        below(fun_ty(a, b), n) <==> below(a, n) && below(b, n),
        below(int_ty(), n),
        below(bool_ty(), n),
{
    let t = fun_ty(a, b);
    if below(t, n) {
        assert forall|v: u32| #[trigger] a.occurs(v) implies v <= n by {
            assert(t.occurs(v));
        }
        assert forall|v: u32| #[trigger] b.occurs(v) implies v <= n by {
            assert(t.occurs(v));
        }
    }
    if below(a, n) && below(b, n) {
        assert forall|v: u32| #[trigger] t.occurs(v) implies v <= n by {
            assert(a.occurs(v) || b.occurs(v));
        }
    }
}

/// The next variable is below its own number.
pub proof fn lemma_below_fresh(n: nat)
    requires
        n < u32::MAX,
    ensures
        fresh(n) == Ty::Var((n + 1) as u32),
        below(fresh(n), n + 1),
{
}

/// The substitution that inference returns is below the number of the
/// last variable that it took, if what it was given is.
pub proof fn lemma_infer_below(
    e: Term,
    expected: Ty,
    env: Seq<(Seq<char>, Scheme)>,
    s: Map<u32, Ty>,
    last: nat,
)
    requires
        acyclic(s),
        sub_below(s, last),
        env_below(env, last),
        below(expected, last),
        infer(e, expected, env, s, last).result is Ok,
    ensures
        sub_below(
            infer(e, expected, env, s, last).result->Ok_0,
            infer(e, expected, env, s, last).last,
        ),
{
    let run = infer(e, expected, env, s, last);
    lemma_infer_refines(e, expected, env, s, last);
    assert forall|v: u32| #[trigger] mentions(run.result->Ok_0, v) implies v <= run.last by {
        lemma_infer_scope(e, expected, env, s, last, v);
        if mentions(s, v) {
        } else if expected.occurs(v) {
        } else if env_mentions(env, v) {
        }
    }
}

/// Where a substitution that refines `s` makes two types equal, the
/// unifier succeeds from `s`, and the substitution refines what the unifier
/// returns.
pub proof fn lemma_unified_complete(t: Ty, u: Ty, s: Map<u32, Ty>, other: Map<u32, Ty>, n: nat)
    requires
        acyclic(s),
        acyclic(other),
        refines(other, s),
        apply(other, t) == apply(other, u),
        sub_below(s, n),
        below(t, n),
        below(u, n),
    ensures
        unified(t, u, s) is Ok,
        acyclic(unified(t, u, s)->Ok_0),
        refines(other, unified(t, u, s)->Ok_0),
        sub_below(unified(t, u, s)->Ok_0, n),
{
    lemma_unify_most_general(t, u, s, other);
    lemma_unified_sound(t, u, s);
    assert forall|v: u32| #[trigger] mentions(unified(t, u, s)->Ok_0, v) implies v <= n by {
        lemma_unified_scope(t, u, s, v);
        if mentions(s, v) {
        } else if t.occurs(v) {
        }
    }
}

/// What inference needs to succeed at an expression: a substitution
/// `other` that refines `s`, under which the expression has the expected
/// type by the typing rules; no variable numbered above `last` anywhere;
/// and variables enough.
pub open spec fn typable_at(
    e: Term,
    expected: Ty,
    env: Seq<(Seq<char>, Scheme)>,
    s: Map<u32, Ty>,
    last: nat,
    other: Map<u32, Ty>,
) -> bool {
    &&& acyclic(s)
    &&& acyclic(other)
    &&& refines(other, s)
    &&& monomorphic(env)
    &&& let_free(e)
    &&& sub_below(s, last)
    &&& sub_below(other, last)
    &&& env_below(env, last)
    &&& below(expected, last)
    &&& last + demand(e) <= u32::MAX
    &&& types(apply_env(other, env), e, apply(other, expected))
}

/// What inference gives at an expression where it can succeed: a
/// substitution that `found` refines, where `found` agrees with `other` on
/// the variables that were there before.
pub open spec fn complete_at(
    e: Term,
    expected: Ty,
    env: Seq<(Seq<char>, Scheme)>,
    s: Map<u32, Ty>,
    last: nat,
    other: Map<u32, Ty>,
    found: Map<u32, Ty>,
) -> bool {
    let run = infer(e, expected, env, s, last);
    &&& run.result is Ok
    &&& run.last == last + demand(e)
    &&& acyclic(run.result->Ok_0)
    &&& sub_below(run.result->Ok_0, run.last)
    &&& acyclic(found)
    &&& refines(found, run.result->Ok_0)
    &&& sub_below(found, run.last)
    &&& agree(found, other, last)
}

/// Inference is complete for expressions without `let` in environments
/// without quantified variables: where some substitution that refines the
/// given one makes the expression have the expected type, inference
/// succeeds, and that substitution, with types put in for the variables
/// that inference took, refines what inference returns.
pub proof fn lemma_infer_complete(
    e: Term,
    expected: Ty,
    env: Seq<(Seq<char>, Scheme)>,
    s: Map<u32, Ty>,
    last: nat,
    other: Map<u32, Ty>,
) -> (found: Map<u32, Ty>)
    requires
        typable_at(e, expected, env, s, last, other),
    ensures
        complete_at(e, expected, env, s, last, other, found),
    decreases e, 1nat,
{
    lemma_apply_constant(other);
    lemma_below_parts(expected, expected, last);
    lemma_agree_self(other, last);
    match e {
        Term::Num(_) => {
            lemma_unified_complete(expected, int_ty(), s, other, last);
            other
        },
        Term::Bool(_) => {
            lemma_unified_complete(expected, bool_ty(), s, other, last);
            other
        },
        Term::Var(x) => {
            lemma_var_complete(x, expected, env, s, last, other);
            other
        },
        Term::BinOp(_, _, _) => lemma_binop_complete(e, expected, env, s, last, other),
        Term::If(_, _, _) => lemma_if_complete(e, expected, env, s, last, other),
        Term::Fun(_, _) => lemma_fun_complete(e, expected, env, s, last, other),
        Term::App(_, _) => lemma_app_complete(e, expected, env, s, last, other),
        Term::Let(_, _, _) => other,
        Term::LetRec(_, _, _) => other,
    }
}

/// Inference is complete at a variable.
pub proof fn lemma_var_complete(
    x: Seq<char>,
    expected: Ty,
    env: Seq<(Seq<char>, Scheme)>,
    s: Map<u32, Ty>,
    last: nat,
    other: Map<u32, Ty>,
)
    requires
        typable_at(Term::Var(x), expected, env, s, last, other),
    ensures
        complete_at(Term::Var(x), expected, env, s, last, other, other),
{
    lemma_find_applied(other, env, x);
    lemma_find_mono(env, x);
    let scheme = find_frame(env, x)->Some_0;
    assert(other.remove_keys(Set::<u32>::empty()) =~= other);
    lemma_mono_instance(apply_scheme(other, scheme), apply(other, expected));
    lemma_mono_instantiate(scheme, last);
    assert forall|v: u32| #[trigger] scheme.body.occurs(v) implies v <= last by {
        lemma_find_scope(env, x, v);
    }
    lemma_unified_complete(expected, scheme.body, s, other, last);
    lemma_agree_self(other, last);
}

/// Inference is complete at an application, if it is at the function and
/// at the argument.
pub proof fn lemma_app_complete(
    e: Term,
    expected: Ty,
    env: Seq<(Seq<char>, Scheme)>,
    s: Map<u32, Ty>,
    last: nat,
    other: Map<u32, Ty>,
) -> (found: Map<u32, Ty>)
    requires
        e is App,
        typable_at(e, expected, env, s, last, other),
    ensures
        complete_at(e, expected, env, s, last, other, found),
    decreases e, 0nat,
{
    let f = *e->App_0;
    let arg = *e->App_1;
    let env2 = apply_env(other, env);
    let goal = apply(other, expected);
    let w = choose|a: Ty| types(env2, f, #[trigger] fun_ty(a, goal)) && types(env2, arg, a);
    let a = settled(other, last, w);
    lemma_settle(other, env, arg, w, last);
    lemma_settle(other, env, f, fun_ty(w, goal), last);
    lemma_settled_same(other, last, expected);
    lemma_grounding(last, w);
    lemma_apply_fun(grounding(last), w, goal);
    lemma_apply_fun(other, apply(grounding(last), w), apply(grounding(last), goal));
    assert(settled(other, last, fun_ty(w, goal)) == fun_ty(a, goal));
    let v = (last + 1) as u32;
    let var = fresh(last);
    lemma_below_fresh(last);
    let other1 = other.insert(v, a);
    lemma_extend(other, v, a, last);
    lemma_below_more(s, env, expected, last, last + 1);
    lemma_below_parts(var, expected, last + 1);
    lemma_agree_env(other1, other, last, env);
    lemma_agree_apply(other1, other, last, expected);
    lemma_apply_fun(other1, var, expected);
    let other2 = lemma_infer_complete(f, fun_ty(var, expected), env, s, last + 1, other1);
    let run1 = infer(f, fun_ty(var, expected), env, s, last + 1);
    let s1 = run1.result->Ok_0;
    lemma_below_more(other, env, var, last + 1, run1.last);
    lemma_below_more(other, env, expected, last, last + 1);
    lemma_agree_chain(other2, other1, other, last, last + 1);
    lemma_agree_env(other2, other, last, env);
    lemma_agree_apply(other2, other1, last + 1, var);
    let other3 = lemma_infer_complete(arg, var, env, s1, run1.last, other2);
    lemma_agree_chain(other3, other2, other, last, run1.last);
    other3
}

/// Inference is complete at a function, if it is at its body.
pub proof fn lemma_fun_complete(
    e: Term,
    expected: Ty,
    env: Seq<(Seq<char>, Scheme)>,
    s: Map<u32, Ty>,
    last: nat,
    other: Map<u32, Ty>,
) -> (found: Map<u32, Ty>)
    requires
        e is Fun,
        typable_at(e, expected, env, s, last, other),
    ensures
        complete_at(e, expected, env, s, last, other, found),
    decreases e, 0nat,
{
    let x = e->Fun_0;
    let body = *e->Fun_1;
    let env2 = apply_env(other, env);
    let goal = apply(other, expected);
    let a = *goal->Fun_0;
    let r = *goal->Fun_1;
    assert(goal == fun_ty(a, r));
    lemma_apply_below(other, expected, last);
    lemma_below_parts(a, r, last);
    lemma_apply_clean(other, expected);
    lemma_clean_fun(other, a, r);
    let v1 = (last + 1) as u32;
    let v2 = (last + 2) as u32;
    let var1 = fresh(last);
    let var2 = fresh(last + 1);
    lemma_below_fresh(last);
    lemma_below_fresh(last + 1);
    let other1 = other.insert(v1, a);
    lemma_extend(other, v1, a, last);
    lemma_below_more(other1, env, r, last, last + 1);
    assert forall|u: u32| #[trigger] r.occurs(u) implies !other1.contains_key(u) by {
        assert(!other.contains_key(u));
    }
    let other2 = other1.insert(v2, r);
    lemma_extend(other1, v2, r, last + 1);
    lemma_agree_chain(other2, other1, other, last, last + 1);
    lemma_agree_apply(other2, other, last, expected);
    lemma_below_more(other, env, var1, last + 1, last + 2);
    lemma_agree_apply(other2, other1, last + 1, var1);
    lemma_apply_fun(other2, var1, var2);
    lemma_below_more(s, env, expected, last, last + 2);
    lemma_below_parts(var1, var2, last + 2);
    lemma_unified_complete(expected, fun_ty(var1, var2), s, other2, last + 2);
    let s1 = unified(expected, fun_ty(var1, var2), s)->Ok_0;
    let env1 = seq![(x, Scheme::mono(var1))] + env;
    lemma_apply_env_frame(other2, env, x, var1);
    lemma_agree_env(other2, other, last, env);
    assert forall|u: u32| env_mentions(env1, u) implies u <= last + 2 by {
        lemma_frame_scope(env, x, var1, u);
        if env_mentions(env, u) {
        }
    }
    let other3 = lemma_infer_complete(body, var2, env1, s1, last + 2, other2);
    lemma_agree_chain(other3, other2, other, last, last + 2);
    other3
}

/// Inference is complete at a conditional, if it is at its three parts.
pub proof fn lemma_if_complete(
    e: Term,
    expected: Ty,
    env: Seq<(Seq<char>, Scheme)>,
    s: Map<u32, Ty>,
    last: nat,
    other: Map<u32, Ty>,
) -> (found: Map<u32, Ty>)
    requires
        e is If,
        typable_at(e, expected, env, s, last, other),
    ensures
        complete_at(e, expected, env, s, last, other, found),
    decreases e, 0nat,
{
    let p = *e->If_0;
    let c = *e->If_1;
    let f = *e->If_2;
    lemma_apply_constant(other);
    lemma_below_parts(expected, expected, last);
    let other1 = lemma_infer_complete(p, bool_ty(), env, s, last, other);
    let run1 = infer(p, bool_ty(), env, s, last);
    let s1 = run1.result->Ok_0;
    lemma_below_more(s, env, expected, last, run1.last);
    lemma_agree_env(other1, other, last, env);
    lemma_agree_apply(other1, other, last, expected);
    let other2 = lemma_infer_complete(c, expected, env, s1, run1.last, other1);
    let run2 = infer(c, expected, env, s1, run1.last);
    let s2 = run2.result->Ok_0;
    lemma_agree_chain(other2, other1, other, last, run1.last);
    lemma_below_more(s, env, expected, last, run2.last);
    lemma_agree_env(other2, other, last, env);
    lemma_agree_apply(other2, other, last, expected);
    let other3 = lemma_infer_complete(f, expected, env, s2, run2.last, other2);
    lemma_agree_chain(other3, other2, other, last, run2.last);
    other3
}

/// Inference is complete at a binary operator, if it is at its operands.
pub proof fn lemma_binop_complete(
    e: Term,
    expected: Ty,
    env: Seq<(Seq<char>, Scheme)>,
    s: Map<u32, Ty>,
    last: nat,
    other: Map<u32, Ty>,
) -> (found: Map<u32, Ty>)
    requires
        e is BinOp,
        typable_at(e, expected, env, s, last, other),
    ensures
        complete_at(e, expected, env, s, last, other, found),
    decreases e, 0nat,
{
    let l = *e->BinOp_0;
    let op = e->BinOp_1;
    let r = *e->BinOp_2;
    let env2 = apply_env(other, env);
    let w = choose|a: Ty|
        types(env2, l, #[trigger] operand_ty(op, a)) && types(env2, r, operand_ty(op, a));
    lemma_apply_constant(other);
    lemma_below_parts(expected, expected, last);
    let start = if is_comparison(op) {
        last + 1
    } else {
        last
    };
    let operand = operand_ty(op, fresh(last));
    let other1 = if is_comparison(op) {
        let a = settled(other, last, w);
        lemma_settle(other, env, l, w, last);
        lemma_settle(other, env, r, w, last);
        lemma_below_fresh(last);
        lemma_extend(other, (last + 1) as u32, a, last);
        other.insert((last + 1) as u32, a)
    } else {
        lemma_agree_self(other, last);
        other
    };
    lemma_below_more(s, env, expected, last, start);
    lemma_below_more(other, env, operand, last, start);
    lemma_agree_env(other1, other, last, env);
    let other2 = lemma_infer_complete(l, operand, env, s, start, other1);
    let run1 = infer(l, operand, env, s, start);
    let s1 = run1.result->Ok_0;
    lemma_below_more(s, env, operand, start, run1.last);
    lemma_below_more(s, env, expected, last, run1.last);
    lemma_agree_chain(other2, other1, other, last, start);
    lemma_agree_env(other2, other, last, env);
    lemma_agree_apply(other2, other1, start, operand);
    let other3 = lemma_infer_complete(r, operand, env, s1, run1.last, other2);
    let run2 = infer(r, operand, env, s1, run1.last);
    let s2 = run2.result->Ok_0;
    lemma_agree_chain(other3, other2, other, last, run1.last);
    lemma_agree_apply(other3, other, last, expected);
    lemma_apply_constant(other3);
    lemma_below_more(s, env, expected, last, run2.last);
    lemma_below_parts(expected, expected, run2.last);
    lemma_unified_complete(expected, result_ty(op), s2, other3, run2.last);
    other3
}

/// Whether the type `g` is an instance of the type `t`: what some
/// substitution makes of `t`.
pub open spec fn instance(t: Ty, g: Ty) -> bool {
    exists|s: Map<u32, Ty>| acyclic(s) && #[trigger] apply(s, t) == g
}

/// The type that inference gives to an expression without `let`, in an
/// environment that holds no type variable, is a most general one:
/// inference succeeds wherever the typing rules give the expression a
/// type, and every such type whose variables were handed out before is an
/// instance of the type that inference gives.
pub proof fn lemma_principal_complete(
    e: Term,
    env: Seq<(Seq<char>, Scheme)>,
    last: nat,
    g: Ty,
)
    requires
        closed(env),
        let_free(e),
        last + 1 + demand(e) <= u32::MAX,
        types(env, e, g),
        below(g, last),
    ensures
        principal(e, env, last).0 is Ok,
        principal(e, env, last).1 == last + 1 + demand(e),
        instance(principal(e, env, last).0->Ok_0, g),
{
    let none = Map::<u32, Ty>::empty();
    let v = (last + 1) as u32;
    let var = fresh(last);
    lemma_apply_empty(var);
    lemma_below_fresh(last);
    assert forall|u: u32| #[trigger] mentions(none, u) implies u <= last by {}
    assert forall|u: u32| #[trigger] g.occurs(u) implies !none.contains_key(u) by {}
    lemma_extend(none, v, g, last);
    let other = none.insert(v, g);
    lemma_refines_self(none);
    assert(refines(other, none));
    lemma_closed_env(other, env);
    assert forall|u: u32| env_mentions(env, u) implies u <= last + 1 by {
        let i = choose|i: int|
            0 <= i < env.len() && ((#[trigger] env[i]).1.body.occurs(u)
                || env[i].1.quantified.contains(u));
        assert(!env[i].1.body.occurs(u));
        assert(env[i].1.quantified == Set::<u32>::empty());
    }
    lemma_below_more(none, env, var, last, last + 1);
    let found = lemma_infer_complete(e, var, env, none, last + 1, other);
    let out = infer(e, var, env, none, last + 1).result->Ok_0;
    lemma_agree_apply(found, other, last + 1, var);
    assert(apply(found, apply(out, var)) == apply(found, var));
    assert(acyclic(found) && apply(found, principal(e, env, last).0->Ok_0) == g);
}

/// Inference gives an expression without `let` a type, in an environment
/// that holds no type variable, if and only if the typing rules give it
/// one, where there are variables enough.
pub proof fn lemma_principal_decides(e: Term, env: Seq<(Seq<char>, Scheme)>, last: nat)
    requires
        closed(env),
        let_free(e),
        last + 1 + demand(e) <= u32::MAX,
    ensures
        principal(e, env, last).0 is Ok <==> exists|g: Ty| types(env, e, g),
{
    if principal(e, env, last).0 is Ok {
        lemma_closed_self_contained(env, last);
        lemma_principal_sound(e, env, last);
        assert(types(env, e, principal(e, env, last).0->Ok_0));
    }
    if exists|g: Ty| types(env, e, g) {
        let g = choose|g: Ty| types(env, e, g);
        let ground = grounding(last);
        lemma_grounding(last, g);
        lemma_types_stable(env, e, g, ground);
        lemma_closed_env(ground, env);
        lemma_principal_complete(e, env, last, apply(ground, g));
    }
}

} // verus!

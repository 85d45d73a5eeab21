//! Where the variables of a result come from: unification and inference
//! bring up no variable that is not in what they are given, but for the
//! variables that inference takes from the generator.

use crate::ast::{lemma_occurs_arg, lemma_renamed_con, Term, Ty};
use crate::substitution::{
    acyclic, apply, height, lemma_apply_con, lemma_height_elem, rank_of, ranked,
};
use crate::typing::{
    apply_env, bool_ty, find_frame, fresh, fun_ty, generalize, infer, instance_vars, instantiate,
    int_ty, is_comparison, lemma_infer_refines, lemma_position_found, lemma_unified_sound,
    operand_ty, result_ty, Scheme, shift, unified,
};
use crate::unification::{
    lemma_step_bind, lemma_step_con, lemma_step_drop, lemma_step_fun, pair_up, pending_size,
    pending_vars, solve,
};
use vstd::prelude::*;

verus! {

/// Whether the variable `v` occurs in a type that the substitution binds a
/// variable to.
pub open spec fn in_range(s: Map<u32, Ty>, v: u32) -> bool {
    exists|w: u32| #[trigger] s.contains_key(w) && s[w].occurs(v)
}

/// Whether the substitution binds the variable `v`, or binds a variable to
/// a type in which `v` occurs.
pub open spec fn mentions(s: Map<u32, Ty>, v: u32) -> bool {
    s.contains_key(v) || in_range(s, v)
}

/// Whether the variable `v` occurs in a type of the stack.
pub open spec fn stack_mentions(w: Seq<(Ty, Ty)>, v: u32) -> bool {
    exists|i: int| 0 <= i < w.len() && ((#[trigger] w[i]).0.occurs(v) || w[i].1.occurs(v))
}

/// Whether the variable `v` occurs in the body of a scheme of the
/// environment, or is quantified in one.
pub open spec fn env_mentions(env: Seq<(Seq<char>, Scheme)>, v: u32) -> bool {
    exists|i: int|
        0 <= i < env.len() && ((#[trigger] env[i]).1.body.occurs(v) || env[i].1.quantified.contains(
            v,
        ))
}

/// A variable of what a substitution makes of a type is a variable of the
/// type or of a type that the substitution binds a variable to.
pub proof fn lemma_apply_scope(s: Map<u32, Ty>, t: Ty, v: u32)
    requires
        acyclic(s),
        apply(s, t).occurs(v),
    ensures
        t.occurs(v) || in_range(s, v),
    decreases height(rank_of(s), t), t,
{
    let rank = rank_of(s);
    assert(ranked(s, rank));
    match t {
        Ty::Var(x) => {
            if s.contains_key(x) {
                lemma_apply_scope(s, s[x], v);
            }
        },
        Ty::Fun(a, b) => {
            if apply(s, *a).occurs(v) {
                lemma_apply_scope(s, *a, v);
            } else {
                lemma_apply_scope(s, *b, v);
            }
        },
        Ty::Con(name, args) => {
            lemma_apply_con(s, name, args);
            let out = apply(s, t)->Con_1;
            let i = choose|i: int| 0 <= i < out.len() && (#[trigger] out[i]).occurs(v);
            lemma_height_elem(rank, args, i);
            lemma_apply_scope(s, args[i], v);
            if args[i].occurs(v) {
                lemma_occurs_arg(name, args, i, v);
            }
        },
    }
}

/// A variable that a substitution with one more binding mentions is
/// mentioned by the substitution before, or is the bound variable, or occurs
/// in the type it is bound to.
pub proof fn lemma_insert_scope(s: Map<u32, Ty>, x: u32, b: Ty, v: u32)
    requires
        mentions(s.insert(x, b), v),
    ensures
        mentions(s, v) || v == x || b.occurs(v),
{
    let s2 = s.insert(x, b);
    if !s2.contains_key(v) {
        let w = choose|w: u32| #[trigger] s2.contains_key(w) && s2[w].occurs(v);
        if w != x {
            assert(s.contains_key(w) && s[w].occurs(v));
        }
    }
}

/// What `solve` returns mentions no variable that is neither mentioned by
/// the substitution it started from nor occurs in a pending pair.
pub proof fn lemma_solve_scope(w: Seq<(Ty, Ty)>, s: Map<u32, Ty>, v: u32)
    requires
        acyclic(s),
        solve(w, s) is Ok,
        mentions(solve(w, s)->Ok_0, v),
    ensures
        mentions(s, v) || stack_mentions(w, v),
    decreases pending_vars(w, s).len(), pending_size(w, s),
{
    if w.len() > 0 {
        let rest = w.drop_last();
        let last = w.len() - 1;
        let t1 = w[last].0;
        let t2 = w[last].1;
        let a = apply(s, t1);
        let b = apply(s, t2);
        assert forall|u: u32| a.occurs(u) implies mentions(s, u) || stack_mentions(w, u) by {
            lemma_apply_scope(s, t1, u);
            if t1.occurs(u) {
                assert(w[last].0.occurs(u));
            }
        }
        assert forall|u: u32| b.occurs(u) implies mentions(s, u) || stack_mentions(w, u) by {
            lemma_apply_scope(s, t2, u);
            if t2.occurs(u) {
                assert(w[last].1.occurs(u));
            }
        }
        assert forall|u: u32| stack_mentions(rest, u) implies stack_mentions(w, u) by {
            let i = choose|i: int|
                0 <= i < rest.len() && ((#[trigger] rest[i]).0.occurs(u) || rest[i].1.occurs(u));
            assert(w[i] == rest[i]);
        }
        match (a, b) {
            (Ty::Var(x), _) => {
                if b == a {
                    lemma_step_drop(w, s);
                    lemma_solve_scope(rest, s, v);
                } else {
                    lemma_step_bind(w, s, x, b);
                    lemma_solve_scope(rest, s.insert(x, b), v);
                    if mentions(s.insert(x, b), v) {
                        lemma_insert_scope(s, x, b, v);
                        assert(a.occurs(x));
                    }
                }
            },
            (_, Ty::Var(y)) => {
                lemma_step_bind(w, s, y, a);
                lemma_solve_scope(rest, s.insert(y, a), v);
                if mentions(s.insert(y, a), v) {
                    lemma_insert_scope(s, y, a, v);
                    assert(b.occurs(y));
                }
            },
            (Ty::Fun(a1, a2), Ty::Fun(b1, b2)) => {
                lemma_step_fun(w, s, *a1, *a2, *b1, *b2);
                let w2 = rest.push((*a2, *b2)).push((*a1, *b1));
                lemma_solve_scope(w2, s, v);
                if stack_mentions(w2, v) {
                    let i = choose|i: int|
                        0 <= i < w2.len() && ((#[trigger] w2[i]).0.occurs(v) || w2[i].1.occurs(v));
                    if i < rest.len() {
                        assert(w2[i] == rest[i]);
                        assert(stack_mentions(rest, v));
                    } else {
                        assert(a.occurs(v) || b.occurs(v));
                    }
                }
            },
            (Ty::Con(n, ls), Ty::Con(m, rs)) => {
                lemma_step_con(w, s, n, ls, m, rs);
                let w2 = rest + pair_up(ls, rs);
                lemma_solve_scope(w2, s, v);
                if stack_mentions(w2, v) {
                    let i = choose|i: int|
                        0 <= i < w2.len() && ((#[trigger] w2[i]).0.occurs(v) || w2[i].1.occurs(v));
                    if i < rest.len() {
                        assert(w2[i] == rest[i]);
                        assert(stack_mentions(rest, v));
                    } else {
                        let k = ls.len() - 1 - (i - rest.len());
                        assert(w2[i] == (ls[k], rs[k]));
                        if ls[k].occurs(v) {
                            lemma_occurs_arg(n, ls, k, v);
                        } else {
                            lemma_occurs_arg(m, rs, k, v);
                        }
                        assert(a.occurs(v) || b.occurs(v));
                    }
                }
            },
            _ => {},
        }
    }
}

/// What the unifier returns mentions no variable that is neither mentioned
/// by the substitution it was given nor occurs in one of the two types.
pub proof fn lemma_unified_scope(t: Ty, u: Ty, s: Map<u32, Ty>, v: u32)
    requires
        acyclic(s),
        unified(t, u, s) is Ok,
        mentions(unified(t, u, s)->Ok_0, v),
    ensures
        mentions(s, v) || t.occurs(v) || u.occurs(v),
{
    let w = seq![(t, u)];
    lemma_solve_scope(w, s, v);
    if stack_mentions(w, v) {
        let i = choose|i: int|
            0 <= i < w.len() && ((#[trigger] w[i]).0.occurs(v) || w[i].1.occurs(v));
        assert(w[i] == (t, u));
    }
}

/// A variable of a renamed type is what the renaming makes of a variable of
/// the type.
pub proof fn lemma_renamed_scope(t: Ty, f: spec_fn(u32) -> u32, v: u32)
    requires
        t.renamed(f).occurs(v),
    ensures
        exists|u: u32| #[trigger] t.occurs(u) && f(u) == v,
    decreases t,
{
    match t {
        Ty::Var(x) => {
            assert(t.occurs(x) && f(x) == v);
        },
        Ty::Fun(a, b) => {
            if a.renamed(f).occurs(v) {
                lemma_renamed_scope(*a, f, v);
                let u = choose|u: u32| #[trigger] a.occurs(u) && f(u) == v;
                assert(t.occurs(u) && f(u) == v);
            } else {
                lemma_renamed_scope(*b, f, v);
                let u = choose|u: u32| #[trigger] b.occurs(u) && f(u) == v;
                assert(t.occurs(u) && f(u) == v);
            }
        },
        Ty::Con(name, args) => {
            lemma_renamed_con(f, name, args);
            let out = t.renamed(f)->Con_1;
            let i = choose|i: int| 0 <= i < out.len() && (#[trigger] out[i]).occurs(v);
            lemma_renamed_scope(args[i], f, v);
            let arg = args[i];
            let u = choose|u: u32| #[trigger] arg.occurs(u) && f(u) == v;
            lemma_occurs_arg(name, args, i, u);
            assert(t.occurs(u) && f(u) == v);
        },
    }
}

/// A variable of an instance of a scheme is a variable of the body, or one
/// of the variables that the instance took from the generator.
pub proof fn lemma_instance_scope(scheme: Scheme, last: nat, v: u32)
    requires
        last + instance_vars(scheme).len() <= u32::MAX,
        instantiate(scheme, last).occurs(v),
    ensures
        scheme.body.occurs(v) || last < v <= last + instance_vars(scheme).len(),
{
    let order = instance_vars(scheme);
    let f = shift(order, last);
    lemma_renamed_scope(scheme.body, f, v);
    let u = choose|u: u32| #[trigger] scheme.body.occurs(u) && f(u) == v;
    if order.contains(u) {
        lemma_position_found(order, u);
    }
}

/// A scheme that an environment binds a name to is a scheme of the
/// environment.
pub proof fn lemma_find_scope(env: Seq<(Seq<char>, Scheme)>, x: Seq<char>, v: u32)
    requires
        find_frame(env, x) matches Some(scheme) && (scheme.body.occurs(v)
            || scheme.quantified.contains(v)),
    ensures
        env_mentions(env, v),
    decreases env.len(),
{
    if env[0].0 == x {
        assert(env[0].1.body.occurs(v) || env[0].1.quantified.contains(v));
    } else {
        let rest = env.drop_first();
        lemma_find_scope(rest, x, v);
        let i = choose|i: int|
            0 <= i < rest.len() && ((#[trigger] rest[i]).1.body.occurs(v)
                || rest[i].1.quantified.contains(v));
        assert(env[i + 1] == rest[i]);
    }
}

/// A variable of the scheme that generalises what a substitution makes of a
/// type is a variable of the type or of a type that the substitution binds
/// a variable to.
pub proof fn lemma_generalize_scope(
    s: Map<u32, Ty>,
    a: Ty,
    env: Seq<(Seq<char>, Scheme)>,
    x: Seq<char>,
    v: u32,
)
    requires
        acyclic(s),
        env_mentions(seq![(x, generalize(apply(s, a), apply_env(s, env)))] + env, v),
    ensures
        a.occurs(v) || in_range(s, v) || env_mentions(env, v),
{
    let scheme = generalize(apply(s, a), apply_env(s, env));
    let longer = seq![(x, scheme)] + env;
    let i = choose|i: int|
        0 <= i < longer.len() && ((#[trigger] longer[i]).1.body.occurs(v)
            || longer[i].1.quantified.contains(v));
    if i == 0 {
        assert(apply(s, a).occurs(v));
        lemma_apply_scope(s, a, v);
    } else {
        assert(longer[i] == env[i - 1]);
        assert(env[i - 1].1.body.occurs(v) || env[i - 1].1.quantified.contains(v));
    }
}

/// A variable of an environment with one more frame, of a type without
/// quantified variables, is a variable of the type or of the environment.
pub proof fn lemma_frame_scope(env: Seq<(Seq<char>, Scheme)>, x: Seq<char>, a: Ty, v: u32)
    requires
        env_mentions(seq![(x, Scheme::mono(a))] + env, v),
    ensures
        a.occurs(v) || env_mentions(env, v),
{
    let longer = seq![(x, Scheme::mono(a))] + env;
    let i = choose|i: int|
        0 <= i < longer.len() && ((#[trigger] longer[i]).1.body.occurs(v)
            || longer[i].1.quantified.contains(v));
    if i > 0 {
        assert(longer[i] == env[i - 1]);
        assert(env[i - 1].1.body.occurs(v) || env[i - 1].1.quantified.contains(v));
    }
}

/// Whether the variable `v` is known where inference starts or is taken
/// from the generator while it runs: it is mentioned by the substitution,
/// occurs in the expected type or in the environment, or its number lies
/// behind `from` and not behind `to`.
pub open spec fn known(
    v: u32,
    expected: Ty,
    env: Seq<(Seq<char>, Scheme)>,
    s: Map<u32, Ty>,
    from: nat,
    to: nat,
) -> bool {
    mentions(s, v) || expected.occurs(v) || env_mentions(env, v) || from < v <= to
}

/// Whether inference keeps to the variables it knows, at an expression.
pub open spec fn scoped_at(
    e: Term,
    expected: Ty,
    env: Seq<(Seq<char>, Scheme)>,
    s: Map<u32, Ty>,
    last: nat,
    v: u32,
) -> bool {
    infer(e, expected, env, s, last).result matches Ok(out) ==> (mentions(out, v) ==> known(
        v,
        expected,
        env,
        s,
        last,
        infer(e, expected, env, s, last).last,
    ))
}

/// The substitution that inference returns mentions no variable that was
/// not known where inference started, but for the variables that it took
/// from the generator.
pub proof fn lemma_infer_scope(
    e: Term,
    expected: Ty,
    env: Seq<(Seq<char>, Scheme)>,
    s: Map<u32, Ty>,
    last: nat,
    v: u32,
)
    requires
        acyclic(s),
    ensures
        scoped_at(e, expected, env, s, last, v),
    decreases e, 1nat,
{
    let run = infer(e, expected, env, s, last);
    if run.result is Ok && mentions(run.result->Ok_0, v) {
        match e {
            Term::Num(_) => {
                lemma_unified_scope(expected, int_ty(), s, v);
                lemma_constant_scope(v);
            },
            Term::Bool(_) => {
                lemma_unified_scope(expected, bool_ty(), s, v);
                lemma_constant_scope(v);
            },
            Term::Var(x) => {
                let scheme = find_frame(env, x)->Some_0;
                lemma_unified_scope(expected, instantiate(scheme, last), s, v);
                if instantiate(scheme, last).occurs(v) {
                    lemma_instance_scope(scheme, last, v);
                    if scheme.body.occurs(v) {
                        lemma_find_scope(env, x, v);
                    }
                }
            },
            Term::BinOp(_, _, _) => {
                lemma_binop_scope(e, expected, env, s, last, v);
            },
            Term::If(_, _, _) => {
                lemma_if_scope(e, expected, env, s, last, v);
            },
            Term::Fun(_, _) => {
                lemma_fun_scope(e, expected, env, s, last, v);
            },
            Term::App(_, _) => {
                lemma_app_scope(e, expected, env, s, last, v);
            },
            Term::Let(_, _, _) => {
                lemma_let_scope(e, expected, env, s, last, v);
            },
            Term::LetRec(_, _, _) => {
                lemma_letrec_scope(e, expected, env, s, last, v);
            },
        }
    }
}

/// The types `int` and `bool` hold no variable.
pub proof fn lemma_constant_scope(v: u32)
    ensures
        !int_ty().occurs(v),
        !bool_ty().occurs(v),
{
}

/// Inference keeps to the variables it knows at a binary operator, if it
/// does at its operands.
pub proof fn lemma_binop_scope(
    e: Term,
    expected: Ty,
    env: Seq<(Seq<char>, Scheme)>,
    s: Map<u32, Ty>,
    last: nat,
    v: u32,
)
    requires
        acyclic(s),
        e is BinOp,
        infer(e, expected, env, s, last).result is Ok,
        mentions(infer(e, expected, env, s, last).result->Ok_0, v),
    ensures
        scoped_at(e, expected, env, s, last, v),
    decreases e, 0nat,
{
    let l = *e->BinOp_0;
    let op = e->BinOp_1;
    let r = *e->BinOp_2;
    let start = if is_comparison(op) {
        last + 1
    } else {
        last
    };
    let operand = operand_ty(op, fresh(last));
    let left = infer(l, operand, env, s, start);
    let s1 = left.result->Ok_0;
    lemma_infer_refines(l, operand, env, s, start);
    let right = infer(r, operand, env, s1, left.last);
    let s2 = right.result->Ok_0;
    lemma_infer_refines(r, operand, env, s1, left.last);
    lemma_constant_scope(v);
    lemma_unified_scope(expected, result_ty(op), s2, v);
    if mentions(s2, v) {
        lemma_infer_scope(r, operand, env, s1, left.last, v);
        if mentions(s1, v) {
            lemma_infer_scope(l, operand, env, s, start, v);
        }
    }
}

/// Inference keeps to the variables it knows at a conditional, if it does
/// at its three parts.
pub proof fn lemma_if_scope(
    e: Term,
    expected: Ty,
    env: Seq<(Seq<char>, Scheme)>,
    s: Map<u32, Ty>,
    last: nat,
    v: u32,
)
    requires
        acyclic(s),
        e is If,
        infer(e, expected, env, s, last).result is Ok,
        mentions(infer(e, expected, env, s, last).result->Ok_0, v),
    ensures
        scoped_at(e, expected, env, s, last, v),
    decreases e, 0nat,
{
    let p = *e->If_0;
    let c = *e->If_1;
    let f = *e->If_2;
    let cond = infer(p, bool_ty(), env, s, last);
    let s1 = cond.result->Ok_0;
    lemma_infer_refines(p, bool_ty(), env, s, last);
    let first = infer(c, expected, env, s1, cond.last);
    let s2 = first.result->Ok_0;
    lemma_infer_refines(c, expected, env, s1, cond.last);
    lemma_infer_refines(f, expected, env, s2, first.last);
    lemma_constant_scope(v);
    lemma_infer_scope(f, expected, env, s2, first.last, v);
    if mentions(s2, v) {
        lemma_infer_scope(c, expected, env, s1, cond.last, v);
        if mentions(s1, v) {
            lemma_infer_scope(p, bool_ty(), env, s, last, v);
        }
    }
}

/// Inference keeps to the variables it knows at a function, if it does at
/// its body.
pub proof fn lemma_fun_scope(
    e: Term,
    expected: Ty,
    env: Seq<(Seq<char>, Scheme)>,
    s: Map<u32, Ty>,
    last: nat,
    v: u32,
)
    requires
        acyclic(s),
        e is Fun,
        infer(e, expected, env, s, last).result is Ok,
        mentions(infer(e, expected, env, s, last).result->Ok_0, v),
    ensures
        scoped_at(e, expected, env, s, last, v),
    decreases e, 0nat,
{
    let x = e->Fun_0;
    let body = *e->Fun_1;
    let a = fresh(last);
    let b = fresh(last + 1);
    let s1 = unified(expected, fun_ty(a, b), s)->Ok_0;
    lemma_unified_sound(expected, fun_ty(a, b), s);
    let env1 = seq![(x, Scheme::mono(a))] + env;
    lemma_infer_refines(body, b, env1, s1, last + 2);
    lemma_infer_scope(body, b, env1, s1, last + 2, v);
    assert(a.occurs(v) <==> v == last + 1);
    assert(b.occurs(v) <==> v == last + 2);
    assert(fun_ty(a, b).occurs(v) <==> a.occurs(v) || b.occurs(v));
    if env_mentions(env1, v) {
        lemma_frame_scope(env, x, a, v);
    }
    if mentions(s1, v) {
        lemma_unified_scope(expected, fun_ty(a, b), s, v);
    }
}

/// Inference keeps to the variables it knows at an application, if it does
/// at the function and at the argument.
pub proof fn lemma_app_scope(
    e: Term,
    expected: Ty,
    env: Seq<(Seq<char>, Scheme)>,
    s: Map<u32, Ty>,
    last: nat,
    v: u32,
)
    requires
        acyclic(s),
        e is App,
        infer(e, expected, env, s, last).result is Ok,
        mentions(infer(e, expected, env, s, last).result->Ok_0, v),
    ensures
        scoped_at(e, expected, env, s, last, v),
    decreases e, 0nat,
{
    let f = *e->App_0;
    let arg = *e->App_1;
    let a = fresh(last);
    let fun = infer(f, fun_ty(a, expected), env, s, last + 1);
    let s1 = fun.result->Ok_0;
    lemma_infer_refines(f, fun_ty(a, expected), env, s, last + 1);
    lemma_infer_refines(arg, a, env, s1, fun.last);
    lemma_infer_scope(arg, a, env, s1, fun.last, v);
    assert(a.occurs(v) <==> v == last + 1);
    assert(fun_ty(a, expected).occurs(v) <==> a.occurs(v) || expected.occurs(v));
    if mentions(s1, v) {
        lemma_infer_scope(f, fun_ty(a, expected), env, s, last + 1, v);
    }
}

/// Inference keeps to the variables it knows at a `let`, if it does at the
/// value and at the body.
pub proof fn lemma_let_scope(
    e: Term,
    expected: Ty,
    env: Seq<(Seq<char>, Scheme)>,
    s: Map<u32, Ty>,
    last: nat,
    v: u32,
)
    requires
        acyclic(s),
        e is Let,
        infer(e, expected, env, s, last).result is Ok,
        mentions(infer(e, expected, env, s, last).result->Ok_0, v),
    ensures
        scoped_at(e, expected, env, s, last, v),
    decreases e, 0nat,
{
    let x = e->Let_0;
    let val_e = *e->Let_1;
    let body = *e->Let_2;
    let a = fresh(last);
    let val = infer(val_e, a, env, s, last + 1);
    let s1 = val.result->Ok_0;
    lemma_infer_refines(val_e, a, env, s, last + 1);
    let scheme = generalize(apply(s1, a), apply_env(s1, env));
    let env1 = seq![(x, scheme)] + env;
    lemma_infer_refines(body, expected, env1, s1, val.last);
    lemma_infer_scope(body, expected, env1, s1, val.last, v);
    if env_mentions(env1, v) {
        lemma_generalize_scope(s1, a, env, x, v);
    }
    if mentions(s1, v) {
        lemma_infer_scope(val_e, a, env, s, last + 1, v);
    }
}

/// Inference keeps to the variables it knows at a `letrec`, if it does at
/// the value and at the body.
pub proof fn lemma_letrec_scope(
    e: Term,
    expected: Ty,
    env: Seq<(Seq<char>, Scheme)>,
    s: Map<u32, Ty>,
    last: nat,
    v: u32,
)
    requires
        acyclic(s),
        e is LetRec,
        infer(e, expected, env, s, last).result is Ok,
        mentions(infer(e, expected, env, s, last).result->Ok_0, v),
    ensures
        scoped_at(e, expected, env, s, last, v),
    decreases e, 0nat,
{
    let x = e->LetRec_0;
    let val_e = *e->LetRec_1;
    let body = *e->LetRec_2;
    let a = fresh(last);
    let env0 = seq![(x, Scheme::mono(a))] + env;
    let val = infer(val_e, a, env0, s, last + 1);
    let s1 = val.result->Ok_0;
    lemma_infer_refines(val_e, a, env0, s, last + 1);
    let scheme = generalize(apply(s1, a), apply_env(s1, env));
    let env1 = seq![(x, scheme)] + env;
    lemma_infer_refines(body, expected, env1, s1, val.last);
    lemma_infer_scope(body, expected, env1, s1, val.last, v);
    if env_mentions(env1, v) {
        lemma_generalize_scope(s1, a, env, x, v);
    }
    if mentions(s1, v) {
        lemma_infer_scope(val_e, a, env0, s, last + 1, v);
        if env_mentions(env0, v) {
            lemma_frame_scope(env, x, a, v);
        }
    }
}

} // verus!

//! What a step of inference adds to the substitution, it takes from what
//! is in use: the variables of the expected type and the free variables of
//! the environment, as the substitution leaves them.

use crate::ast::Ty;
use crate::reach::{lemma_reach_from, lemma_reach_into, reach};
use crate::soundness::free_in;
use crate::substitution::{acyclic, apply, clean, lemma_apply_insert, lemma_replace_vars};
use crate::typing::{unified, Scheme};
use crate::unification::{
    lemma_pending_member, lemma_step_bind, lemma_step_con, lemma_step_drop, lemma_step_fun,
    pair_up, pending_size, pending_vars, solve,
};
use vstd::prelude::*;

verus! {

/// What solving pending pairs adds to a substitution, it takes from the
/// pending pairs: a variable that it binds in addition, and a variable that
/// it leads to in addition, are variables of the pending pairs as the
/// substitution leaves them.
pub proof fn lemma_solve_support(w: Seq<(Ty, Ty)>, s: Map<u32, Ty>)
    requires
        acyclic(s),
        solve(w, s) is Ok,
    ensures
        forall|x: u32|
            #[trigger] solve(w, s)->Ok_0.contains_key(x) && !s.contains_key(x) ==> pending_vars(
                w,
                s,
            ).contains(x),
        forall|u: u32, v: u32|
            #[trigger] reach(solve(w, s)->Ok_0, u, v) ==> reach(s, u, v) || pending_vars(
                w,
                s,
            ).contains(v),
    decreases pending_vars(w, s).len(), pending_size(w, s),
{
    let r = solve(w, s)->Ok_0;
    if w.len() > 0 {
        let rest = w.drop_last();
        let a = apply(s, w.last().0);
        let b = apply(s, w.last().1);
        match (a, b) {
            (Ty::Var(x), _) => {
                if b == a {
                    lemma_step_drop(w, s);
                    lemma_solve_support(rest, s);
                } else {
                    lemma_step_bind(w, s, x, b);
                    lemma_solve_support(rest, s.insert(x, b));
                    lemma_bound_support(w, s, x, b, r);
                }
            },
            (_, Ty::Var(y)) => {
                lemma_step_bind(w, s, y, a);
                lemma_solve_support(rest, s.insert(y, a));
                lemma_bound_support(w, s, y, a, r);
            },
            (Ty::Fun(a1, a2), Ty::Fun(b1, b2)) => {
                lemma_step_fun(w, s, *a1, *a2, *b1, *b2);
                lemma_solve_support(rest.push((*a2, *b2)).push((*a1, *b1)), s);
            },
            (Ty::Con(n, ls), Ty::Con(m, rs)) => {
                lemma_step_con(w, s, n, ls, m, rs);
                lemma_solve_support(rest + pair_up(ls, rs), s);
            },
            _ => {},
        }
    }
}

/// `lemma_solve_support` across the step that binds a variable.
pub proof fn lemma_bound_support(
    w: Seq<(Ty, Ty)>,
    s: Map<u32, Ty>,
    x: u32,
    b: Ty,
    r: Map<u32, Ty>,
)
    requires
        acyclic(s),
        w.len() > 0,
        !s.contains_key(x),
        clean(s, b),
        !b.occurs(x),
        pending_vars(w, s).contains(x),
        forall|v: u32| #[trigger] b.occurs(v) ==> pending_vars(w, s).contains(v),
        pending_vars(w.drop_last(), s.insert(x, b)).subset_of(pending_vars(w, s)),
        forall|y: u32|
            #[trigger] r.contains_key(y) && !s.insert(x, b).contains_key(y) ==> pending_vars(
                w.drop_last(),
                s.insert(x, b),
            ).contains(y),
        forall|u: u32, v: u32|
            #[trigger] reach(r, u, v) ==> reach(s.insert(x, b), u, v) || pending_vars(
                w.drop_last(),
                s.insert(x, b),
            ).contains(v),
    ensures
        forall|y: u32|
            #[trigger] r.contains_key(y) && !s.contains_key(y) ==> pending_vars(w, s).contains(y),
        forall|u: u32, v: u32|
            #[trigger] reach(r, u, v) ==> reach(s, u, v) || pending_vars(w, s).contains(v),
{
    let s2 = s.insert(x, b);
    let rest = w.drop_last();
    assert forall|y: u32| #[trigger] r.contains_key(y) && !s.contains_key(y) implies pending_vars(
        w,
        s,
    ).contains(y) by {
        if y != x {
            assert(!s2.contains_key(y));
            assert(pending_vars(rest, s2).contains(y));
        }
    }
    assert forall|u: u32, v: u32| #[trigger] reach(r, u, v) implies reach(s, u, v) || pending_vars(
        w,
        s,
    ).contains(v) by {
        if reach(s2, u, v) {
            lemma_apply_insert(s, x, b, Ty::Var(u));
            lemma_replace_vars(x, b, apply(s, Ty::Var(u)), v);
        } else {
            assert(pending_vars(rest, s2).contains(v));
        }
    }
}

/// Whether the substitution leads to the variable `w` from a free variable
/// of the environment.
pub open spec fn env_live(s: Map<u32, Ty>, env: Seq<(Seq<char>, Scheme)>, w: u32) -> bool {
    exists|i: int, u: u32|
        #![trigger env[i], reach(s, u, w)]
        0 <= i < env.len() && free_in(env[i].1, u) && reach(s, u, w)
}

/// Whether the variable `w` is in use under the substitution: it occurs in
/// what the substitution makes of the expected type, or the substitution
/// leads to it from a free variable of the environment.
pub open spec fn live(
    s: Map<u32, Ty>,
    env: Seq<(Seq<char>, Scheme)>,
    expected: Ty,
    w: u32,
) -> bool {
    apply(s, expected).occurs(w) || env_live(s, env, w)
}

/// Whether the substitution `out` adds to the substitution `s`, among the
/// variables numbered `n` at most, only what was in use under `s`: such a
/// variable that `out` binds in addition, or leads to in addition, was in
/// use.
pub open spec fn adds_in_use(
    s: Map<u32, Ty>,
    out: Map<u32, Ty>,
    env: Seq<(Seq<char>, Scheme)>,
    expected: Ty,
    n: nat,
) -> bool {
    &&& forall|x: u32|
        #[trigger] out.contains_key(x) && x <= n && !s.contains_key(x) ==> live(
            s,
            env,
            expected,
            x,
        )
    &&& forall|u: u32, w: u32|
        #[trigger] reach(out, u, w) && w <= n ==> reach(s, u, w) || live(s, env, expected, w)
}

/// Whether what is in use under `s1` with one environment and expected
/// type was in use under `s` with another, among the variables numbered
/// `n` at most.
pub open spec fn in_use_before(
    s1: Map<u32, Ty>,
    env1: Seq<(Seq<char>, Scheme)>,
    expected1: Ty,
    s: Map<u32, Ty>,
    env: Seq<(Seq<char>, Scheme)>,
    expected: Ty,
    n: nat,
) -> bool {
    forall|w: u32| w <= n && #[trigger] live(s1, env1, expected1, w) ==> live(s, env, expected, w)
}

/// Two steps that add only what was in use make one such step.
pub proof fn lemma_adds_then(
    s: Map<u32, Ty>,
    s1: Map<u32, Ty>,
    s2: Map<u32, Ty>,
    env: Seq<(Seq<char>, Scheme)>,
    expected: Ty,
    n: nat,
    env1: Seq<(Seq<char>, Scheme)>,
    expected1: Ty,
    n1: nat,
)
    requires
        n <= n1,
        adds_in_use(s, s1, env, expected, n),
        adds_in_use(s1, s2, env1, expected1, n1),
        in_use_before(s1, env1, expected1, s, env, expected, n),
    ensures
        adds_in_use(s, s2, env, expected, n),
{
    assert forall|x: u32|
        #[trigger] s2.contains_key(x) && x <= n && !s.contains_key(x) implies live(
        s,
        env,
        expected,
        x,
    ) by {
        if !s1.contains_key(x) {
            assert(live(s1, env1, expected1, x));
        }
    }
    assert forall|u: u32, w: u32| #[trigger] reach(s2, u, w) && w <= n implies reach(s, u, w)
        || live(s, env, expected, w) by {
        if !reach(s1, u, w) {
            assert(live(s1, env1, expected1, w));
        }
    }
}

/// A step that adds only what was in use with one expected type adds only
/// what was in use with another, where what was in use with the one was in
/// use with the other.
pub proof fn lemma_adds_narrow(
    s: Map<u32, Ty>,
    s1: Map<u32, Ty>,
    env: Seq<(Seq<char>, Scheme)>,
    expected: Ty,
    n: nat,
    env1: Seq<(Seq<char>, Scheme)>,
    expected1: Ty,
    n1: nat,
)
    requires
        n <= n1,
        adds_in_use(s, s1, env1, expected1, n1),
        in_use_before(s, env1, expected1, s, env, expected, n),
    ensures
        adds_in_use(s, s1, env, expected, n),
{
    assert forall|x: u32|
        #[trigger] s1.contains_key(x) && x <= n && !s.contains_key(x) implies live(
        s,
        env,
        expected,
        x,
    ) by {
        assert(live(s, env1, expected1, x));
    }
    assert forall|u: u32, w: u32| #[trigger] reach(s1, u, w) && w <= n implies reach(s, u, w)
        || live(s, env, expected, w) by {
        if !reach(s, u, w) {
            assert(live(s, env1, expected1, w));
        }
    }
}

/// The unifier adds only what was in use, where the variables of its two
/// types were.
pub proof fn lemma_unified_adds(
    t: Ty,
    u: Ty,
    s: Map<u32, Ty>,
    env: Seq<(Seq<char>, Scheme)>,
    expected: Ty,
    n: nat,
)
    requires
        acyclic(s),
        unified(t, u, s) is Ok,
        forall|w: u32|
            w <= n && (#[trigger] apply(s, t).occurs(w) || apply(s, u).occurs(w)) ==> live(
                s,
                env,
                expected,
                w,
            ),
    ensures
        adds_in_use(s, unified(t, u, s)->Ok_0, env, expected, n),
{
    let w = seq![(t, u)];
    let out = unified(t, u, s)->Ok_0;
    lemma_solve_support(w, s);
    assert forall|v: u32| pending_vars(w, s).contains(v) implies apply(s, t).occurs(v) || apply(
        s,
        u,
    ).occurs(v) by {
        lemma_pending_member(w, s, v);
        let i = choose|i: int|
            0 <= i < w.len() && (apply(s, (#[trigger] w[i]).0).occurs(v) || apply(
                s,
                w[i].1,
            ).occurs(v));
        assert(w[i] == (t, u));
    }
    assert forall|x: u32|
        #[trigger] out.contains_key(x) && x <= n && !s.contains_key(x) implies live(
        s,
        env,
        expected,
        x,
    ) by {
        assert(pending_vars(w, s).contains(x));
        assert(apply(s, t).occurs(x) || apply(s, u).occurs(x));
    }
    assert forall|a: u32, v: u32| #[trigger] reach(out, a, v) && v <= n implies reach(s, a, v)
        || live(s, env, expected, v) by {
        if !reach(s, a, v) {
            assert(pending_vars(w, s).contains(v));
            assert(apply(s, t).occurs(v) || apply(s, u).occurs(v));
        }
    }
}

/// A variable of what the later of two substitutions makes of a type was a
/// variable of what the earlier one makes of it, or in use, where the
/// later one adds only what was in use.
pub proof fn lemma_occurs_before(
    s: Map<u32, Ty>,
    s1: Map<u32, Ty>,
    env: Seq<(Seq<char>, Scheme)>,
    expected: Ty,
    n: nat,
    t: Ty,
    w: u32,
)
    requires
        acyclic(s),
        acyclic(s1),
        adds_in_use(s, s1, env, expected, n),
        w <= n,
        apply(s1, t).occurs(w),
    ensures
        apply(s, t).occurs(w) || live(s, env, expected, w),
{
    let u = lemma_reach_from(s1, t, w);
    assert(reach(s1, u, w));
    if reach(s, u, w) {
        lemma_reach_into(s, t, u, w);
    }
}

/// A variable that the later of two substitutions leads to from a free
/// variable of the environment was in use, where the later one adds only
/// what was in use.
pub proof fn lemma_env_live_before(
    s: Map<u32, Ty>,
    s1: Map<u32, Ty>,
    env: Seq<(Seq<char>, Scheme)>,
    expected: Ty,
    n: nat,
    w: u32,
)
    requires
        adds_in_use(s, s1, env, expected, n),
        w <= n,
        env_live(s1, env, w),
    ensures
        live(s, env, expected, w),
{
    let (i, u) = choose|i: int, u: u32|
        #![trigger env[i], reach(s1, u, w)]
        0 <= i < env.len() && free_in(env[i].1, u) && reach(s1, u, w);
    assert(reach(s1, u, w));
    if reach(s, u, w) {
        assert(0 <= i < env.len() && free_in(env[i].1, u) && reach(s, u, w));
    }
}

} // verus!

//! Inference keeps the variables that it has generalised out of use: what
//! it goes on with neither binds one of them nor leads to one of them from
//! a variable that was in use before.

use crate::ast::Ty;
use crate::hygiene::{
    adds_in_use, env_live, in_use_before, lemma_env_live_before, lemma_occurs_before,
    lemma_unified_adds, live,
};
use crate::laws::env_below;
use crate::principal::{below, sub_below};
use crate::reach::{
    lemma_reach_from, lemma_reach_on, lemma_reach_through, lemma_reach_unbound, reach,
};
use crate::scope::{
    env_mentions, in_range, lemma_apply_scope, lemma_renamed_scope, lemma_unified_scope,
    mentions,
};
use crate::principal::lemma_apply_below;
use crate::soundness::{
    env_sealed, free_in, keeps_off, lemma_env_vars_from, lemma_env_vars_into, sealed,
};
use crate::substitution::{
    acyclic, apply, lemma_apply_clean, lemma_apply_var, lemma_refines_trans, refines,
};
use crate::typing::{
    apply_env, env_vars, find_frame, fresh, fun_ty, generalize, instance_vars, instantiate,
    lemma_first_seen, lemma_position_found, shift, unified, Scheme,
};
use vstd::prelude::*;

verus! {

/// Whether the variable is free in a scheme of the environment.
pub open spec fn env_free(env: Seq<(Seq<char>, Scheme)>, u: u32) -> bool {
    exists|i: int| 0 <= i < env.len() && free_in((#[trigger] env[i]).1, u)
}

/// Whether the substitution leads from the variable `u` to no variable of
/// `p`.
pub open spec fn avoids(s: Map<u32, Ty>, u: u32, p: Set<u32>) -> bool {
    forall|w: u32| #[trigger] reach(s, u, w) ==> !p.contains(w)
}

/// Whether inference stands in good order with respect to the generalised
/// variables `p`: the generator has handed out every variable that is
/// mentioned; the substitution is acyclic, binds no variable of `p` and
/// leads to none of them from a variable of the expected type or a free
/// variable of the environment; and the quantified variables of the
/// environment occur in their schemes and are variables of `p`.
pub open spec fn tidy(
    expected: Ty,
    env: Seq<(Seq<char>, Scheme)>,
    s: Map<u32, Ty>,
    last: nat,
    p: Set<u32>,
) -> bool {
    &&& acyclic(s)
    &&& sub_below(s, last)
    &&& env_below(env, last)
    &&& below(expected, last)
    &&& forall|v: u32| #[trigger] p.contains(v) ==> v <= last && !s.contains_key(v)
    &&& forall|u: u32| #[trigger] expected.occurs(u) ==> avoids(s, u, p)
    &&& forall|u: u32| #[trigger] env_free(env, u) ==> avoids(s, u, p)
    &&& forall|i: int, q: u32|
        0 <= i < env.len() && #[trigger] env[i].1.quantified.contains(q) ==> env[i].1.body.occurs(
            q,
        ) && p.contains(q)
}

/// Whether the substitution `out` leads to no variable of `later` from a
/// variable numbered `n` at most that the substitution `s` does not bind
/// and that is not in `p`.
pub open spec fn keeps(
    s: Map<u32, Ty>,
    n: nat,
    p: Set<u32>,
    out: Map<u32, Ty>,
    later: Set<u32>,
) -> bool {
    forall|v: u32, w: u32|
        v <= n && !s.contains_key(v) && !p.contains(v) && #[trigger] reach(out, v, w)
            ==> !later.contains(w)
}

/// A variable that a substitution leads to from a variable numbered `n` at
/// most is not bound by the substitution and is numbered `n` at most,
/// where the generator has handed out what the substitution mentions.
pub proof fn lemma_reach_below(s: Map<u32, Ty>, n: nat, u: u32, v: u32)
    requires
        acyclic(s),
        sub_below(s, n),
        u <= n,
        reach(s, u, v),
    ensures
        v <= n,
        !s.contains_key(v),
{
    lemma_apply_clean(s, Ty::Var(u));
    lemma_apply_scope(s, Ty::Var(u), v);
    if in_range(s, v) {
        assert(mentions(s, v));
    }
}

/// A substitution leads to no generalised variable from a variable that
/// the generator has yet to hand out.
pub proof fn lemma_fresh_avoids(s: Map<u32, Ty>, n: nat, p: Set<u32>, u: u32)
    requires
        acyclic(s),
        sub_below(s, n),
        forall|v: u32| #[trigger] p.contains(v) ==> v <= n,
        u > n,
    ensures
        avoids(s, u, p),
        !s.contains_key(u),
        forall|w: u32| reach(s, u, w) <==> w == u,
{
    assert(!s.contains_key(u)) by {
        if s.contains_key(u) {
            assert(mentions(s, u));
        }
    }
    assert forall|w: u32| reach(s, u, w) <==> w == u by {
        lemma_reach_unbound(s, u, w);
    }
}

/// What a later substitution leads to from a variable avoids the
/// generalised variables, where what the earlier one led to did.
pub proof fn lemma_avoids_on(
    s: Map<u32, Ty>,
    n: nat,
    p: Set<u32>,
    out: Map<u32, Ty>,
    pb: Set<u32>,
    u: u32,
)
    requires
        acyclic(s),
        acyclic(out),
        refines(out, s),
        sub_below(s, n),
        keeps(s, n, p, out, pb),
        u <= n,
        avoids(s, u, p),
    ensures
        avoids(out, u, pb),
{
    assert forall|w: u32| #[trigger] reach(out, u, w) implies !pb.contains(w) by {
        let v = lemma_reach_through(out, s, u, w);
        lemma_reach_below(s, n, u, v);
        assert(reach(out, v, w));
    }
}

/// A substitution keeps the generalised variables out of reach by itself.
pub proof fn lemma_keeps_self(s: Map<u32, Ty>, n: nat, p: Set<u32>)
    requires
        acyclic(s),
    ensures
        keeps(s, n, p, s, p),
{
    assert forall|v: u32, w: u32|
        v <= n && !s.contains_key(v) && !p.contains(v) && #[trigger] reach(
            s,
            v,
            w,
        ) implies !p.contains(w) by {
        lemma_reach_unbound(s, v, w);
    }
}

/// Two steps that keep the generalised variables out of reach make one
/// such step.
pub proof fn lemma_keeps_then(
    s: Map<u32, Ty>,
    n: nat,
    p: Set<u32>,
    s1: Map<u32, Ty>,
    n1: nat,
    pa: Set<u32>,
    s2: Map<u32, Ty>,
    pb: Set<u32>,
)
    requires
        acyclic(s1),
        acyclic(s2),
        refines(s2, s1),
        sub_below(s1, n1),
        n <= n1,
        keeps(s, n, p, s1, pa),
        keeps(s1, n1, pa, s2, pb),
    ensures
        keeps(s, n, p, s2, pb),
{
    assert forall|v: u32, w: u32|
        v <= n && !s.contains_key(v) && !p.contains(v) && #[trigger] reach(
            s2,
            v,
            w,
        ) implies !pb.contains(w) by {
        let mid = lemma_reach_through(s2, s1, v, w);
        lemma_reach_below(s1, n1, v, mid);
        assert(reach(s1, v, mid));
        assert(reach(s2, mid, w));
    }
}

/// A variable in use is no generalised variable, where inference stands in
/// good order.
pub proof fn lemma_live_avoids(
    expected: Ty,
    env: Seq<(Seq<char>, Scheme)>,
    s: Map<u32, Ty>,
    n: nat,
    p: Set<u32>,
    w: u32,
)
    requires
        tidy(expected, env, s, n, p),
        live(s, env, expected, w),
    ensures
        !p.contains(w),
{
    if apply(s, expected).occurs(w) {
        let u = lemma_reach_from(s, expected, w);
        assert(avoids(s, u, p));
    } else {
        let (i, u) = choose|i: int, u: u32|
            #![trigger env[i], reach(s, u, w)]
            0 <= i < env.len() && free_in(env[i].1, u) && reach(s, u, w);
        assert(env_free(env, u));
        assert(avoids(s, u, p));
    }
}

/// A step that adds only what was in use keeps the generalised variables
/// out of reach, and binds none of them.
pub proof fn lemma_adds_keeps(
    expected: Ty,
    env: Seq<(Seq<char>, Scheme)>,
    s: Map<u32, Ty>,
    n: nat,
    p: Set<u32>,
    out: Map<u32, Ty>,
)
    requires
        tidy(expected, env, s, n, p),
        adds_in_use(s, out, env, expected, n),
    ensures
        keeps(s, n, p, out, p),
        forall|v: u32| #[trigger] p.contains(v) ==> !out.contains_key(v),
{
    assert forall|v: u32, w: u32|
        v <= n && !s.contains_key(v) && !p.contains(v) && #[trigger] reach(
            out,
            v,
            w,
        ) implies !p.contains(w) by {
        if p.contains(w) {
            if reach(s, v, w) {
                lemma_reach_unbound(s, v, w);
            } else {
                lemma_live_avoids(expected, env, s, n, p, w);
            }
        }
    }
    assert forall|v: u32| #[trigger] p.contains(v) implies !out.contains_key(v) by {
        if out.contains_key(v) {
            lemma_live_avoids(expected, env, s, n, p, v);
        }
    }
}

/// The unifier mentions no variable that the generator has yet to hand
/// out, where the substitution and the two types do not.
pub proof fn lemma_unified_below(t: Ty, u: Ty, s: Map<u32, Ty>, n: nat)
    requires
        acyclic(s),
        sub_below(s, n),
        below(t, n),
        below(u, n),
        unified(t, u, s) is Ok,
    ensures
        sub_below(unified(t, u, s)->Ok_0, n),
{
    assert forall|v: u32| #[trigger] mentions(unified(t, u, s)->Ok_0, v) implies v <= n by {
        lemma_unified_scope(t, u, s, v);
    }
}

/// Inference stands in good order after a step that keeps the generalised
/// variables out of reach and binds none of them.
pub proof fn lemma_tidy_on(
    expected: Ty,
    env: Seq<(Seq<char>, Scheme)>,
    s: Map<u32, Ty>,
    n: nat,
    p: Set<u32>,
    s1: Map<u32, Ty>,
    n1: nat,
    pa: Set<u32>,
)
    requires
        tidy(expected, env, s, n, p),
        n <= n1,
        acyclic(s1),
        refines(s1, s),
        sub_below(s1, n1),
        keeps(s, n, p, s1, pa),
        p.subset_of(pa),
        forall|v: u32| #[trigger] pa.contains(v) ==> v <= n1 && !s1.contains_key(v),
    ensures
        tidy(expected, env, s1, n1, pa),
{
    assert forall|u: u32| #[trigger] expected.occurs(u) implies avoids(s1, u, pa) by {
        lemma_avoids_on(s, n, p, s1, pa, u);
    }
    assert forall|u: u32| #[trigger] env_free(env, u) implies avoids(s1, u, pa) by {
        let i = choose|i: int| 0 <= i < env.len() && free_in((#[trigger] env[i]).1, u);
        assert(env_mentions(env, u));
        lemma_avoids_on(s, n, p, s1, pa, u);
    }
}

/// Inference stands in good order with one more variable taken from the
/// generator, which the expected type may go on to mention.
pub proof fn lemma_tidy_fresh(
    expected: Ty,
    env: Seq<(Seq<char>, Scheme)>,
    s: Map<u32, Ty>,
    n: nat,
    p: Set<u32>,
)
    requires
        tidy(expected, env, s, n, p),
        n < u32::MAX,
    ensures
        tidy(fun_ty(fresh(n), expected), env, s, n + 1, p),
        apply(s, fresh(n)) == fresh(n),
        !s.contains_key((n + 1) as u32),
{
    let a = (n + 1) as u32;
    lemma_fresh_avoids(s, n, p, a);
    lemma_apply_var(s, a);
    let t = fun_ty(fresh(n), expected);
    assert forall|u: u32| #[trigger] t.occurs(u) implies avoids(s, u, p) && u <= n + 1 by {
        assert(fresh(n).occurs(u) <==> u == a);
        if u != a {
            assert(expected.occurs(u));
        }
    }
}

/// Inference stands in good order with one more frame in the environment,
/// where the substitution leads to no generalised variable from a free
/// variable of the scheme of the frame.
pub proof fn lemma_tidy_cons(
    expected: Ty,
    env: Seq<(Seq<char>, Scheme)>,
    s: Map<u32, Ty>,
    n: nat,
    p: Set<u32>,
    x: Seq<char>,
    scheme: Scheme,
)
    requires
        tidy(expected, env, s, n, p),
        below(scheme.body, n),
        forall|u: u32| #[trigger] free_in(scheme, u) ==> avoids(s, u, p),
        forall|q: u32| #[trigger]
            scheme.quantified.contains(q) ==> scheme.body.occurs(q) && p.contains(q),
    ensures
        tidy(expected, seq![(x, scheme)] + env, s, n, p),
{
    let longer = seq![(x, scheme)] + env;
    assert forall|v: u32| env_mentions(longer, v) implies v <= n by {
        let i = choose|i: int|
            0 <= i < longer.len() && ((#[trigger] longer[i]).1.body.occurs(v)
                || longer[i].1.quantified.contains(v));
        if i > 0 {
            assert(longer[i] == env[i - 1]);
            assert(env_mentions(env, v));
        }
    }
    assert forall|u: u32| #[trigger] env_free(longer, u) implies avoids(s, u, p) by {
        let i = choose|i: int| 0 <= i < longer.len() && free_in((#[trigger] longer[i]).1, u);
        if i > 0 {
            assert(longer[i] == env[i - 1]);
            assert(env_free(env, u));
        } else {
            assert(free_in(scheme, u));
        }
    }
    assert forall|i: int, q: u32|
        0 <= i < longer.len() && #[trigger] longer[i].1.quantified.contains(
            q,
        ) implies longer[i].1.body.occurs(q) && p.contains(q) by {
        if i > 0 {
            assert(longer[i] == env[i - 1]);
            assert(env[i - 1].1.quantified.contains(q));
        }
    }
}

/// The substitution leaves the quantified variables of the environment
/// alone, where inference stands in good order.
pub proof fn lemma_tidy_sealed(
    expected: Ty,
    env: Seq<(Seq<char>, Scheme)>,
    s: Map<u32, Ty>,
    n: nat,
    p: Set<u32>,
)
    requires
        tidy(expected, env, s, n, p),
    ensures
        env_sealed(s, env),
{
    assert forall|i: int| 0 <= i < env.len() implies sealed(s, (#[trigger] env[i]).1) by {
        let scheme = env[i].1;
        assert forall|q: u32| #[trigger] scheme.quantified.contains(q) implies scheme.body.occurs(
            q,
        ) && !s.contains_key(q) by {
            assert(env[i].1.quantified.contains(q));
        }
        assert forall|u: u32, q: u32|
            #![trigger reach(s, u, q)]
            free_in(scheme, u) && scheme.quantified.contains(q) implies !reach(s, u, q) by {
            assert(env[i].1.quantified.contains(q));
            assert(env_free(env, u));
            assert(avoids(s, u, p));
        }
    }
}

/// The unifier adds only what was in use, keeps the generalised variables
/// out of reach and binds none of them, where the variables of its two
/// types were in use.
pub proof fn lemma_unified_upheld(
    expected: Ty,
    env: Seq<(Seq<char>, Scheme)>,
    s: Map<u32, Ty>,
    n: nat,
    p: Set<u32>,
    t: Ty,
    u: Ty,
)
    requires
        tidy(expected, env, s, n, p),
        unified(t, u, s) is Ok,
        forall|w: u32|
            w <= n && (#[trigger] apply(s, t).occurs(w) || apply(s, u).occurs(w)) ==> live(
                s,
                env,
                expected,
                w,
            ),
    ensures
        adds_in_use(s, unified(t, u, s)->Ok_0, env, expected, n),
        keeps(s, n, p, unified(t, u, s)->Ok_0, p),
        forall|v: u32| #[trigger] p.contains(v) ==> !unified(t, u, s)->Ok_0.contains_key(v),
{
    lemma_unified_adds(t, u, s, env, expected, n);
    lemma_adds_keeps(expected, env, s, n, p, unified(t, u, s)->Ok_0);
}

/// The frame in which an environment binds a name.
pub proof fn lemma_find_index(env: Seq<(Seq<char>, Scheme)>, x: Seq<char>) -> (i: int)
    requires
        find_frame(env, x) is Some,
    ensures
        0 <= i < env.len(),
        env[i].1 == find_frame(env, x)->Some_0,
    decreases env.len(),
{
    if env[0].0 == x {
        0
    } else {
        let rest = env.drop_first();
        let j = lemma_find_index(rest, x);
        assert(rest[j] == env[j + 1]);
        j + 1
    }
}

/// A variable that the generator has handed out, and that occurs in what
/// the substitution makes of an instance of a scheme of the environment,
/// is one that the substitution leads to from a free variable of the
/// environment.
pub proof fn lemma_instance_live(
    s: Map<u32, Ty>,
    env: Seq<(Seq<char>, Scheme)>,
    x: Seq<char>,
    n: nat,
    w: u32,
)
    requires
        acyclic(s),
        sub_below(s, n),
        find_frame(env, x) is Some,
        n + instance_vars(find_frame(env, x)->Some_0).len() <= u32::MAX,
        w <= n,
        apply(s, instantiate(find_frame(env, x)->Some_0, n)).occurs(w),
    ensures
        env_live(s, env, w),
{
    let scheme = find_frame(env, x)->Some_0;
    let order = instance_vars(scheme);
    let f = shift(order, n);
    let v = lemma_reach_from(s, instantiate(scheme, n), w);
    lemma_renamed_scope(scheme.body, f, v);
    let u = choose|u: u32| #[trigger] scheme.body.occurs(u) && f(u) == v;
    lemma_first_seen(scheme.body, scheme.quantified, Seq::empty());
    if order.contains(u) {
        lemma_position_found(order, u);
        assert(v > n);
        if s.contains_key(v) {
            assert(mentions(s, v));
        }
        lemma_reach_unbound(s, v, w);
    } else {
        let i = lemma_find_index(env, x);
        assert(free_in(env[i].1, u));
        assert(0 <= i < env.len() && free_in(env[i].1, u) && reach(s, u, w));
    }
}

/// What is in use under a later substitution was in use before, where the
/// later substitution adds only what was in use and the variables of what
/// the earlier one makes of the new expected type were in use.
pub proof fn lemma_in_use_next(
    s: Map<u32, Ty>,
    s1: Map<u32, Ty>,
    env: Seq<(Seq<char>, Scheme)>,
    expected: Ty,
    n: nat,
    t: Ty,
)
    requires
        acyclic(s),
        acyclic(s1),
        adds_in_use(s, s1, env, expected, n),
        forall|w: u32| w <= n && #[trigger] apply(s, t).occurs(w) ==> live(s, env, expected, w),
    ensures
        in_use_before(s1, env, t, s, env, expected, n),
{
    assert forall|w: u32| w <= n && #[trigger] live(s1, env, t, w) implies live(
        s,
        env,
        expected,
        w,
    ) by {
        if apply(s1, t).occurs(w) {
            lemma_occurs_before(s, s1, env, expected, n, t, w);
        } else {
            lemma_env_live_before(s, s1, env, expected, n, w);
        }
    }
}

/// A variable that a substitution leads to from a free variable of an
/// environment with one more frame: it leads to it from a free variable of
/// the scheme of the frame, which is returned, or from a free variable of
/// the environment.
pub proof fn lemma_env_live_cons(
    s: Map<u32, Ty>,
    env: Seq<(Seq<char>, Scheme)>,
    x: Seq<char>,
    scheme: Scheme,
    w: u32,
) -> (from: Option<u32>)
    requires
        env_live(s, seq![(x, scheme)] + env, w),
    ensures
        match from {
            Some(u) => free_in(scheme, u) && reach(s, u, w),
            None => env_live(s, env, w),
        },
{
    let longer = seq![(x, scheme)] + env;
    let (i, u) = choose|i: int, u: u32|
        #![trigger longer[i], reach(s, u, w)]
        0 <= i < longer.len() && free_in(longer[i].1, u) && reach(s, u, w);
    if i == 0 {
        Some(u)
    } else {
        assert(longer[i] == env[i - 1]);
        assert(0 <= i - 1 < env.len() && free_in(env[i - 1].1, u) && reach(s, u, w));
        None
    }
}

/// The later of two substitutions leads to no variable that is about to be
/// generalised from a variable that the generator had handed out before
/// the earlier one: where the later one leads to such a variable from it,
/// the variable is free in the environment under the later one.
pub proof fn lemma_generalised_apart(
    s: Map<u32, Ty>,
    s1: Map<u32, Ty>,
    env: Seq<(Seq<char>, Scheme)>,
    n: nat,
    u: u32,
    q: u32,
)
    requires
        acyclic(s),
        acyclic(s1),
        refines(s1, s),
        sub_below(s, n),
        n < u32::MAX,
        apply(s, fresh(n)) == fresh(n),
        env_sealed(s1, env),
        adds_in_use(s, s1, env, fresh(n), n),
        u <= n,
        reach(s1, u, q),
        apply(s1, fresh(n)).occurs(q),
    ensures
        env_vars(apply_env(s1, env)).contains(q),
{
    let a = (n + 1) as u32;
    let mid = lemma_reach_through(s1, s, u, q);
    lemma_reach_below(s, n, u, mid);
    assert(reach(s1, mid, q));
    let old = if s1.contains_key(mid) {
        mid
    } else {
        lemma_reach_unbound(s1, mid, q);
        assert(reach(s1, a, q));
        q
    };
    assert(reach(s1, old, q));
    if old == q && reach(s, a, q) {
        assert(fresh(n).occurs(q));
    }
    assert(live(s, env, fresh(n), old));
    assert(!fresh(n).occurs(old));
    let (i, from) = choose|i: int, from: u32|
        #![trigger env[i], reach(s, from, old)]
        0 <= i < env.len() && free_in(env[i].1, from) && reach(s, from, old);
    lemma_reach_on(s1, s, from, old, q);
    lemma_env_vars_into(s1, env, i, from, q);
}

/// Generalising leaves inference in good order: with the generalised
/// variables added to `p` and the new scheme in the environment, the
/// substitution still binds no variable of `p` and leads to none of them
/// from what is in use.
pub proof fn lemma_generalise_tidy(
    expected: Ty,
    env: Seq<(Seq<char>, Scheme)>,
    s: Map<u32, Ty>,
    n: nat,
    p: Set<u32>,
    s1: Map<u32, Ty>,
    n1: nat,
    pa: Set<u32>,
    x: Seq<char>,
)
    requires
        n < u32::MAX,
        tidy(expected, env, s, n, p),
        apply(s, fresh(n)) == fresh(n),
        acyclic(s1),
        refines(s1, s),
        tidy(fun_ty(fresh(n), expected), env, s1, n1, pa),
        adds_in_use(s, s1, env, fresh(n), n),
        keeps(s, n, p, s1, pa),
    ensures
        ({
            let scheme = generalize(apply(s1, fresh(n)), apply_env(s1, env));
            let pb = pa + scheme.quantified;
            &&& env_sealed(s1, env)
            &&& tidy(expected, env, s1, n1, pb)
            &&& tidy(expected, seq![(x, scheme)] + env, s1, n1, pb)
            &&& keeps(s, n, p, s1, pb)
            &&& in_use_before(
                s1,
                seq![(x, scheme)] + env,
                expected,
                s1,
                env,
                expected,
                n,
            )
        }),
{
    let a = fresh(n);
    let whole = fun_ty(a, expected);
    let made = apply(s1, a);
    let scheme = generalize(made, apply_env(s1, env));
    let q = scheme.quantified;
    let pb = pa + q;
    let env1 = seq![(x, scheme)] + env;
    lemma_tidy_sealed(whole, env, s1, n1, pa);
    lemma_apply_clean(s1, a);
    assert(whole.occurs((n + 1) as u32)) by {
        assert(a.occurs((n + 1) as u32));
    }
    assert(below(a, n1)) by {
        assert forall|v: u32| #[trigger] a.occurs(v) implies v <= n1 by {
            assert(whole.occurs(v));
        }
    }
    lemma_apply_below(s1, a, n1);
    assert forall|u: u32, w: u32| u <= n && q.contains(w) implies !#[trigger] reach(
        s1,
        u,
        w,
    ) by {
        if reach(s1, u, w) {
            lemma_generalised_apart(s, s1, env, n, u, w);
        }
    }
    assert forall|u: u32| #[trigger] expected.occurs(u) implies avoids(s1, u, pb) by {
        assert(whole.occurs(u));
        assert(avoids(s1, u, pa));
    }
    assert forall|u: u32| #[trigger] env_free(env, u) implies avoids(s1, u, pb) by {
        let i = choose|i: int| 0 <= i < env.len() && free_in((#[trigger] env[i]).1, u);
        assert(env_mentions(env, u));
        assert(avoids(s1, u, pa));
    }
    assert(tidy(expected, env, s1, n1, pb)) by {
        assert forall|v: u32| #[trigger] expected.occurs(v) implies v <= n1 by {
            assert(whole.occurs(v));
        }
    }
    assert forall|u: u32| #[trigger] free_in(scheme, u) implies avoids(s1, u, pb) by {
        assert(env_vars(apply_env(s1, env)).contains(u));
        let at = lemma_env_vars_from(s1, env, u);
        assert(env_free(env, at.1));
        assert(avoids(s1, at.1, pa));
        assert(reach(s1, at.1, u));
        assert forall|w: u32| #[trigger] reach(s1, u, w) implies !pb.contains(w) by {
            lemma_reach_unbound(s1, u, w);
        }
    }
    lemma_tidy_cons(expected, env, s1, n1, pb, x, scheme);
    assert forall|w: u32| w <= n && #[trigger] live(s1, env1, expected, w) implies live(
        s1,
        env,
        expected,
        w,
    ) by {
        if !apply(s1, expected).occurs(w) {
            match lemma_env_live_cons(s1, env, x, scheme, w) {
                Some(u) => {
                    lemma_reach_unbound(s1, u, w);
                    assert(env_vars(apply_env(s1, env)).contains(u));
                    let at = lemma_env_vars_from(s1, env, u);
                    assert(0 <= at.0 < env.len() && free_in(env[at.0].1, at.1) && reach(
                        s1,
                        at.1,
                        w,
                    ));
                },
                None => {},
            }
        }
    }
}

/// Whether the substitution `other` can stand for the end of a run of
/// inference that has come to the substitution `out`: it is acyclic and
/// refines `out`, binds no generalised variable, and leads to none of them
/// from a variable that `out` leaves unbound and that is not generalised.
pub open spec fn settles(other: Map<u32, Ty>, out: Map<u32, Ty>, n: nat, p: Set<u32>) -> bool {
    &&& acyclic(other)
    &&& refines(other, out)
    &&& forall|v: u32| #[trigger] p.contains(v) ==> !other.contains_key(v)
    &&& keeps(out, n, p, other, p)
}

/// What can stand for the end of a run after a step can do so before the
/// step, where the step keeps the generalised variables out of reach.
pub proof fn lemma_settles_back(
    other: Map<u32, Ty>,
    s1: Map<u32, Ty>,
    n1: nat,
    pa: Set<u32>,
    s2: Map<u32, Ty>,
    n2: nat,
    pb: Set<u32>,
)
    requires
        settles(other, s2, n2, pb),
        acyclic(s2),
        refines(s2, s1),
        sub_below(s2, n2),
        n1 <= n2,
        keeps(s1, n1, pa, s2, pb),
        pa.subset_of(pb),
    ensures
        settles(other, s1, n1, pa),
{
    lemma_refines_trans(other, s2, s1);
    lemma_keeps_then(s1, n1, pa, s2, n2, pb, other, pb);
    assert forall|v: u32, w: u32|
        v <= n1 && !s1.contains_key(v) && !pa.contains(v) && #[trigger] reach(
            other,
            v,
            w,
        ) implies !pa.contains(w) by {
        assert(!pb.contains(w));
    }
}

/// What can stand for the end of a run with more generalised variables
/// can do so with fewer.
pub proof fn lemma_settles_less(
    other: Map<u32, Ty>,
    s1: Map<u32, Ty>,
    n1: nat,
    pa: Set<u32>,
    q: Set<u32>,
)
    requires
        settles(other, s1, n1, pa + q),
    ensures
        settles(other, s1, n1, pa),
{
    let pb = pa + q;
    assert forall|v: u32| #[trigger] pa.contains(v) implies !other.contains_key(v) by {
        assert(pb.contains(v));
    }
    assert forall|v: u32, w: u32|
        v <= n1 && !s1.contains_key(v) && !pa.contains(v) && #[trigger] reach(
            other,
            v,
            w,
        ) implies !pa.contains(w) by {
        if q.contains(v) {
            assert(pb.contains(v));
            lemma_reach_unbound(other, v, w);
        } else {
            assert(!pb.contains(v));
            assert(!pb.contains(w));
        }
    }
}

/// What can stand for the end of a run keeps off the generalised
/// variables, and leaves the quantified variables of the environment
/// alone.
pub proof fn lemma_settles_keeps_off(
    other: Map<u32, Ty>,
    expected: Ty,
    env: Seq<(Seq<char>, Scheme)>,
    s1: Map<u32, Ty>,
    n1: nat,
    p: Set<u32>,
    q: Set<u32>,
)
    requires
        tidy(expected, env, s1, n1, p),
        settles(other, s1, n1, p),
        q.subset_of(p),
    ensures
        keeps_off(other, env, q),
        env_sealed(other, env),
{
    assert forall|u: u32| #[trigger] env_free(env, u) implies avoids(other, u, p) by {
        let i = choose|i: int| 0 <= i < env.len() && free_in((#[trigger] env[i]).1, u);
        assert(env_mentions(env, u));
        lemma_avoids_on(s1, n1, p, other, p, u);
    }
    assert forall|i: int, u: u32, v: u32|
        #![trigger env[i], reach(other, u, v)]
        0 <= i < env.len() && free_in(env[i].1, u) && q.contains(v) implies !reach(
        other,
        u,
        v,
    ) by {
        assert(env_free(env, u));
        assert(avoids(other, u, p));
    }
    assert forall|i: int| 0 <= i < env.len() implies sealed(other, (#[trigger] env[i]).1) by {
        let scheme = env[i].1;
        assert forall|v: u32| #[trigger] scheme.quantified.contains(v) implies scheme.body.occurs(
            v,
        ) && !other.contains_key(v) by {
            assert(env[i].1.quantified.contains(v));
        }
        assert forall|u: u32, v: u32|
            #![trigger reach(other, u, v)]
            free_in(scheme, u) && scheme.quantified.contains(v) implies !reach(other, u, v) by {
            assert(env[i].1.quantified.contains(v));
            assert(env_free(env, u));
            assert(avoids(other, u, p));
        }
    }
}

} // verus!

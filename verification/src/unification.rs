//! The theory of unification: a stack of pairs of types that are still to be
//! made equal, solved one pair at a time by extending a substitution.

use crate::ast::{
    lemma_free_vars_finite, lemma_occurs_arg, lemma_renamed_con, lemma_total_size_elem, total_size,
    Ty,
};
use crate::substitution::{
    acyclic, apply, clean, lemma_apply_clean, lemma_apply_con, lemma_apply_empty, lemma_apply_fixed,
    lemma_apply_fun, lemma_apply_insert, lemma_clean_con, lemma_clean_fun, lemma_insert_refines,
    lemma_refines_self, lemma_refines_trans, lemma_replace_absent, lemma_replace_con,
    lemma_replace_vars, refines, replace,
};
use vstd::prelude::*;
use vstd::set_lib::lemma_len_subset;

verus! {

/// The variables of the pending pairs, as the substitution `s` leaves them.
pub open spec fn pending_vars(w: Seq<(Ty, Ty)>, s: Map<u32, Ty>) -> Set<u32>
    decreases w.len(),
{
    if w.len() == 0 {
        Set::empty()
    } else {
        pending_vars(w.drop_last(), s) + apply(s, w.last().0).free_vars() + apply(
            s,
            w.last().1,
        ).free_vars()
    }
}

/// The size of the pending pairs, as the substitution `s` leaves them.
pub open spec fn pending_size(w: Seq<(Ty, Ty)>, s: Map<u32, Ty>) -> nat
    decreases w.len(),
{
    if w.len() == 0 {
        0
    } else {
        pending_size(w.drop_last(), s) + apply(s, w.last().0).size() + apply(s, w.last().1).size()
    }
}

/// The arguments of two constructors paired up position by position, the
/// first pair on top of the stack.
pub open spec fn pair_up(ls: Seq<Ty>, rs: Seq<Ty>) -> Seq<(Ty, Ty)> {
    Seq::new(ls.len(), |i: int| (ls[ls.len() - 1 - i], rs[ls.len() - 1 - i]))
}

/// The most general substitution that extends `s` and makes the two types of
/// each pair of `w` equal, the top pair (the last one) first; or the pair of
/// types at which this fails.
pub open spec fn solve(w: Seq<(Ty, Ty)>, s: Map<u32, Ty>) -> Result<Map<u32, Ty>, (Ty, Ty)>
    decreases pending_vars(w, s).len(), pending_size(w, s),
    when acyclic(s)
    via solve_decreases
{
    if w.len() == 0 {
        Ok(s)
    } else {
        let rest = w.drop_last();
        let a = apply(s, w.last().0);
        let b = apply(s, w.last().1);
        match (a, b) {
            (Ty::Var(x), _) => {
                if b == a {
                    solve(rest, s)
                } else if b.occurs(x) {
                    Err((a, b))
                } else {
                    solve(rest, s.insert(x, b))
                }
            },
            (_, Ty::Var(y)) => {
                if a.occurs(y) {
                    Err((b, a))
                } else {
                    solve(rest, s.insert(y, a))
                }
            },
            (Ty::Fun(a1, a2), Ty::Fun(b1, b2)) => solve(
                rest.push((*a2, *b2)).push((*a1, *b1)),
                s,
            ),
            (Ty::Con(n, ls), Ty::Con(m, rs)) => {
                if n == m && ls.len() == rs.len() {
                    solve(rest + pair_up(ls, rs), s)
                } else {
                    Err((a, b))
                }
            },
            _ => Err((a, b)),
        }
    }
}

/// The most general substitution that extends `s` and makes `t` and `u`
/// equal, or the pair of types at which no substitution can.
pub open spec fn unify(t: Ty, u: Ty, s: Map<u32, Ty>) -> Result<Map<u32, Ty>, (Ty, Ty)> {
    solve(seq![(t, u)], s)
}

/// A type has at least one node.
pub proof fn lemma_size_positive(t: Ty)
    ensures
        t.size() >= 1,
{
}

/// The pending variables are finitely many.
pub proof fn lemma_pending_finite(w: Seq<(Ty, Ty)>, s: Map<u32, Ty>)
    ensures
        pending_vars(w, s).finite(),
    decreases w.len(),
{
    if w.len() > 0 {
        lemma_pending_finite(w.drop_last(), s);
        lemma_free_vars_finite(apply(s, w.last().0));
        lemma_free_vars_finite(apply(s, w.last().1));
    }
}

/// A pending variable is a variable of one side of a pending pair.
pub proof fn lemma_pending_member(w: Seq<(Ty, Ty)>, s: Map<u32, Ty>, v: u32)
    ensures
        pending_vars(w, s).contains(v) <==> exists|i: int|
            0 <= i < w.len() && (apply(s, (#[trigger] w[i]).0).occurs(v) || apply(
                s,
                w[i].1,
            ).occurs(v)),
    decreases w.len(),
{
    if w.len() > 0 {
        let rest = w.drop_last();
        lemma_pending_member(rest, s, v);
        if pending_vars(w, s).contains(v) {
            if pending_vars(rest, s).contains(v) {
                let i = choose|i: int|
                    0 <= i < rest.len() && (apply(s, (#[trigger] rest[i]).0).occurs(v) || apply(
                        s,
                        rest[i].1,
                    ).occurs(v));
                assert(rest[i] == w[i]);
            } else {
                let i = w.len() - 1;
                assert(apply(s, w[i].0).occurs(v) || apply(s, w[i].1).occurs(v));
            }
        }
        if exists|i: int|
            0 <= i < w.len() && (apply(s, (#[trigger] w[i]).0).occurs(v) || apply(
                s,
                w[i].1,
            ).occurs(v)) {
            let i = choose|i: int|
                0 <= i < w.len() && (apply(s, (#[trigger] w[i]).0).occurs(v) || apply(
                    s,
                    w[i].1,
                ).occurs(v));
            if i < w.len() - 1 {
                assert(rest[i] == w[i]);
            }
        }
    }
}

/// Pushing a pair adds its variables and its size.
pub proof fn lemma_pending_push(w: Seq<(Ty, Ty)>, p: (Ty, Ty), s: Map<u32, Ty>)
    ensures
        pending_vars(w.push(p), s) == pending_vars(w, s) + apply(s, p.0).free_vars() + apply(
            s,
            p.1,
        ).free_vars(),
        pending_size(w.push(p), s) == pending_size(w, s) + apply(s, p.0).size() + apply(
            s,
            p.1,
        ).size(),
{
    assert(w.push(p).drop_last() =~= w);
}

/// The variables and the size of two stacks, one on top of the other.
pub proof fn lemma_pending_append(w1: Seq<(Ty, Ty)>, w2: Seq<(Ty, Ty)>, s: Map<u32, Ty>)
    ensures
        pending_vars(w1 + w2, s) =~= pending_vars(w1, s) + pending_vars(w2, s),
        pending_size(w1 + w2, s) == pending_size(w1, s) + pending_size(w2, s),
    decreases w2.len(),
{
    if w2.len() == 0 {
        assert(w1 + w2 =~= w1);
    } else {
        lemma_pending_append(w1, w2.drop_last(), s);
        assert((w1 + w2).drop_last() =~= w1 + w2.drop_last());
    }
}

/// The size of a sequence of types, counted from its first.
pub proof fn lemma_total_size_first(ts: Seq<Ty>)
    requires
        ts.len() > 0,
    ensures
        total_size(ts) == ts[0].size() + total_size(ts.drop_first()),
    decreases ts.len(),
{
    if ts.len() == 1 {
        assert(ts.drop_last() =~= ts.drop_first());
    } else {
        lemma_total_size_first(ts.drop_last());
        assert(ts.drop_last().drop_first() =~= ts.drop_first().drop_last());
    }
}

/// The size of the paired arguments of two constructors that `s` leaves
/// alone is the size of the arguments.
pub proof fn lemma_pair_up_size(ls: Seq<Ty>, rs: Seq<Ty>, s: Map<u32, Ty>)
    requires
        acyclic(s),
        ls.len() == rs.len(),
        forall|i: int| 0 <= i < ls.len() ==> clean(s, #[trigger] ls[i]),
        forall|i: int| 0 <= i < rs.len() ==> clean(s, #[trigger] rs[i]),
    ensures
        pending_size(pair_up(ls, rs), s) == total_size(ls) + total_size(rs),
    decreases ls.len(),
{
    if ls.len() > 0 {
        let ls1 = ls.drop_first();
        let rs1 = rs.drop_first();
        assert forall|i: int| 0 <= i < ls1.len() implies clean(s, #[trigger] ls1[i]) by {
            assert(ls1[i] == ls[i + 1]);
        }
        assert forall|i: int| 0 <= i < rs1.len() implies clean(s, #[trigger] rs1[i]) by {
            assert(rs1[i] == rs[i + 1]);
        }
        lemma_pair_up_size(ls1, rs1, s);
        assert(pair_up(ls, rs).drop_last() =~= pair_up(ls1, rs1));
        assert(pair_up(ls, rs).last() == (ls[0], rs[0]));
        lemma_apply_fixed(s, ls[0]);
        lemma_apply_fixed(s, rs[0]);
        lemma_total_size_first(ls);
        lemma_total_size_first(rs);
    }
}

/// The variables of the paired arguments of two constructors that `s` leaves
/// alone are the variables of the constructors.
pub proof fn lemma_pair_up_vars(
    n: Seq<char>,
    ls: Seq<Ty>,
    m: Seq<char>,
    rs: Seq<Ty>,
    s: Map<u32, Ty>,
)
    requires
        acyclic(s),
        ls.len() == rs.len(),
        forall|i: int| 0 <= i < ls.len() ==> clean(s, #[trigger] ls[i]),
        forall|i: int| 0 <= i < rs.len() ==> clean(s, #[trigger] rs[i]),
    ensures
        pending_vars(pair_up(ls, rs), s) =~= Ty::Con(n, ls).free_vars() + Ty::Con(
            m,
            rs,
        ).free_vars(),
{
    let w = pair_up(ls, rs);
    let len = ls.len();
    assert forall|v: u32|
        pending_vars(w, s).contains(v) <==> (Ty::Con(n, ls).occurs(v) || Ty::Con(m, rs).occurs(
            v,
        )) by {
        lemma_pending_member(w, s, v);
        if pending_vars(w, s).contains(v) {
            let i = choose|i: int|
                0 <= i < w.len() && (apply(s, (#[trigger] w[i]).0).occurs(v) || apply(
                    s,
                    w[i].1,
                ).occurs(v));
            let k = len - 1 - i;
            lemma_apply_fixed(s, ls[k]);
            lemma_apply_fixed(s, rs[k]);
            if ls[k].occurs(v) {
                lemma_occurs_arg(n, ls, k, v);
            } else {
                lemma_occurs_arg(m, rs, k, v);
            }
        }
        if Ty::Con(n, ls).occurs(v) {
            let k = choose|k: int| 0 <= k < ls.len() && (#[trigger] ls[k]).occurs(v);
            lemma_apply_fixed(s, ls[k]);
            let i = len - 1 - k;
            assert(w[i].0 == ls[k]);
        }
        if Ty::Con(m, rs).occurs(v) {
            let k = choose|k: int| 0 <= k < rs.len() && (#[trigger] rs[k]).occurs(v);
            lemma_apply_fixed(s, rs[k]);
            let i = len - 1 - k;
            assert(w[i].1 == rs[k]);
        }
    }
}

/// Dropping the top pair, once both its sides are the same variable, keeps
/// the variables within bounds and makes the stack smaller.
pub proof fn lemma_step_drop(w: Seq<(Ty, Ty)>, s: Map<u32, Ty>)
    requires
        w.len() > 0,
    ensures
        pending_vars(w.drop_last(), s).len() <= pending_vars(w, s).len(),
        pending_size(w.drop_last(), s) < pending_size(w, s),
        pending_vars(w.drop_last(), s).subset_of(pending_vars(w, s)),
{
    lemma_pending_finite(w, s);
    lemma_len_subset(pending_vars(w.drop_last(), s), pending_vars(w, s));
    lemma_size_positive(apply(s, w.last().0));
}

/// Binding the variable that one side of the top pair has become leaves
/// fewer pending variables.
pub proof fn lemma_step_bind(w: Seq<(Ty, Ty)>, s: Map<u32, Ty>, x: u32, b: Ty)
    requires
        acyclic(s),
        w.len() > 0,
        (apply(s, w.last().0) == Ty::Var(x) && apply(s, w.last().1) == b) || (apply(
            s,
            w.last().1,
        ) == Ty::Var(x) && apply(s, w.last().0) == b),
        !b.occurs(x),
    ensures
        !s.contains_key(x),
        clean(s, b),
        acyclic(s.insert(x, b)),
        pending_vars(w.drop_last(), s.insert(x, b)).len() < pending_vars(w, s).len(),
        pending_vars(w, s).contains(x),
        forall|v: u32| #[trigger] b.occurs(v) ==> pending_vars(w, s).contains(v),
        pending_vars(w.drop_last(), s.insert(x, b)).subset_of(pending_vars(w, s)),
{
    let rest = w.drop_last();
    let s2 = s.insert(x, b);
    lemma_apply_clean(s, w.last().0);
    lemma_apply_clean(s, w.last().1);
    assert(Ty::Var(x).occurs(x));
    lemma_apply_insert(s, x, b, b);
    let before = pending_vars(w, s);
    let after = pending_vars(rest, s2);
    assert(before.contains(x));
    assert forall|v: u32| after.contains(v) implies before.remove(x).contains(v) by {
        lemma_pending_member(rest, s2, v);
        let i = choose|i: int|
            0 <= i < rest.len() && (apply(s2, (#[trigger] rest[i]).0).occurs(v) || apply(
                s2,
                rest[i].1,
            ).occurs(v));
        let t = if apply(s2, rest[i].0).occurs(v) {
            rest[i].0
        } else {
            rest[i].1
        };
        lemma_apply_insert(s, x, b, t);
        lemma_replace_vars(x, b, apply(s, t), v);
        lemma_pending_member(rest, s, v);
        if apply(s, t).occurs(v) && v != x {
            assert(apply(s, rest[i].0).occurs(v) || apply(s, rest[i].1).occurs(v));
            assert(pending_vars(rest, s).contains(v));
        }
    }
    lemma_pending_finite(w, s);
    lemma_len_subset(after, before.remove(x));
}

/// Replacing a pair of function types on top of the stack by the pairs of
/// their sides keeps the pending variables and makes the stack smaller.
pub proof fn lemma_step_fun(w: Seq<(Ty, Ty)>, s: Map<u32, Ty>, a1: Ty, a2: Ty, b1: Ty, b2: Ty)
    requires
        acyclic(s),
        w.len() > 0,
        apply(s, w.last().0) == Ty::Fun(Box::new(a1), Box::new(a2)),
        apply(s, w.last().1) == Ty::Fun(Box::new(b1), Box::new(b2)),
    ensures
        pending_vars(w.drop_last().push((a2, b2)).push((a1, b1)), s) == pending_vars(w, s),
        pending_size(w.drop_last().push((a2, b2)).push((a1, b1)), s) < pending_size(w, s),
{
    let rest = w.drop_last();
    lemma_apply_clean(s, w.last().0);
    lemma_apply_clean(s, w.last().1);
    lemma_clean_fun(s, a1, a2);
    lemma_clean_fun(s, b1, b2);
    lemma_apply_fixed(s, a1);
    lemma_apply_fixed(s, a2);
    lemma_apply_fixed(s, b1);
    lemma_apply_fixed(s, b2);
    lemma_pending_push(rest, (a2, b2), s);
    lemma_pending_push(rest.push((a2, b2)), (a1, b1), s);
    assert(pending_vars(rest.push((a2, b2)).push((a1, b1)), s) =~= pending_vars(w, s));
}

/// Replacing a pair of like constructors on top of the stack by the pairs of
/// their arguments keeps the pending variables and makes the stack smaller.
pub proof fn lemma_step_con(
    w: Seq<(Ty, Ty)>,
    s: Map<u32, Ty>,
    n: Seq<char>,
    ls: Seq<Ty>,
    m: Seq<char>,
    rs: Seq<Ty>,
)
    requires
        acyclic(s),
        w.len() > 0,
        apply(s, w.last().0) == Ty::Con(n, ls),
        apply(s, w.last().1) == Ty::Con(m, rs),
        ls.len() == rs.len(),
    ensures
        pending_vars(w.drop_last() + pair_up(ls, rs), s) == pending_vars(w, s),
        pending_size(w.drop_last() + pair_up(ls, rs), s) < pending_size(w, s),
{
    let rest = w.drop_last();
    lemma_apply_clean(s, w.last().0);
    lemma_apply_clean(s, w.last().1);
    lemma_clean_con(s, n, ls);
    lemma_clean_con(s, m, rs);
    lemma_pair_up_size(ls, rs, s);
    lemma_pair_up_vars(n, ls, m, rs, s);
    lemma_pending_append(rest, pair_up(ls, rs), s);
    assert(pending_vars(rest + pair_up(ls, rs), s) =~= pending_vars(w, s));
}

#[via_fn]
proof fn solve_decreases(w: Seq<(Ty, Ty)>, s: Map<u32, Ty>) {
    if w.len() > 0 {
        let rest = w.drop_last();
        let a = apply(s, w.last().0);
        let b = apply(s, w.last().1);
        match (a, b) {
            (Ty::Var(x), _) => {
                if b == a {
                    lemma_step_drop(w, s);
                } else if !b.occurs(x) {
                    lemma_step_bind(w, s, x, b);
                }
            },
            (_, Ty::Var(y)) => {
                if !a.occurs(y) {
                    lemma_step_bind(w, s, y, a);
                }
            },
            (Ty::Fun(a1, a2), Ty::Fun(b1, b2)) => {
                lemma_step_fun(w, s, *a1, *a2, *b1, *b2);
            },
            (Ty::Con(n, ls), Ty::Con(m, rs)) => {
                if n == m && ls.len() == rs.len() {
                    lemma_step_con(w, s, n, ls, m, rs);
                }
            },
            _ => {},
        }
    }
}

/// The substitution `s` makes the two types of each pair of `w` equal.
pub open spec fn solves(s: Map<u32, Ty>, w: Seq<(Ty, Ty)>) -> bool {
    forall|i: int| 0 <= i < w.len() ==> apply(s, (#[trigger] w[i]).0) == apply(s, w[i].1)
}

/// A substitution that makes the arguments of two constructors of one name
/// equal, pair by pair, makes the constructors equal.
pub proof fn lemma_solves_con(r: Map<u32, Ty>, n: Seq<char>, ls: Seq<Ty>, rs: Seq<Ty>)
    requires
        acyclic(r),
        ls.len() == rs.len(),
        solves(r, pair_up(ls, rs)),
    ensures
        apply(r, Ty::Con(n, ls)) == apply(r, Ty::Con(n, rs)),
{
    lemma_apply_con(r, n, ls);
    lemma_apply_con(r, n, rs);
    let left = apply(r, Ty::Con(n, ls))->Con_1;
    let right = apply(r, Ty::Con(n, rs))->Con_1;
    let w = pair_up(ls, rs);
    assert forall|i: int| 0 <= i < ls.len() implies left[i] == right[i] by {
        let k = ls.len() - 1 - i;
        assert(w[k] == (ls[i], rs[i]));
    }
    assert(left =~= right);
}

/// What `solve` returns extends the substitution it started from and makes
/// the two types of every pending pair equal.
pub proof fn lemma_solve_sound(w: Seq<(Ty, Ty)>, s: Map<u32, Ty>)
    requires
        acyclic(s),
        solve(w, s) is Ok,
    ensures
        acyclic(solve(w, s)->Ok_0),
        refines(solve(w, s)->Ok_0, s),
        solves(solve(w, s)->Ok_0, w),
    decreases pending_vars(w, s).len(), pending_size(w, s),
{
    let r = solve(w, s)->Ok_0;
    if w.len() == 0 {
        lemma_refines_self(s);
    } else {
        let rest = w.drop_last();
        let t1 = w.last().0;
        let t2 = w.last().1;
        let a = apply(s, t1);
        let b = apply(s, t2);
        match (a, b) {
            (Ty::Var(x), _) => {
                if b == a {
                    lemma_step_drop(w, s);
                    lemma_solve_sound(rest, s);
                } else {
                    lemma_step_bind(w, s, x, b);
                    let s2 = s.insert(x, b);
                    lemma_solve_sound(rest, s2);
                    lemma_insert_refines(s, x, b);
                    lemma_refines_trans(r, s2, s);
                    lemma_apply_insert(s, x, b, t1);
                    lemma_apply_insert(s, x, b, t2);
                    lemma_replace_absent(x, b, b);
                    assert(apply(s2, t1) == b);
                    assert(apply(s2, t2) == b);
                    assert(apply(r, apply(s2, t1)) == apply(r, t1));
                    assert(apply(r, apply(s2, t2)) == apply(r, t2));
                }
            },
            (_, Ty::Var(y)) => {
                lemma_step_bind(w, s, y, a);
                let s2 = s.insert(y, a);
                lemma_solve_sound(rest, s2);
                lemma_insert_refines(s, y, a);
                lemma_refines_trans(r, s2, s);
                lemma_apply_insert(s, y, a, t1);
                lemma_apply_insert(s, y, a, t2);
                lemma_replace_absent(y, a, a);
                assert(apply(s2, t1) == a);
                assert(apply(s2, t2) == a);
                assert(apply(r, apply(s2, t1)) == apply(r, t1));
                assert(apply(r, apply(s2, t2)) == apply(r, t2));
            },
            (Ty::Fun(a1, a2), Ty::Fun(b1, b2)) => {
                lemma_step_fun(w, s, *a1, *a2, *b1, *b2);
                let w2 = rest.push((*a2, *b2)).push((*a1, *b1));
                lemma_solve_sound(w2, s);
                assert(w2[rest.len() as int] == (*a2, *b2));
                assert(w2[rest.len() as int + 1] == (*a1, *b1));
                assert(apply(r, *a1) == apply(r, *b1));
                assert(apply(r, *a2) == apply(r, *b2));
                assert(apply(r, a) == apply(r, b));
                assert forall|i: int| 0 <= i < rest.len() implies apply(r, (#[trigger] rest[i]).0)
                    == apply(r, rest[i].1) by {
                    assert(w2[i] == rest[i]);
                }
            },
            (Ty::Con(n, ls), Ty::Con(m, rs)) => {
                lemma_step_con(w, s, n, ls, m, rs);
                let w2 = rest + pair_up(ls, rs);
                lemma_solve_sound(w2, s);
                assert forall|i: int| 0 <= i < ls.len() implies apply(
                    r,
                    (#[trigger] pair_up(ls, rs)[i]).0,
                ) == apply(r, pair_up(ls, rs)[i].1) by {
                    assert(w2[rest.len() as int + i] == pair_up(ls, rs)[i]);
                }
                lemma_solves_con(r, n, ls, rs);
                assert(apply(r, a) == apply(r, b));
                assert forall|i: int| 0 <= i < rest.len() implies apply(r, (#[trigger] rest[i]).0)
                    == apply(r, rest[i].1) by {
                    assert(w2[i] == rest[i]);
                }
            },
            _ => {},
        }
        assert(apply(r, a) == apply(r, b));
        assert(apply(r, apply(s, t1)) == apply(r, t1));
        assert(apply(r, apply(s, t2)) == apply(r, t2));
        assert forall|i: int| 0 <= i < w.len() implies apply(r, (#[trigger] w[i]).0) == apply(
            r,
            w[i].1,
        ) by {
            if i < rest.len() {
                assert(rest[i] == w[i]);
            }
        }
    }
}

/// Replacing a variable by a type changes nothing under a substitution that
/// makes the two equal.
pub proof fn lemma_apply_replace(u: Map<u32, Ty>, x: u32, b: Ty, t: Ty)
    requires
        acyclic(u),
        apply(u, Ty::Var(x)) == apply(u, b),
    ensures
        apply(u, replace(x, b, t)) == apply(u, t),
    decreases t,
{
    match t {
        Ty::Var(v) => {},
        Ty::Fun(l, r) => {
            lemma_apply_replace(u, x, b, *l);
            lemma_apply_replace(u, x, b, *r);
        },
        Ty::Con(name, args) => {
            lemma_replace_con(x, b, name, args);
            let mid = replace(x, b, t)->Con_1;
            lemma_apply_con(u, name, mid);
            lemma_apply_con(u, name, args);
            let left = apply(u, replace(x, b, t))->Con_1;
            let right = apply(u, t)->Con_1;
            assert forall|i: int| 0 <= i < args.len() implies left[i] == right[i] by {
                lemma_apply_replace(u, x, b, args[i]);
            }
            assert(left =~= right);
        },
    }
}

/// Under any substitution, a type is at least as large as each of its
/// variables, and larger unless it is that variable.
pub proof fn lemma_occurs_size(u: Map<u32, Ty>, t: Ty, x: u32)
    requires
        acyclic(u),
        t.occurs(x),
    ensures
        apply(u, t).size() >= apply(u, Ty::Var(x)).size(),
        t != Ty::Var(x) ==> apply(u, t).size() > apply(u, Ty::Var(x)).size(),
    decreases t,
{
    match t {
        Ty::Var(v) => {},
        Ty::Fun(l, r) => {
            if l.occurs(x) {
                lemma_occurs_size(u, *l, x);
            } else {
                lemma_occurs_size(u, *r, x);
            }
        },
        Ty::Con(name, args) => {
            lemma_apply_con(u, name, args);
            let out = apply(u, t)->Con_1;
            let i = choose|i: int| 0 <= i < args.len() && (#[trigger] args[i]).occurs(x);
            lemma_occurs_size(u, args[i], x);
            lemma_total_size_elem(out, i);
        },
    }
}

/// A substitution that refines `s` and makes `x` and `b` equal refines `s`
/// with `x` bound to `b`.
pub proof fn lemma_refines_insert(u: Map<u32, Ty>, s: Map<u32, Ty>, x: u32, b: Ty)
    requires
        acyclic(u),
        acyclic(s),
        refines(u, s),
        !s.contains_key(x),
        clean(s, b),
        !b.occurs(x),
        apply(u, Ty::Var(x)) == apply(u, b),
    ensures
        refines(u, s.insert(x, b)),
{
    let s2 = s.insert(x, b);
    assert forall|t: Ty| apply(u, #[trigger] apply(s2, t)) == apply(u, t) by {
        lemma_apply_insert(s, x, b, t);
        lemma_apply_replace(u, x, b, apply(s, t));
    }
}

/// Whenever some substitution that refines `s` makes the two types of every
/// pending pair equal, `solve` succeeds, and that substitution refines what
/// `solve` returns: no unifier is more general.
pub proof fn lemma_solve_complete(w: Seq<(Ty, Ty)>, s: Map<u32, Ty>, u: Map<u32, Ty>)
    requires
        acyclic(s),
        acyclic(u),
        refines(u, s),
        solves(u, w),
    ensures
        solve(w, s) is Ok,
        refines(u, solve(w, s)->Ok_0),
    decreases pending_vars(w, s).len(), pending_size(w, s),
{
    if w.len() > 0 {
        let rest = w.drop_last();
        let t1 = w.last().0;
        let t2 = w.last().1;
        let a = apply(s, t1);
        let b = apply(s, t2);
        assert(apply(u, w[w.len() - 1].0) == apply(u, w[w.len() - 1].1));
        assert(apply(u, a) == apply(u, t1));
        assert(apply(u, b) == apply(u, t2));
        assert(apply(u, a) == apply(u, b));
        assert forall|i: int| 0 <= i < rest.len() implies apply(u, (#[trigger] rest[i]).0)
            == apply(u, rest[i].1) by {
            assert(rest[i] == w[i]);
        }
        match (a, b) {
            (Ty::Var(x), _) => {
                if b == a {
                    lemma_step_drop(w, s);
                    lemma_solve_complete(rest, s, u);
                } else {
                    if b.occurs(x) {
                        lemma_occurs_size(u, b, x);
                    }
                    lemma_step_bind(w, s, x, b);
                    lemma_refines_insert(u, s, x, b);
                    lemma_solve_complete(rest, s.insert(x, b), u);
                }
            },
            (_, Ty::Var(y)) => {
                if a.occurs(y) {
                    lemma_occurs_size(u, a, y);
                }
                lemma_step_bind(w, s, y, a);
                lemma_refines_insert(u, s, y, a);
                lemma_solve_complete(rest, s.insert(y, a), u);
            },
            (Ty::Fun(a1, a2), Ty::Fun(b1, b2)) => {
                lemma_step_fun(w, s, *a1, *a2, *b1, *b2);
                let w2 = rest.push((*a2, *b2)).push((*a1, *b1));
                assert(apply(u, *a1) == apply(u, *b1));
                assert(apply(u, *a2) == apply(u, *b2));
                assert forall|i: int| 0 <= i < w2.len() implies apply(u, (#[trigger] w2[i]).0)
                    == apply(u, w2[i].1) by {
                    if i < rest.len() {
                        assert(w2[i] == rest[i]);
                    }
                }
                lemma_solve_complete(w2, s, u);
            },
            (Ty::Con(n, ls), Ty::Con(m, rs)) => {
                lemma_apply_con(u, n, ls);
                lemma_apply_con(u, m, rs);
                let left = apply(u, a)->Con_1;
                let right = apply(u, b)->Con_1;
                assert(left == right);
                lemma_step_con(w, s, n, ls, m, rs);
                let w2 = rest + pair_up(ls, rs);
                assert forall|i: int| 0 <= i < w2.len() implies apply(u, (#[trigger] w2[i]).0)
                    == apply(u, w2[i].1) by {
                    if i < rest.len() {
                        assert(w2[i] == rest[i]);
                    } else {
                        let k = ls.len() - 1 - (i - rest.len());
                        assert(w2[i] == (ls[k], rs[k]));
                        assert(left[k] == apply(u, ls[k]));
                        assert(right[k] == apply(u, rs[k]));
                    }
                }
                lemma_solve_complete(w2, s, u);
            },
            (Ty::Fun(a1, a2), Ty::Con(m, rs)) => {
                lemma_apply_con(u, m, rs);
            },
            (Ty::Con(n, ls), Ty::Fun(b1, b2)) => {
                lemma_apply_con(u, n, ls);
            },
        }
    }
}

/// Unification does not depend on the order of its two arguments: where it
/// succeeds for `t` and `u` it succeeds for `u` and `t`, both results make
/// `t` and `u` equal, and each result refines the other, so that what the
/// two make of any type differs by a renaming of variables only.
pub proof fn lemma_unify_symmetric(t: Ty, u: Ty)
    requires
        unify(t, u, Map::empty()) is Ok,
    ensures
        unify(u, t, Map::empty()) is Ok,
        ({
            let s = unify(t, u, Map::empty())->Ok_0;
            let r = unify(u, t, Map::empty())->Ok_0;
            &&& acyclic(s)
            &&& acyclic(r)
            &&& apply(s, t) == apply(s, u)
            &&& apply(r, t) == apply(r, u)
            &&& refines(s, r)
            &&& refines(r, s)
        }),
{
    let none = Map::<u32, Ty>::empty();
    lemma_apply_empty(t);
    let w = seq![(t, u)];
    let v = seq![(u, t)];
    let s = unify(t, u, none)->Ok_0;
    lemma_solve_sound(w, none);
    assert(apply(s, w[0].0) == apply(s, w[0].1));
    assert forall|i: int| 0 <= i < v.len() implies apply(s, (#[trigger] v[i]).0) == apply(
        s,
        v[i].1,
    ) by {}
    lemma_solve_complete(v, none, s);
    let r = unify(u, t, none)->Ok_0;
    lemma_solve_sound(v, none);
    assert(apply(r, v[0].0) == apply(r, v[0].1));
    assert forall|i: int| 0 <= i < w.len() implies apply(r, (#[trigger] w[i]).0) == apply(
        r,
        w[i].1,
    ) by {}
    lemma_solve_complete(w, none, r);
}

/// Unification extends the substitution it is given and makes the two types
/// equal.
pub proof fn lemma_unify_sound(t: Ty, u: Ty, s: Map<u32, Ty>)
    requires
        acyclic(s),
        unify(t, u, s) is Ok,
    ensures
        acyclic(unify(t, u, s)->Ok_0),
        refines(unify(t, u, s)->Ok_0, s),
        apply(unify(t, u, s)->Ok_0, t) == apply(unify(t, u, s)->Ok_0, u),
{
    let w = seq![(t, u)];
    lemma_solve_sound(w, s);
    let r = unify(t, u, s)->Ok_0;
    assert(apply(r, w[0].0) == apply(r, w[0].1));
}

/// The occurs check: no variable unifies with a type that holds it and is
/// not the variable itself.
pub proof fn lemma_occurs_check(a: u32, t: Ty)
    requires
        t.occurs(a),
        t != Ty::Var(a),
    ensures
        unify(Ty::Var(a), t, Map::empty()) == Err::<Map<u32, Ty>, (Ty, Ty)>((Ty::Var(a), t)),
{
    let none = Map::<u32, Ty>::empty();
    lemma_apply_empty(t);
    lemma_apply_empty(Ty::Var(a));
    let w = seq![(Ty::Var(a), t)];
    assert(w.last() == (Ty::Var(a), t));
}

/// A variable does not unify with a function type from that variable.
pub proof fn lemma_occurs_check_fun(a: u32, b: u32)
    ensures
        unify(
            Ty::Var(a),
            Ty::Fun(Box::new(Ty::Var(a)), Box::new(Ty::Var(b))),
            Map::empty(),
        ) is Err,
{
    let t = Ty::Fun(Box::new(Ty::Var(a)), Box::new(Ty::Var(b)));
    assert(Ty::Var(a).occurs(a));
    lemma_occurs_check(a, t);
}

/// Solving a stack amounts to solving its upper part and then, from what
/// that returns, its lower part.
pub proof fn lemma_solve_split(w1: Seq<(Ty, Ty)>, w2: Seq<(Ty, Ty)>, s: Map<u32, Ty>)
    requires
        acyclic(s),
    ensures
        solve(w1 + w2, s) == match solve(w2, s) {
            Ok(s1) => solve(w1, s1),
            Err(e) => Err(e),
        },
    decreases pending_vars(w2, s).len(), pending_size(w2, s),
{
    let w = w1 + w2;
    if w2.len() == 0 {
        assert(w =~= w1);
    } else {
        let rest = w2.drop_last();
        assert(w.last() == w2.last());
        assert(w.drop_last() =~= w1 + rest);
        let a = apply(s, w2.last().0);
        let b = apply(s, w2.last().1);
        match (a, b) {
            (Ty::Var(x), _) => {
                if b == a {
                    lemma_step_drop(w2, s);
                    lemma_solve_split(w1, rest, s);
                } else if !b.occurs(x) {
                    lemma_step_bind(w2, s, x, b);
                    lemma_solve_split(w1, rest, s.insert(x, b));
                }
            },
            (_, Ty::Var(y)) => {
                if !a.occurs(y) {
                    lemma_step_bind(w2, s, y, a);
                    lemma_solve_split(w1, rest, s.insert(y, a));
                }
            },
            (Ty::Fun(a1, a2), Ty::Fun(b1, b2)) => {
                lemma_step_fun(w2, s, *a1, *a2, *b1, *b2);
                let top = rest.push((*a2, *b2)).push((*a1, *b1));
                assert((w1 + rest).push((*a2, *b2)).push((*a1, *b1)) =~= w1 + top);
                lemma_solve_split(w1, top, s);
            },
            (Ty::Con(n, ls), Ty::Con(m, rs)) => {
                if n == m && ls.len() == rs.len() {
                    lemma_step_con(w2, s, n, ls, m, rs);
                    let top = rest + pair_up(ls, rs);
                    assert((w1 + rest) + pair_up(ls, rs) =~= w1 + top);
                    lemma_solve_split(w1, top, s);
                }
            },
            _ => {},
        }
    }
}

/// The types of `ls` and `rs` unified pair by pair, from the first pair to
/// the last, each from the substitution that the pair before it gave.
pub open spec fn unify_all(ls: Seq<Ty>, rs: Seq<Ty>, s: Map<u32, Ty>) -> Result<
    Map<u32, Ty>,
    (Ty, Ty),
>
    decreases ls.len(),
{
    if ls.len() == 0 {
        Ok(s)
    } else {
        match unify(ls[0], rs[0], s) {
            Ok(s1) => unify_all(ls.drop_first(), rs.drop_first(), s1),
            Err(e) => Err(e),
        }
    }
}

/// Solving the paired arguments of two constructors unifies them pair by
/// pair, from the first to the last.
pub proof fn lemma_solve_pairs(ls: Seq<Ty>, rs: Seq<Ty>, s: Map<u32, Ty>)
    requires
        acyclic(s),
        ls.len() == rs.len(),
    ensures
        solve(pair_up(ls, rs), s) == unify_all(ls, rs, s),
    decreases ls.len(),
{
    if ls.len() > 0 {
        let top = seq![(ls[0], rs[0])];
        let below = pair_up(ls.drop_first(), rs.drop_first());
        assert(pair_up(ls, rs) =~= below + top);
        lemma_solve_split(below, top, s);
        if solve(top, s) is Ok {
            lemma_solve_sound(top, s);
            lemma_solve_pairs(ls.drop_first(), rs.drop_first(), solve(top, s)->Ok_0);
        }
    }
}

/// Unification case by case, on what the substitution makes of the two
/// types: a variable against itself changes nothing; a variable against
/// another type is bound to it unless it occurs in it; two function types
/// are unified side by side, and two constructors of one name and one number
/// of arguments argument by argument; nothing else unifies.
pub proof fn lemma_unify_cases(t: Ty, u: Ty, s: Map<u32, Ty>)
    requires
        acyclic(s),
    ensures
        unify(t, u, s) == match (apply(s, t), apply(s, u)) {
            (Ty::Var(x), b) => if b == Ty::Var(x) {
                Ok(s)
            } else if b.occurs(x) {
                Err((Ty::Var(x), b))
            } else {
                Ok(s.insert(x, b))
            },
            (a, Ty::Var(y)) => if a.occurs(y) {
                Err((Ty::Var(y), a))
            } else {
                Ok(s.insert(y, a))
            },
            (Ty::Fun(a1, a2), Ty::Fun(b1, b2)) => match unify(*a1, *b1, s) {
                Ok(s1) => unify(*a2, *b2, s1),
                Err(e) => Err(e),
            },
            (Ty::Con(n, ls), Ty::Con(m, rs)) => if n == m && ls.len() == rs.len() {
                unify_all(ls, rs, s)
            } else {
                Err((Ty::Con(n, ls), Ty::Con(m, rs)))
            },
            (a, b) => Err((a, b)),
        },
{
    let w = seq![(t, u)];
    let none = Seq::<(Ty, Ty)>::empty();
    assert(w.last() == (t, u));
    assert(w.drop_last() =~= none);
    let a = apply(s, t);
    let b = apply(s, u);
    match (a, b) {
        (Ty::Var(x), _) => {
            if b == a {
                assert(solve(none, s) == Ok::<Map<u32, Ty>, (Ty, Ty)>(s));
            } else if !b.occurs(x) {
                lemma_step_bind(w, s, x, b);
                assert(solve(none, s.insert(x, b)) == Ok::<Map<u32, Ty>, (Ty, Ty)>(
                    s.insert(x, b),
                ));
            }
        },
        (_, Ty::Var(y)) => {
            if !a.occurs(y) {
                lemma_step_bind(w, s, y, a);
                assert(solve(none, s.insert(y, a)) == Ok::<Map<u32, Ty>, (Ty, Ty)>(
                    s.insert(y, a),
                ));
            }
        },
        (Ty::Fun(a1, a2), Ty::Fun(b1, b2)) => {
            let low = seq![(*a2, *b2)];
            let top = seq![(*a1, *b1)];
            assert(none.push((*a2, *b2)).push((*a1, *b1)) =~= low + top);
            lemma_solve_split(low, top, s);
        },
        (Ty::Con(n, ls), Ty::Con(m, rs)) => {
            if n == m && ls.len() == rs.len() {
                assert(none + pair_up(ls, rs) =~= pair_up(ls, rs));
                lemma_solve_pairs(ls, rs, s);
            }
        },
        _ => {},
    }
}

/// Unification returns a most general unifier: every substitution that
/// refines `s` and makes `t` and `u` equal refines what unification returns,
/// which therefore binds no variable that it need not bind.
pub proof fn lemma_unify_most_general(t: Ty, u: Ty, s: Map<u32, Ty>, other: Map<u32, Ty>)
    requires
        acyclic(s),
        acyclic(other),
        refines(other, s),
        apply(other, t) == apply(other, u),
    ensures
        unify(t, u, s) is Ok,
        refines(other, unify(t, u, s)->Ok_0),
{
    let w = seq![(t, u)];
    assert forall|i: int| 0 <= i < w.len() implies apply(other, (#[trigger] w[i]).0) == apply(
        other,
        w[i].1,
    ) by {}
    lemma_solve_complete(w, s, other);
}

/// The variable that the substitution `r` makes of the variable `v`, where
/// it makes a variable of it.
pub open spec fn image(r: Map<u32, Ty>, v: u32) -> u32 {
    match apply(r, Ty::Var(v)) {
        Ty::Var(w) => w,
        _ => v,
    }
}

/// The renaming that sends each variable to its image under `r`.
pub open spec fn images(r: Map<u32, Ty>) -> spec_fn(u32) -> u32 {
    |v: u32| image(r, v)
}

/// Where a substitution undoes on a type what another one did to it, the
/// other one only renamed the variables of the type, and the first one
/// sends each of them back.
pub proof fn lemma_undone_renames(s: Map<u32, Ty>, r: Map<u32, Ty>, t: Ty)
    requires
        acyclic(s),
        acyclic(r),
        apply(s, apply(r, t)) == t,
    ensures
        apply(r, t) == t.renamed(images(r)),
        forall|v: u32| #[trigger] t.occurs(v) ==> apply(s, Ty::Var(image(r, v))) == Ty::Var(v),
    decreases t,
{
    match t {
        Ty::Var(v) => {
            match apply(r, t) {
                Ty::Var(w) => {
                    assert(image(r, v) == w);
                },
                Ty::Fun(x, y) => {
                    lemma_apply_fun(s, *x, *y);
                },
                Ty::Con(n, args) => {
                    lemma_apply_con(s, n, args);
                },
            }
            assert(t.renamed(images(r)) == Ty::Var(image(r, v)));
        },
        Ty::Fun(x, y) => {
            lemma_apply_fun(r, *x, *y);
            lemma_apply_fun(s, apply(r, *x), apply(r, *y));
            lemma_undone_renames(s, r, *x);
            lemma_undone_renames(s, r, *y);
            assert forall|v: u32| #[trigger] t.occurs(v) implies apply(
                s,
                Ty::Var(image(r, v)),
            ) == Ty::Var(v) by {
                assert(x.occurs(v) || y.occurs(v));
            }
        },
        Ty::Con(n, args) => {
            lemma_apply_con(r, n, args);
            let mid = apply(r, t)->Con_1;
            lemma_apply_con(s, n, mid);
            let back = apply(s, apply(r, t))->Con_1;
            lemma_renamed_con(images(r), n, args);
            let out = t.renamed(images(r))->Con_1;
            assert forall|i: int| 0 <= i < args.len() implies mid[i] == out[i] by {
                assert(back[i] == args[i]);
                lemma_undone_renames(s, r, args[i]);
            }
            assert(mid =~= out);
            assert forall|v: u32| #[trigger] t.occurs(v) implies apply(
                s,
                Ty::Var(image(r, v)),
            ) == Ty::Var(v) by {
                let i = choose|i: int| 0 <= i < args.len() && (#[trigger] args[i]).occurs(v);
                assert(back[i] == args[i]);
                lemma_undone_renames(s, r, args[i]);
            }
        },
    }
}

/// Two types of which each is what a substitution makes of the other are
/// alike: they differ in the names of their variables only.
pub proof fn lemma_instances_alike(s: Map<u32, Ty>, r: Map<u32, Ty>, t: Ty)
    requires
        acyclic(s),
        acyclic(r),
        apply(s, apply(r, t)) == t,
    ensures
        t.alike(apply(r, t)),
{
    lemma_undone_renames(s, r, t);
    let f = images(r);
    assert forall|v: u32, w: u32|
        #![trigger t.occurs(v), t.occurs(w)]
        t.occurs(v) && t.occurs(w) && f(v) == f(w) implies v == w by {
        assert(apply(s, Ty::Var(image(r, v))) == Ty::Var(v));
        assert(apply(s, Ty::Var(image(r, w))) == Ty::Var(w));
    }
    assert(t.told_apart_by(f) && t.renamed(f) == apply(r, t));
}

/// Unification does not depend on the order of its two arguments: where it
/// succeeds for `t` and `u` it succeeds for `u` and `t`, and what the two
/// results make of `t`, and of `u`, differs in the names of the variables
/// only.
pub proof fn lemma_unify_symmetric_alike(t: Ty, u: Ty)
    requires
        unify(t, u, Map::empty()) is Ok,
    ensures
        unify(u, t, Map::empty()) is Ok,
        apply(unify(t, u, Map::empty())->Ok_0, t).alike(apply(unify(u, t, Map::empty())->Ok_0, t)),
        apply(unify(t, u, Map::empty())->Ok_0, u).alike(apply(unify(u, t, Map::empty())->Ok_0, u)),
{
    lemma_unify_symmetric(t, u);
    let s = unify(t, u, Map::empty())->Ok_0;
    let r = unify(u, t, Map::empty())->Ok_0;
    let a = apply(s, t);
    assert(apply(r, a) == apply(r, t));
    assert(apply(s, apply(r, t)) == apply(s, t));
    lemma_instances_alike(s, r, a);
}

} // verus!

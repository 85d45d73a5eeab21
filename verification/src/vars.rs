//! Operations on the variables of types: collecting them into sets and
//! lists, and renaming them.

use crate::ast::{PrimitiveType, Ty};
use crate::typing::{first_seen, first_seen_all, position, rename};
use std::collections::HashSet;
use vstd::prelude::*;

verus! {

broadcast use vstd::std_specs::hash::group_hash_axioms;

/// A copy of a set of type variables.
pub fn copy_vars(vars: &HashSet<u32>) -> (copy: HashSet<u32>)
    ensures
        copy@ == vars@,
{
    let mut copy: HashSet<u32> = HashSet::new();
    for v in it: vars.iter()
        invariant
            it.seq().unref().to_set() == vars@,
            forall|x: u32|
                copy@.contains(x) <==> exists|j: int|
                    0 <= j < it.index() && *(#[trigger] it.seq()[j]) == x,
            it.index() == it.seq().len() ==> copy@ == vars@,
    {
        copy.insert(*v);
        assert(it.index() + 1 == it.seq().len() ==> copy@ =~= vars@) by {
            assert forall|x: u32| it.index() + 1 == it.seq().len() implies (copy@.contains(x)
                <==> vars@.contains(x)) by {
                if copy@.contains(x) {
                    let j = choose|j: int|
                        0 <= j < it.index() + 1 && *(#[trigger] it.seq()[j]) == x;
                    assert(it.seq().unref()[j] == x);
                    assert(it.seq().unref().to_set().contains(x));
                }
                if vars@.contains(x) {
                    assert(it.seq().unref().to_set().contains(x));
                    let j = choose|j: int|
                        0 <= j < it.seq().unref().len() && it.seq().unref()[j] == x;
                    assert(*it.seq()[j] == x);
                }
            }
        }
    }
    copy
}

/// The variables of the first `n` types of `ts` that are not in `skip`.
pub open spec fn vars_upto_except(ts: Seq<Ty>, n: int, skip: Set<u32>) -> Set<u32> {
    Set::new(
        |v: u32|
            !skip.contains(v) && exists|i: int|
                0 <= i < n && i < ts.len() && (#[trigger] ts[i]).occurs(v),
    )
}

/// Adds to `acc` the variables of `t` that are not in `skip`.
pub fn collect_vars_except(t: &PrimitiveType, skip: &HashSet<u32>, acc: &mut HashSet<u32>)
    ensures
        final(acc)@ == old(acc)@ + (t@.free_vars() - skip@),
    decreases t,
{
    match t {
        PrimitiveType::Var(n) => {
            if !skip.contains(n) {
                acc.insert(*n);
            }
            assert(acc@ =~= old(acc)@ + (t@.free_vars() - skip@));
        },
        PrimitiveType::Fun(a, b) => {
            collect_vars_except(a, skip, acc);
            collect_vars_except(b, skip, acc);
            assert(acc@ =~= old(acc)@ + (t@.free_vars() - skip@));
        },
        PrimitiveType::Con(_, args) => {
            let ghost ts = t@->Con_1;
            let mut i: usize = 0;
            assert(acc@ =~= old(acc)@ + vars_upto_except(ts, 0, skip@));
            while i < args.len()
                invariant
                    i <= args.len(),
                    t matches PrimitiveType::Con(_, a) && a == args,
                    ts == t@->Con_1,
                    acc@ == old(acc)@ + vars_upto_except(ts, i as int, skip@),
                decreases args.len() - i,
            {
                collect_vars_except(&args[i], skip, acc);
                proof {
                    assert(ts[i as int] == args@[i as int]@);
                    assert(vars_upto_except(ts, i + 1, skip@) =~= vars_upto_except(
                        ts,
                        i as int,
                        skip@,
                    ) + (ts[i as int].free_vars() - skip@));
                    assert(acc@ =~= old(acc)@ + vars_upto_except(ts, i + 1, skip@));
                }
                i += 1;
            }
            assert(acc@ =~= old(acc)@ + (t@.free_vars() - skip@));
        },
    }
}

/// The place of the first `v` in `order`, if `v` is in it.
pub fn position_of(order: &Vec<u32>, v: u32) -> (place: Option<usize>)
    ensures
        match place {
            Some(i) => order@.contains(v) && i == position(order@, v) && i < order.len(),
            None => !order@.contains(v),
        },
{
    let mut i: usize = 0;
    while i < order.len()
        invariant
            i <= order.len(),
            forall|j: int| 0 <= j < i ==> order@[j] != v,
        decreases order.len() - i,
    {
        if order[i] == v {
            proof {
                lemma_position(order@, v, i as int);
            }
            return Some(i);
        }
        i += 1;
    }
    None
}

/// The place of a value is where it stands first.
pub proof fn lemma_position(order: Seq<u32>, v: u32, i: int)
    requires
        0 <= i < order.len(),
        order[i] == v,
        forall|j: int| 0 <= j < i ==> order[j] != v,
    ensures
        position(order, v) == i,
    decreases i,
{
    if i > 0 {
        let rest = order.drop_first();
        assert forall|j: int| 0 <= j < i - 1 implies rest[j] != v by {
            assert(rest[j] == order[j + 1]);
        }
        lemma_position(rest, v, i - 1);
    }
}

/// Adds to `seen` the variables of `t` that are in `q` and not yet in
/// `seen`, in the order in which they first occur.
pub fn collect_first_seen(t: &PrimitiveType, q: &HashSet<u32>, seen: &mut Vec<u32>)
    ensures
        final(seen)@ == first_seen(t@, q@, old(seen)@),
    decreases t,
{
    match t {
        PrimitiveType::Var(v) => {
            if q.contains(v) && position_of(seen, *v).is_none() {
                seen.push(*v);
            }
        },
        PrimitiveType::Fun(a, b) => {
            collect_first_seen(a, q, seen);
            collect_first_seen(b, q, seen);
        },
        PrimitiveType::Con(_, args) => {
            let ghost ts = t@->Con_1;
            let mut i: usize = 0;
            assert(ts.take(0) =~= Seq::empty());
            while i < args.len()
                invariant
                    i <= args.len(),
                    t matches PrimitiveType::Con(_, a) && a == args,
                    ts == t@->Con_1,
                    seen@ == first_seen_all(ts.take(i as int), q@, old(seen)@),
                decreases args.len() - i,
            {
                collect_first_seen(&args[i], q, seen);
                proof {
                    assert(ts[i as int] == args@[i as int]@);
                    assert(ts.take(i + 1).drop_last() =~= ts.take(i as int));
                }
                i += 1;
            }
            assert(ts.take(args.len() as int) =~= ts);
        },
    }
}

/// The type `t` with each variable of `order` replaced by the variable
/// numbered `base + 1` plus its place in `order`.
pub(crate) fn rename_vars(t: &PrimitiveType, order: &Vec<u32>, base: u32) -> (r: PrimitiveType)
    requires
        base + order.len() <= u32::MAX,
    ensures
        r@ == rename(t@, order@, base as nat),
    decreases t,
{
    match t {
        PrimitiveType::Var(v) => match position_of(order, *v) {
            Some(i) => PrimitiveType::Var(base + 1 + i as u32),
            None => PrimitiveType::Var(*v),
        },
        PrimitiveType::Fun(a, b) => PrimitiveType::Fun(
            Box::new(rename_vars(a, order, base)),
            Box::new(rename_vars(b, order, base)),
        ),
        PrimitiveType::Con(name, args) => {
            let ghost ts = t@->Con_1;
            let mut out: Vec<PrimitiveType> = Vec::new();
            let mut i: usize = 0;
            while i < args.len()
                invariant
                    i <= args.len(),
                    base + order.len() <= u32::MAX,
                    t matches PrimitiveType::Con(_, a) && a == args,
                    ts == t@->Con_1,
                    out@.len() == i,
                    forall|j: int|
                        0 <= j < i ==> out@[j]@ == rename(#[trigger] ts[j], order@, base as nat),
                decreases args.len() - i,
            {
                assert(ts[i as int] == args@[i as int]@);
                out.push(rename_vars(&args[i], order, base));
                i += 1;
            }
            let r = PrimitiveType::Con(name.clone(), out);
            assert(r@->Con_1 =~= rename(t@, order@, base as nat)->Con_1);
            r
        },
    }
}

/// The set `into` with the variables of `from` added.
pub fn union_vars(into: HashSet<u32>, from: &HashSet<u32>) -> (all: HashSet<u32>)
    ensures
        all@ == into@ + from@,
{
    let mut all = into;
    for v in it: from.iter()
        invariant
            it.seq().unref().to_set() == from@,
            forall|x: u32|
                all@.contains(x) <==> into@.contains(x) || exists|j: int|
                    0 <= j < it.index() && *(#[trigger] it.seq()[j]) == x,
            it.index() == it.seq().len() ==> all@ == into@ + from@,
    {
        all.insert(*v);
        assert(it.index() + 1 == it.seq().len() ==> all@ =~= into@ + from@) by {
            assert forall|x: u32| it.index() + 1 == it.seq().len() implies (all@.contains(x) <==> (
            into@ + from@).contains(x)) by {
                if all@.contains(x) && !into@.contains(x) {
                    let j = choose|j: int|
                        0 <= j < it.index() + 1 && *(#[trigger] it.seq()[j]) == x;
                    assert(it.seq().unref()[j] == x);
                    assert(it.seq().unref().to_set().contains(x));
                }
                if from@.contains(x) {
                    assert(it.seq().unref().to_set().contains(x));
                    let j = choose|j: int|
                        0 <= j < it.seq().unref().len() && it.seq().unref()[j] == x;
                    assert(*it.seq()[j] == x);
                }
            }
        }
    }
    all
}

} // verus!

//! The theory of substitutions: finite maps from type variables to types that
//! are applied transitively, until no bound variable is left.

use crate::ast::{lemma_occurs_arg, Ty};
use vstd::prelude::*;

verus! {

/// The larger of two numbers.
pub open spec fn larger(a: nat, b: nat) -> nat {
    if a >= b {
        a
    } else {
        b
    }
}

/// One more than the largest rank of a variable of `t`, or 0 if `t` has no
/// variable.
pub open spec fn height(rank: spec_fn(u32) -> nat, t: Ty) -> nat
    decreases t,
{
    match t {
        Ty::Var(v) => rank(v) + 1,
        Ty::Fun(a, b) => larger(height(rank, *a), height(rank, *b)),
        Ty::Con(_, args) => height_all(rank, args),
    }
}

/// The largest height of a type in `ts`.
pub open spec fn height_all(rank: spec_fn(u32) -> nat, ts: Seq<Ty>) -> nat
    decreases ts,
{
    if ts.len() == 0 {
        0
    } else {
        larger(height_all(rank, ts.drop_last()), height(rank, ts.last()))
    }
}

/// `rank` witnesses that `s` has no cycle: every bound variable ranks above
/// all the variables of the type it is bound to.
pub open spec fn ranked(s: Map<u32, Ty>, rank: spec_fn(u32) -> nat) -> bool {
    forall|v: u32| #[trigger] s.contains_key(v) ==> height(rank, s[v]) <= rank(v)
}

/// A substitution is acyclic when following its bindings from any variable
/// comes to an end.
pub open spec fn acyclic(s: Map<u32, Ty>) -> bool {
    exists|rank: spec_fn(u32) -> nat| ranked(s, rank)
}

/// Some ranking of an acyclic substitution.
pub open spec fn rank_of(s: Map<u32, Ty>) -> spec_fn(u32) -> nat {
    choose|rank: spec_fn(u32) -> nat| ranked(s, rank)
}

/// No variable of `t` is bound by `s`.
pub open spec fn clean(s: Map<u32, Ty>, t: Ty) -> bool {
    forall|v: u32| #[trigger] t.occurs(v) ==> !s.contains_key(v)
}

/// The type `t` with every variable replaced by what `s` binds it to,
/// transitively.
pub open spec fn apply(s: Map<u32, Ty>, t: Ty) -> Ty
    decreases height(rank_of(s), t), t,
    when acyclic(s)
    via apply_decreases
{
    match t {
        Ty::Var(v) => if s.contains_key(v) {
            apply(s, s[v])
        } else {
            t
        },
        Ty::Fun(a, b) => Ty::Fun(Box::new(apply(s, *a)), Box::new(apply(s, *b))),
        Ty::Con(name, args) => Ty::Con(
            name,
            Seq::new(
                args.len(),
                |i: int|
                    if 0 <= i < args.len() {
                        apply(s, args[i])
                    } else {
                        t
                    },
            ),
        ),
    }
}

#[via_fn]
proof fn apply_decreases(s: Map<u32, Ty>, t: Ty) {
    let rank = rank_of(s);
    assert(ranked(s, rank));
    match t {
        Ty::Var(v) => {},
        Ty::Fun(a, b) => {},
        Ty::Con(name, args) => {
            assert forall|i: int| 0 <= i < args.len() implies height(rank, #[trigger] args[i])
                <= height(rank, t) by {
                lemma_height_elem(rank, args, i);
            }
        },
    }
}

/// The type `t` with the variable `x` replaced by `b`, once.
pub open spec fn replace(x: u32, b: Ty, t: Ty) -> Ty
    decreases t,
{
    match t {
        Ty::Var(v) => if v == x {
            b
        } else {
            t
        },
        Ty::Fun(l, r) => Ty::Fun(Box::new(replace(x, b, *l)), Box::new(replace(x, b, *r))),
        Ty::Con(name, args) => Ty::Con(
            name,
            Seq::new(
                args.len(),
                |i: int|
                    if 0 <= i < args.len() {
                        replace(x, b, args[i])
                    } else {
                        t
                    },
            ),
        ),
    }
}

/// `fine` refines `coarse`: applying `coarse` first changes nothing of what
/// `fine` makes of a type.
pub open spec fn refines(fine: Map<u32, Ty>, coarse: Map<u32, Ty>) -> bool {
    forall|t: Ty| apply(fine, #[trigger] apply(coarse, t)) == apply(fine, t)
}

pub proof fn lemma_height_elem(rank: spec_fn(u32) -> nat, ts: Seq<Ty>, i: int)
    requires
        0 <= i < ts.len(),
    ensures
        height(rank, ts[i]) <= height_all(rank, ts),
    decreases ts.len(),
{
    if i < ts.len() - 1 {
        lemma_height_elem(rank, ts.drop_last(), i);
    }
}

/// The height of a type is above the rank of each of its variables.
pub proof fn lemma_height_above(rank: spec_fn(u32) -> nat, t: Ty, v: u32)
    requires
        t.occurs(v),
    ensures
        rank(v) < height(rank, t),
    decreases t,
{
    match t {
        Ty::Var(w) => {},
        Ty::Fun(a, b) => {
            if a.occurs(v) {
                lemma_height_above(rank, *a, v);
            } else {
                lemma_height_above(rank, *b, v);
            }
        },
        Ty::Con(_, args) => {
            let i = choose|i: int| 0 <= i < args.len() && (#[trigger] args[i]).occurs(v);
            lemma_height_above(rank, args[i], v);
            lemma_height_elem(rank, args, i);
        },
    }
}

/// A bound on the rank of every variable of a type bounds its height.
pub proof fn lemma_height_below(rank: spec_fn(u32) -> nat, t: Ty, bound: nat)
    requires
        forall|v: u32| #[trigger] t.occurs(v) ==> rank(v) < bound,
    ensures
        height(rank, t) <= bound,
    decreases t, (if t is Con { t->Con_1.len() + 1 } else { 0 }),
{
    match t {
        Ty::Var(w) => {
            assert(t.occurs(w));
        },
        Ty::Fun(a, b) => {
            assert forall|v: u32| #[trigger] a.occurs(v) implies rank(v) < bound by {
                assert(t.occurs(v));
            }
            assert forall|v: u32| #[trigger] b.occurs(v) implies rank(v) < bound by {
                assert(t.occurs(v));
            }
            lemma_height_below(rank, *a, bound);
            lemma_height_below(rank, *b, bound);
        },
        Ty::Con(_, args) => {
            lemma_height_all_below(rank, t, args, args.len() as int, bound);
            assert(args.take(args.len() as int) =~= args);
        },
    }
}

proof fn lemma_height_all_below(rank: spec_fn(u32) -> nat, t: Ty, ts: Seq<Ty>, n: int, bound: nat)
    requires
        t matches Ty::Con(_, args) && args == ts,
        0 <= n <= ts.len(),
        forall|v: u32| #[trigger] t.occurs(v) ==> rank(v) < bound,
    ensures
        height_all(rank, ts.take(n)) <= bound,
    decreases t, n,
{
    if n > 0 {
        assert(ts.take(n).drop_last() =~= ts.take(n - 1));
        lemma_height_all_below(rank, t, ts, n - 1, bound);
        let k = n - 1;
        let last = ts[k];
        assert forall|v: u32| #[trigger] last.occurs(v) implies rank(v) < bound by {
            assert(ts[k].occurs(v));
            assert(t.occurs(v));
        }
        lemma_height_below(rank, last, bound);
    }
}

/// A function type is clean when both its sides are.
pub proof fn lemma_clean_fun(s: Map<u32, Ty>, a: Ty, b: Ty)
    ensures
        clean(s, Ty::Fun(Box::new(a), Box::new(b))) <==> clean(s, a) && clean(s, b),
{
    let t = Ty::Fun(Box::new(a), Box::new(b));
    if clean(s, t) {
        assert forall|v: u32| #[trigger] a.occurs(v) implies !s.contains_key(v) by {
            assert(t.occurs(v));
        }
        assert forall|v: u32| #[trigger] b.occurs(v) implies !s.contains_key(v) by {
            assert(t.occurs(v));
        }
    }
    if clean(s, a) && clean(s, b) {
        assert forall|v: u32| #[trigger] t.occurs(v) implies !s.contains_key(v) by {
            assert(a.occurs(v) || b.occurs(v));
        }
    }
}

/// A constructor is clean when all its arguments are.
pub proof fn lemma_clean_con(s: Map<u32, Ty>, name: Seq<char>, args: Seq<Ty>)
    ensures
        clean(s, Ty::Con(name, args)) <==> forall|i: int|
            0 <= i < args.len() ==> clean(s, #[trigger] args[i]),
{
    let t = Ty::Con(name, args);
    if clean(s, t) {
        assert forall|i: int| 0 <= i < args.len() implies clean(s, #[trigger] args[i]) by {
            let a = args[i];
            assert forall|v: u32| #[trigger] a.occurs(v) implies !s.contains_key(v) by {
                lemma_occurs_arg(name, args, i, v);
            }
        }
    }
    if forall|i: int| 0 <= i < args.len() ==> clean(s, #[trigger] args[i]) {
        assert forall|v: u32| #[trigger] t.occurs(v) implies !s.contains_key(v) by {
            let i = choose|i: int| 0 <= i < args.len() && (#[trigger] args[i]).occurs(v);
            assert(clean(s, args[i]));
        }
    }
}

/// How a substitution acts on a variable.
pub proof fn lemma_apply_var(s: Map<u32, Ty>, v: u32)
    requires
        acyclic(s),
    ensures
        apply(s, Ty::Var(v)) == if s.contains_key(v) {
            apply(s, s[v])
        } else {
            Ty::Var(v)
        },
{
}

/// How a substitution acts on a function type.
pub proof fn lemma_apply_fun(s: Map<u32, Ty>, a: Ty, b: Ty)
    requires
        acyclic(s),
    ensures
        apply(s, Ty::Fun(Box::new(a), Box::new(b))) == Ty::Fun(
            Box::new(apply(s, a)),
            Box::new(apply(s, b)),
        ),
{
}

/// How a substitution acts on a constructor: argument by argument.
pub proof fn lemma_apply_con(s: Map<u32, Ty>, name: Seq<char>, args: Seq<Ty>)
    requires
        acyclic(s),
    ensures
        apply(s, Ty::Con(name, args)) matches Ty::Con(n, out) && n == name && out.len()
            == args.len() && forall|i: int|
            0 <= i < args.len() ==> #[trigger] out[i] == apply(s, args[i]),
{
}

/// What a substitution makes of a type holds none of its bound variables.
pub proof fn lemma_apply_clean(s: Map<u32, Ty>, t: Ty)
    requires
        acyclic(s),
    ensures
        clean(s, apply(s, t)),
    decreases height(rank_of(s), t), t,
{
    let rank = rank_of(s);
    assert(ranked(s, rank));
    match t {
        Ty::Var(v) => {
            if s.contains_key(v) {
                lemma_apply_clean(s, s[v]);
            }
        },
        Ty::Fun(a, b) => {
            lemma_apply_clean(s, *a);
            lemma_apply_clean(s, *b);
            lemma_clean_fun(s, apply(s, *a), apply(s, *b));
        },
        Ty::Con(name, args) => {
            lemma_apply_con(s, name, args);
            let out = apply(s, t)->Con_1;
            assert forall|i: int| 0 <= i < out.len() implies clean(s, #[trigger] out[i]) by {
                lemma_height_elem(rank, args, i);
                lemma_apply_clean(s, args[i]);
            }
            lemma_clean_con(s, name, out);
        },
    }
}

/// A substitution leaves a type alone that holds none of its bound variables.
pub proof fn lemma_apply_fixed(s: Map<u32, Ty>, t: Ty)
    requires
        acyclic(s),
        clean(s, t),
    ensures
        apply(s, t) == t,
    decreases t,
{
    match t {
        Ty::Var(v) => {
            assert(t.occurs(v));
        },
        Ty::Fun(a, b) => {
            lemma_clean_fun(s, *a, *b);
            lemma_apply_fixed(s, *a);
            lemma_apply_fixed(s, *b);
        },
        Ty::Con(name, args) => {
            lemma_apply_con(s, name, args);
            lemma_clean_con(s, name, args);
            let out = apply(s, t)->Con_1;
            assert forall|i: int| 0 <= i < args.len() implies out[i] == args[i] by {
                lemma_apply_fixed(s, args[i]);
            }
            assert(out =~= args);
        },
    }
}

/// Applying a substitution twice gives what applying it once gives.
pub proof fn lemma_apply_idempotent(s: Map<u32, Ty>, t: Ty)
    requires
        acyclic(s),
    ensures
        apply(s, apply(s, t)) == apply(s, t),
{
    lemma_apply_clean(s, t);
    lemma_apply_fixed(s, apply(s, t));
}

/// The empty substitution is acyclic and changes no type.
pub proof fn lemma_apply_empty(t: Ty)
    ensures
        acyclic(Map::<u32, Ty>::empty()),
        apply(Map::<u32, Ty>::empty(), t) == t,
{
    let zero = |v: u32| 0nat;
    assert(ranked(Map::<u32, Ty>::empty(), zero));
    lemma_apply_fixed(Map::<u32, Ty>::empty(), t);
}

/// How a replacement acts on a constructor: argument by argument.
pub proof fn lemma_replace_con(x: u32, b: Ty, name: Seq<char>, args: Seq<Ty>)
    ensures
        replace(x, b, Ty::Con(name, args)) matches Ty::Con(n, out) && n == name && out.len()
            == args.len() && forall|i: int|
            0 <= i < args.len() ==> #[trigger] out[i] == replace(x, b, args[i]),
{
}

/// Replacing a variable that does not occur changes nothing.
pub proof fn lemma_replace_absent(x: u32, b: Ty, t: Ty)
    requires
        !t.occurs(x),
    ensures
        replace(x, b, t) == t,
    decreases t,
{
    match t {
        Ty::Var(v) => {},
        Ty::Fun(l, r) => {
            lemma_replace_absent(x, b, *l);
            lemma_replace_absent(x, b, *r);
        },
        Ty::Con(name, args) => {
            lemma_replace_con(x, b, name, args);
            let out = replace(x, b, t)->Con_1;
            assert forall|i: int| 0 <= i < args.len() implies out[i] == args[i] by {
                if args[i].occurs(x) {
                    lemma_occurs_arg(name, args, i, x);
                }
                lemma_replace_absent(x, b, args[i]);
            }
            assert(out =~= args);
        },
    }
}

/// A variable of a replacement's result comes from the type, or from the
/// replacing type where the replaced variable occurred.
pub proof fn lemma_replace_vars(x: u32, b: Ty, t: Ty, v: u32)
    requires
        replace(x, b, t).occurs(v),
    ensures
        (t.occurs(v) && v != x) || (t.occurs(x) && b.occurs(v)),
    decreases t,
{
    match t {
        Ty::Var(w) => {},
        Ty::Fun(l, r) => {
            if replace(x, b, *l).occurs(v) {
                lemma_replace_vars(x, b, *l, v);
            } else {
                lemma_replace_vars(x, b, *r, v);
            }
        },
        Ty::Con(name, args) => {
            lemma_replace_con(x, b, name, args);
            let out = replace(x, b, t)->Con_1;
            let i = choose|i: int| 0 <= i < out.len() && (#[trigger] out[i]).occurs(v);
            lemma_replace_vars(x, b, args[i], v);
            if args[i].occurs(v) {
                lemma_occurs_arg(name, args, i, v);
            }
            if args[i].occurs(x) {
                lemma_occurs_arg(name, args, i, x);
            }
        },
    }
}

/// Binding an unbound variable to a clean type in which it does not occur
/// keeps a substitution acyclic.
pub proof fn lemma_insert_acyclic(s: Map<u32, Ty>, x: u32, b: Ty)
    requires
        acyclic(s),
        !s.contains_key(x),
        clean(s, b),
        !b.occurs(x),
    ensures
        acyclic(s.insert(x, b)),
        clean(s.insert(x, b), b),
{
    let old_rank = rank_of(s);
    assert(ranked(s, old_rank));
    let rank = |v: u32|
        if s.contains_key(v) {
            old_rank(v) + 2
        } else if v == x {
            1nat
        } else {
            0nat
        };
    let s2 = s.insert(x, b);
    assert forall|v: u32| #[trigger] s2.contains_key(v) implies height(rank, s2[v]) <= rank(
        v,
    ) by {
        if v == x {
            assert forall|w: u32| #[trigger] b.occurs(w) implies rank(w) < 1 by {}
            lemma_height_below(rank, b, 1);
        } else {
            let u = s[v];
            assert(s.contains_key(v));
            assert forall|w: u32| #[trigger] u.occurs(w) implies rank(w) < old_rank(v) + 2 by {
                lemma_height_above(old_rank, u, w);
            }
            lemma_height_below(rank, u, old_rank(v) + 2);
        }
    }
    assert(ranked(s2, rank));
}

/// Binding one more variable amounts to replacing it in what the
/// substitution gave before.
pub proof fn lemma_apply_insert(s: Map<u32, Ty>, x: u32, b: Ty, t: Ty)
    requires
        acyclic(s),
        !s.contains_key(x),
        clean(s, b),
        !b.occurs(x),
    ensures
        acyclic(s.insert(x, b)),
        apply(s.insert(x, b), t) == replace(x, b, apply(s, t)),
    decreases height(rank_of(s), t), t,
{
    let rank = rank_of(s);
    assert(ranked(s, rank));
    let s2 = s.insert(x, b);
    lemma_insert_acyclic(s, x, b);
    match t {
        Ty::Var(v) => {
            if s.contains_key(v) {
                lemma_apply_insert(s, x, b, s[v]);
            } else if v == x {
                lemma_apply_fixed(s2, b);
            }
        },
        Ty::Fun(l, r) => {
            lemma_apply_insert(s, x, b, *l);
            lemma_apply_insert(s, x, b, *r);
        },
        Ty::Con(name, args) => {
            lemma_apply_con(s, name, args);
            lemma_apply_con(s2, name, args);
            let mid = apply(s, t)->Con_1;
            lemma_replace_con(x, b, name, mid);
            let out = apply(s2, t)->Con_1;
            let out2 = replace(x, b, apply(s, t))->Con_1;
            assert forall|i: int| 0 <= i < args.len() implies out[i] == out2[i] by {
                lemma_height_elem(rank, args, i);
                lemma_apply_insert(s, x, b, args[i]);
            }
            assert(out =~= out2);
        },
    }
}

/// An acyclic substitution refines itself.
pub proof fn lemma_refines_self(s: Map<u32, Ty>)
    requires
        acyclic(s),
    ensures
        refines(s, s),
{
    assert forall|t: Ty| apply(s, #[trigger] apply(s, t)) == apply(s, t) by {
        lemma_apply_idempotent(s, t);
    }
}

/// Refinement is transitive.
pub proof fn lemma_refines_trans(a: Map<u32, Ty>, b: Map<u32, Ty>, c: Map<u32, Ty>)
    requires
        refines(a, b),
        refines(b, c),
    ensures
        refines(a, c),
{
    assert forall|t: Ty| apply(a, #[trigger] apply(c, t)) == apply(a, t) by {
        let u = apply(c, t);
        assert(apply(a, apply(b, u)) == apply(a, u));
        assert(apply(b, u) == apply(b, t));
        assert(apply(a, apply(b, t)) == apply(a, t));
    }
}

/// A substitution with one more binding refines the one it extends.
pub proof fn lemma_insert_refines(s: Map<u32, Ty>, x: u32, b: Ty)
    requires
        acyclic(s),
        !s.contains_key(x),
        clean(s, b),
        !b.occurs(x),
    ensures
        refines(s.insert(x, b), s),
{
    let s2 = s.insert(x, b);
    assert forall|t: Ty| apply(s2, #[trigger] apply(s, t)) == apply(s2, t) by {
        lemma_apply_insert(s, x, b, apply(s, t));
        lemma_apply_idempotent(s, t);
        lemma_apply_insert(s, x, b, t);
    }
}

/// A substitution without some of its bindings is still acyclic, by the
/// same ranking.
pub proof fn lemma_remove_keys_acyclic(s: Map<u32, Ty>, keys: Set<u32>)
    requires
        acyclic(s),
    ensures
        acyclic(s.remove_keys(keys)),
        ranked(s.remove_keys(keys), rank_of(s)),
{
    let rank = rank_of(s);
    assert(ranked(s, rank));
    let rest = s.remove_keys(keys);
    assert forall|v: u32| #[trigger] rest.contains_key(v) implies height(rank, rest[v]) <= rank(
        v,
    ) by {
        assert(s.contains_key(v));
    }
    assert(ranked(rest, rank));
}

/// A variable that a substitution does not bind stays where it occurs.
pub proof fn lemma_apply_keeps(s: Map<u32, Ty>, t: Ty, v: u32)
    requires
        acyclic(s),
        t.occurs(v),
        !s.contains_key(v),
    ensures
        apply(s, t).occurs(v),
    decreases t,
{
    match t {
        Ty::Var(w) => {},
        Ty::Fun(a, b) => {
            if a.occurs(v) {
                lemma_apply_keeps(s, *a, v);
            } else {
                lemma_apply_keeps(s, *b, v);
            }
        },
        Ty::Con(name, args) => {
            lemma_apply_con(s, name, args);
            let i = choose|i: int| 0 <= i < args.len() && (#[trigger] args[i]).occurs(v);
            lemma_apply_keeps(s, args[i], v);
            let out = apply(s, t)->Con_1;
            lemma_occurs_arg(name, out, i, v);
        },
    }
}

} // verus!

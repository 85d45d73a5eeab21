//! Inference does not depend on where the generator starts: with every
//! variable counted one further, it comes to the same, counted one
//! further.

use crate::ast::{lemma_occurs_arg, lemma_renamed_con, Term, Ty};
use crate::substitution::{
    acyclic, apply, height, height_all, lemma_apply_con, lemma_apply_empty, lemma_apply_fun,
    lemma_apply_var, lemma_height_elem, lemma_remove_keys_acyclic, rank_of, ranked,
};
use crate::typing::{
    apply_env, apply_scheme, bool_ty, env_vars, find_frame, first_seen, first_seen_all, fresh,
    fun_ty, generalize, infer, instance_vars, instantiate, int_ty, is_comparison,
    lemma_infer_refines, lemma_position_found, lemma_unified_sound, operand_ty, position,
    principal, result_ty, shift, unified, Failure, Outcome, Scheme,
};
use crate::unification::{
    lemma_step_bind, lemma_step_con, lemma_step_drop, lemma_step_fun, pair_up, pending_size,
    pending_vars, solve,
};
use vstd::prelude::*;

verus! {

/// The number that follows `v`; the first one after the last.
pub open spec fn up(v: u32) -> u32 {
    if v == u32::MAX {
        0u32
    } else {
        (v + 1) as u32
    }
}

/// The number that `v` follows; the last one before the first.
pub open spec fn down(v: u32) -> u32 {
    if v == 0 {
        u32::MAX
    } else {
        (v - 1) as u32
    }
}

/// The renaming that sends each variable to the one that follows it.
pub open spec fn raise() -> spec_fn(u32) -> u32 {
    |v: u32| up(v)
}

/// The renaming that sends each variable to the one that it follows.
pub open spec fn lower() -> spec_fn(u32) -> u32 {
    |v: u32| down(v)
}

/// The type with each variable replaced by the one that follows it.
pub open spec fn raised(t: Ty) -> Ty {
    t.renamed(raise())
}

/// The substitution with each variable replaced by the one that follows
/// it, in what it binds and in what it binds it to.
pub open spec fn raised_sub(s: Map<u32, Ty>) -> Map<u32, Ty> {
    Map::new(|k: u32| s.contains_key(down(k)), |k: u32| raised(s[down(k)]))
}

/// The types of a list, each with its variables replaced by those that
/// follow them.
pub open spec fn raised_all(ts: Seq<Ty>) -> Seq<Ty> {
    Seq::new(ts.len(), |i: int| raised(ts[i]))
}

/// How raising acts on a constructor: argument by argument.
pub proof fn lemma_raised_con(name: Seq<char>, args: Seq<Ty>)
    ensures
        raised(Ty::Con(name, args)) == Ty::Con(name, raised_all(args)),
{
    lemma_renamed_con(raise(), name, args);
    assert(raised(Ty::Con(name, args))->Con_1 =~= raised_all(args));
}

/// A variable occurs in the raised type if and only if the variable that
/// it follows occurs in the type.
pub proof fn lemma_raised_occurs(t: Ty, k: u32)
    ensures
        raised(t).occurs(k) <==> t.occurs(down(k)),
    decreases t,
{
    match t {
        Ty::Var(v) => {},
        Ty::Fun(a, b) => {
            lemma_raised_occurs(*a, k);
            lemma_raised_occurs(*b, k);
        },
        Ty::Con(name, args) => {
            lemma_raised_con(name, args);
            let out = raised_all(args);
            if raised(t).occurs(k) {
                let i = choose|i: int| 0 <= i < out.len() && (#[trigger] out[i]).occurs(k);
                lemma_raised_occurs(args[i], k);
                lemma_occurs_arg(name, args, i, down(k));
            }
            if t.occurs(down(k)) {
                let i = choose|i: int| 0 <= i < args.len() && (#[trigger] args[i]).occurs(down(k));
                lemma_raised_occurs(args[i], k);
                lemma_occurs_arg(name, out, i, k);
            }
        },
    }
}

/// Lowering undoes raising.
pub proof fn lemma_lowered(t: Ty)
    ensures
        raised(t).renamed(lower()) == t,
    decreases t,
{
    match t {
        Ty::Var(v) => {},
        Ty::Fun(a, b) => {
            lemma_lowered(*a);
            lemma_lowered(*b);
        },
        Ty::Con(name, args) => {
            lemma_raised_con(name, args);
            let out = raised_all(args);
            lemma_renamed_con(lower(), name, out);
            let back = Ty::Con(name, out).renamed(lower())->Con_1;
            assert forall|i: int| 0 <= i < args.len() implies back[i] == args[i] by {
                lemma_lowered(args[i]);
            }
            assert(back =~= args);
        },
    }
}

/// Two types that are the same once raised are the same.
pub proof fn lemma_raised_same(a: Ty, b: Ty)
    requires
        raised(a) == raised(b),
    ensures
        a == b,
{
    lemma_lowered(a);
    lemma_lowered(b);
}

/// The ranking of the raised substitution that a ranking of the
/// substitution gives.
pub open spec fn raised_rank(rank: spec_fn(u32) -> nat) -> spec_fn(u32) -> nat {
    |k: u32| rank(down(k))
}

/// The raised type is as high by the raised ranking as the type by the
/// ranking.
pub proof fn lemma_raised_height(rank: spec_fn(u32) -> nat, t: Ty)
    ensures
        height(raised_rank(rank), raised(t)) == height(rank, t),
    decreases t, 1nat,
{
    match t {
        Ty::Var(v) => {},
        Ty::Fun(a, b) => {
            lemma_raised_height(rank, *a);
            lemma_raised_height(rank, *b);
        },
        Ty::Con(name, args) => {
            lemma_raised_con(name, args);
            lemma_raised_height_all(rank, t, args.len() as int);
            assert(args.take(args.len() as int) =~= args);
            assert(raised_all(args).take(args.len() as int) =~= raised_all(args));
        },
    }
}

/// `lemma_raised_height` for the first `n` arguments of a constructor.
pub proof fn lemma_raised_height_all(rank: spec_fn(u32) -> nat, t: Ty, n: int)
    requires
        t is Con,
        0 <= n <= t->Con_1.len(),
    ensures
        height_all(raised_rank(rank), raised_all(t->Con_1).take(n)) == height_all(
            rank,
            t->Con_1.take(n),
        ),
    decreases t, 0nat, n,
{
    let args = t->Con_1;
    if n > 0 {
        lemma_raised_height_all(rank, t, n - 1);
        lemma_raised_height(rank, args[n - 1]);
        assert(args.take(n).drop_last() =~= args.take(n - 1));
        assert(raised_all(args).take(n).drop_last() =~= raised_all(args).take(n - 1));
    }
}

/// The raised substitution is acyclic where the substitution is.
pub proof fn lemma_raised_acyclic(s: Map<u32, Ty>)
    requires
        acyclic(s),
    ensures
        acyclic(raised_sub(s)),
{
    let rank = rank_of(s);
    assert(ranked(s, rank));
    let above = raised_rank(rank);
    assert forall|k: u32| #[trigger] raised_sub(s).contains_key(k) implies height(
        above,
        raised_sub(s)[k],
    ) <= above(k) by {
        assert(s.contains_key(down(k)));
        lemma_raised_height(rank, s[down(k)]);
    }
    assert(ranked(raised_sub(s), above));
}

/// What the raised substitution makes of the raised type is what the
/// substitution makes of the type, raised.
pub proof fn lemma_apply_raised(s: Map<u32, Ty>, t: Ty)
    requires
        acyclic(s),
    ensures
        acyclic(raised_sub(s)),
        apply(raised_sub(s), raised(t)) == raised(apply(s, t)),
    decreases height(rank_of(s), t), t,
{
    let rank = rank_of(s);
    assert(ranked(s, rank));
    lemma_raised_acyclic(s);
    let above = raised_sub(s);
    match t {
        Ty::Var(v) => {
            lemma_apply_var(s, v);
            lemma_apply_var(above, up(v));
            assert(down(up(v)) == v);
            if s.contains_key(v) {
                lemma_apply_raised(s, s[v]);
            }
        },
        Ty::Fun(a, b) => {
            lemma_apply_fun(s, *a, *b);
            lemma_apply_fun(above, raised(*a), raised(*b));
            lemma_apply_raised(s, *a);
            lemma_apply_raised(s, *b);
        },
        Ty::Con(name, args) => {
            lemma_raised_con(name, args);
            lemma_apply_con(s, name, args);
            lemma_apply_con(above, name, raised_all(args));
            let made = apply(s, t)->Con_1;
            lemma_raised_con(name, made);
            let left = apply(above, raised(t))->Con_1;
            assert forall|i: int| 0 <= i < args.len() implies left[i] == raised_all(made)[i] by {
                lemma_height_elem(rank, args, i);
                lemma_apply_raised(s, args[i]);
            }
            assert(left =~= raised_all(made));
        },
    }
}

/// The pairs of a stack, each type with its variables replaced by those
/// that follow them.
pub open spec fn raised_stack(w: Seq<(Ty, Ty)>) -> Seq<(Ty, Ty)> {
    Seq::new(w.len(), |i: int| (raised(w[i].0), raised(w[i].1)))
}

/// What the unifier returns, with each variable replaced by the one that
/// follows it.
pub open spec fn raised_result(r: Result<Map<u32, Ty>, (Ty, Ty)>) -> Result<
    Map<u32, Ty>,
    (Ty, Ty),
> {
    match r {
        Ok(m) => Ok(raised_sub(m)),
        Err((a, b)) => Err((raised(a), raised(b))),
    }
}

/// Raising a substitution with one more binding is binding the raised
/// variable to the raised type in the raised substitution.
pub proof fn lemma_raised_insert(s: Map<u32, Ty>, x: u32, b: Ty)
    ensures
        raised_sub(s.insert(x, b)) == raised_sub(s).insert(up(x), raised(b)),
{
    let left = raised_sub(s.insert(x, b));
    let right = raised_sub(s).insert(up(x), raised(b));
    assert forall|k: u32| left.contains_key(k) <==> right.contains_key(k) by {
        assert(up(down(k)) == k && down(up(x)) == x);
    }
    assert forall|k: u32| #[trigger] left.contains_key(k) implies left[k] == right[k] by {
        assert(up(down(k)) == k && down(up(x)) == x);
    }
    assert(left =~= right);
}

/// Solving the raised pairs from the raised substitution comes to what
/// solving the pairs from the substitution comes to, raised.
pub proof fn lemma_solve_raised(w: Seq<(Ty, Ty)>, s: Map<u32, Ty>)
    requires
        acyclic(s),
    ensures
        acyclic(raised_sub(s)),
        solve(raised_stack(w), raised_sub(s)) == raised_result(solve(w, s)),
    decreases pending_vars(w, s).len(), pending_size(w, s),
{
    lemma_raised_acyclic(s);
    let above = raised_sub(s);
    let pairs = raised_stack(w);
    if w.len() > 0 {
        let rest = w.drop_last();
        let a = apply(s, w.last().0);
        let b = apply(s, w.last().1);
        lemma_apply_raised(s, w.last().0);
        lemma_apply_raised(s, w.last().1);
        assert(pairs.last() == (raised(w.last().0), raised(w.last().1)));
        assert(pairs.drop_last() =~= raised_stack(rest));
        assert(apply(above, pairs.last().0) == raised(a));
        assert(apply(above, pairs.last().1) == raised(b));
        match (a, b) {
            (Ty::Var(x), _) => {
                assert(down(up(x)) == x);
                lemma_raised_occurs(b, up(x));
                if b == a {
                    lemma_step_drop(w, s);
                    lemma_solve_raised(rest, s);
                } else {
                    if raised(b) == raised(a) {
                        lemma_raised_same(a, b);
                    }
                    if !b.occurs(x) {
                        lemma_step_bind(w, s, x, b);
                        lemma_raised_insert(s, x, b);
                        lemma_solve_raised(rest, s.insert(x, b));
                    }
                }
            },
            (_, Ty::Var(y)) => {
                assert(down(up(y)) == y);
                lemma_raised_occurs(a, up(y));
                assert(!(raised(a) is Var)) by {
                    if let Ty::Con(name, args) = a {
                        lemma_raised_con(name, args);
                    }
                }
                if !a.occurs(y) {
                    lemma_step_bind(w, s, y, a);
                    lemma_raised_insert(s, y, a);
                    lemma_solve_raised(rest, s.insert(y, a));
                }
            },
            (Ty::Fun(a1, a2), Ty::Fun(b1, b2)) => {
                lemma_step_fun(w, s, *a1, *a2, *b1, *b2);
                let next = rest.push((*a2, *b2)).push((*a1, *b1));
                lemma_solve_raised(next, s);
                assert(raised_stack(rest).push((raised(*a2), raised(*b2))).push(
                    (raised(*a1), raised(*b1)),
                ) =~= raised_stack(next));
            },
            (Ty::Con(n, ls), Ty::Con(m, rs)) => {
                lemma_raised_con(n, ls);
                lemma_raised_con(m, rs);
                if n == m && ls.len() == rs.len() {
                    lemma_step_con(w, s, n, ls, m, rs);
                    let next = rest + pair_up(ls, rs);
                    lemma_solve_raised(next, s);
                    assert(raised_stack(rest) + pair_up(raised_all(ls), raised_all(rs))
                        =~= raised_stack(next));
                }
            },
            (Ty::Fun(_, _), Ty::Con(m, rs)) => {
                lemma_raised_con(m, rs);
            },
            (Ty::Con(n, ls), Ty::Fun(_, _)) => {
                lemma_raised_con(n, ls);
            },
        }
    } else {
        assert(pairs =~= Seq::<(Ty, Ty)>::empty());
    }
}

/// Unifying the raised types from the raised substitution succeeds where
/// unifying the types from the substitution does, and comes to the same,
/// raised.
pub proof fn lemma_unified_raised(t: Ty, u: Ty, s: Map<u32, Ty>)
    requires
        acyclic(s),
    ensures
        acyclic(raised_sub(s)),
        unified(raised(t), raised(u), raised_sub(s)) is Ok <==> unified(t, u, s) is Ok,
        unified(t, u, s) matches Ok(out) ==> unified(raised(t), raised(u), raised_sub(s)) == Ok::<
            Map<u32, Ty>,
            Failure,
        >(raised_sub(out)),
{
    lemma_solve_raised(seq![(t, u)], s);
    assert(raised_stack(seq![(t, u)]) =~= seq![(raised(t), raised(u))]);
}

/// The variables of a list, each replaced by the one that follows it.
pub open spec fn raised_seq(order: Seq<u32>) -> Seq<u32> {
    Seq::new(order.len(), |i: int| up(order[i]))
}

/// The variables that follow those of a set.
pub open spec fn raised_set(q: Set<u32>) -> Set<u32> {
    Set::new(|k: u32| q.contains(down(k)))
}

/// The scheme with each variable replaced by the one that follows it.
pub open spec fn raised_scheme(scheme: Scheme) -> Scheme {
    Scheme { body: raised(scheme.body), quantified: raised_set(scheme.quantified) }
}

/// The environment with each variable replaced by the one that follows it.
pub open spec fn raised_env(env: Seq<(Seq<char>, Scheme)>) -> Seq<(Seq<char>, Scheme)> {
    Seq::new(env.len(), |i: int| (env[i].0, raised_scheme(env[i].1)))
}

/// The raised list holds the variable that follows `v` if and only if the
/// list holds `v`.
pub proof fn lemma_raised_seq_contains(order: Seq<u32>, v: u32)
    ensures
        raised_seq(order).contains(up(v)) <==> order.contains(v),
{
    let above = raised_seq(order);
    if order.contains(v) {
        let i = choose|i: int| 0 <= i < order.len() && order[i] == v;
        assert(above[i] == up(v));
    }
    if above.contains(up(v)) {
        let i = choose|i: int| 0 <= i < above.len() && above[i] == up(v);
        assert(down(up(order[i])) == order[i] && down(up(v)) == v);
        assert(order[i] == v);
    }
}

/// The variables first seen in the raised type are those first seen in the
/// type, raised.
pub proof fn lemma_first_seen_raised(t: Ty, q: Set<u32>, seen: Seq<u32>)
    ensures
        first_seen(raised(t), raised_set(q), raised_seq(seen)) == raised_seq(
            first_seen(t, q, seen),
        ),
    decreases t, 1nat,
{
    match t {
        Ty::Var(v) => {
            assert(down(up(v)) == v);
            lemma_raised_seq_contains(seen, v);
            assert(raised_seq(seen.push(v)) =~= raised_seq(seen).push(up(v)));
        },
        Ty::Fun(a, b) => {
            lemma_first_seen_raised(*a, q, seen);
            lemma_first_seen_raised(*b, q, first_seen(*a, q, seen));
        },
        Ty::Con(name, args) => {
            lemma_raised_con(name, args);
            lemma_first_seen_all_raised(t, args.len() as int, q, seen);
            assert(args.take(args.len() as int) =~= args);
            assert(raised_all(args).take(args.len() as int) =~= raised_all(args));
        },
    }
}

/// `lemma_first_seen_raised` for the first `n` arguments of a constructor.
pub proof fn lemma_first_seen_all_raised(t: Ty, n: int, q: Set<u32>, seen: Seq<u32>)
    requires
        t is Con,
        0 <= n <= t->Con_1.len(),
    ensures
        first_seen_all(raised_all(t->Con_1).take(n), raised_set(q), raised_seq(seen))
            == raised_seq(first_seen_all(t->Con_1.take(n), q, seen)),
    decreases t, 0nat, n,
{
    let args = t->Con_1;
    if n > 0 {
        lemma_first_seen_all_raised(t, n - 1, q, seen);
        assert(args.take(n).drop_last() =~= args.take(n - 1));
        assert(raised_all(args).take(n).drop_last() =~= raised_all(args).take(n - 1));
        lemma_first_seen_raised(args[n - 1], q, first_seen_all(args.take(n - 1), q, seen));
    } else {
        assert(args.take(0) =~= Seq::<Ty>::empty());
        assert(raised_all(args).take(0) =~= Seq::<Ty>::empty());
    }
}

/// The variable that follows `v` stands in the raised list where `v`
/// stands in the list.
pub proof fn lemma_position_raised(order: Seq<u32>, v: u32)
    ensures
        position(raised_seq(order), up(v)) == position(order, v),
    decreases order.len(),
{
    if order.len() > 0 {
        assert(down(up(order[0])) == order[0] && down(up(v)) == v);
        assert(raised_seq(order).drop_first() =~= raised_seq(order.drop_first()));
        lemma_position_raised(order.drop_first(), v);
    }
}

/// Two renamings, one after the other, come to the same as two others
/// that send each variable of the type to the same variable in the end.
pub proof fn lemma_renamed_twice(
    t: Ty,
    f: spec_fn(u32) -> u32,
    g: spec_fn(u32) -> u32,
    h: spec_fn(u32) -> u32,
    k: spec_fn(u32) -> u32,
)
    requires
        forall|v: u32| #[trigger] t.occurs(v) ==> g(f(v)) == k(h(v)),
    ensures
        t.renamed(f).renamed(g) == t.renamed(h).renamed(k),
    decreases t,
{
    match t {
        Ty::Var(v) => {
            assert(t.occurs(v));
        },
        Ty::Fun(a, b) => {
            assert forall|v: u32| #[trigger] a.occurs(v) implies g(f(v)) == k(h(v)) by {
                assert(t.occurs(v));
            }
            assert forall|v: u32| #[trigger] b.occurs(v) implies g(f(v)) == k(h(v)) by {
                assert(t.occurs(v));
            }
            lemma_renamed_twice(*a, f, g, h, k);
            lemma_renamed_twice(*b, f, g, h, k);
        },
        Ty::Con(name, args) => {
            lemma_renamed_con(f, name, args);
            lemma_renamed_con(h, name, args);
            let first = t.renamed(f)->Con_1;
            let other = t.renamed(h)->Con_1;
            lemma_renamed_con(g, name, first);
            lemma_renamed_con(k, name, other);
            let left = t.renamed(f).renamed(g)->Con_1;
            let right = t.renamed(h).renamed(k)->Con_1;
            assert forall|i: int| 0 <= i < args.len() implies left[i] == right[i] by {
                let arg = args[i];
                assert forall|v: u32| #[trigger] arg.occurs(v) implies g(f(v)) == k(h(v)) by {
                    lemma_occurs_arg(name, args, i, v);
                }
                lemma_renamed_twice(arg, f, g, h, k);
            }
            assert(left =~= right);
        },
    }
}

/// The raised scheme has its quantified variables in the order of the
/// scheme.
pub proof fn lemma_instance_vars_raised(scheme: Scheme)
    ensures
        instance_vars(raised_scheme(scheme)) == raised_seq(instance_vars(scheme)),
{
    lemma_first_seen_raised(scheme.body, scheme.quantified, Seq::empty());
    assert(raised_seq(Seq::<u32>::empty()) =~= Seq::<u32>::empty());
}

/// The instance of the raised scheme, with the generator one further, is
/// the instance of the scheme, raised; where the generator has the
/// variables.
pub proof fn lemma_instantiate_raised(scheme: Scheme, last: nat)
    requires
        last + 1 + instance_vars(scheme).len() <= u32::MAX,
    ensures
        instantiate(raised_scheme(scheme), last + 1) == raised(instantiate(scheme, last)),
{
    let order = instance_vars(scheme);
    let above = raised_seq(order);
    lemma_first_seen_raised(scheme.body, scheme.quantified, Seq::empty());
    assert(raised_seq(Seq::<u32>::empty()) =~= Seq::<u32>::empty());
    assert(instance_vars(raised_scheme(scheme)) == above);
    let f = shift(order, last);
    let g = shift(above, last + 1);
    assert forall|v: u32| #[trigger] scheme.body.occurs(v) implies g(raise()(v)) == raise()(
        f(v),
    ) by {
        lemma_raised_seq_contains(order, v);
        lemma_position_raised(order, v);
        if order.contains(v) {
            lemma_position_found(order, v);
        }
    }
    lemma_renamed_twice(scheme.body, raise(), g, f, raise());
}

/// The free variables of the raised environment are those that follow the
/// free variables of the environment.
pub proof fn lemma_env_vars_raised(env: Seq<(Seq<char>, Scheme)>)
    ensures
        env_vars(raised_env(env)) == raised_set(env_vars(env)),
{
    let above = raised_env(env);
    assert forall|k: u32| env_vars(above).contains(k) <==> raised_set(env_vars(env)).contains(
        k,
    ) by {
        if env_vars(above).contains(k) {
            let i = choose|i: int|
                0 <= i < above.len() && (#[trigger] above[i]).1.free_vars().contains(k);
            lemma_raised_occurs(env[i].1.body, k);
            assert(env[i].1.free_vars().contains(down(k)));
        }
        if env_vars(env).contains(down(k)) {
            let i = choose|i: int|
                0 <= i < env.len() && (#[trigger] env[i]).1.free_vars().contains(down(k));
            lemma_raised_occurs(env[i].1.body, k);
            assert(above[i].1.free_vars().contains(k));
        }
    }
    assert(env_vars(above) =~= raised_set(env_vars(env)));
}

/// Generalising the raised type against the raised environment gives the
/// raised scheme.
pub proof fn lemma_generalize_raised(t: Ty, env: Seq<(Seq<char>, Scheme)>)
    ensures
        generalize(raised(t), raised_env(env)) == raised_scheme(generalize(t, env)),
{
    lemma_env_vars_raised(env);
    let left = generalize(raised(t), raised_env(env)).quantified;
    let right = raised_set(generalize(t, env).quantified);
    assert forall|k: u32| left.contains(k) <==> right.contains(k) by {
        lemma_raised_occurs(t, k);
    }
    assert(left =~= right);
}

/// The raised scheme under the raised substitution is the scheme under the
/// substitution, raised.
pub proof fn lemma_apply_scheme_raised(s: Map<u32, Ty>, scheme: Scheme)
    requires
        acyclic(s),
    ensures
        apply_scheme(raised_sub(s), raised_scheme(scheme)) == raised_scheme(
            apply_scheme(s, scheme),
        ),
{
    let rest = s.remove_keys(scheme.quantified);
    lemma_remove_keys_acyclic(s, scheme.quantified);
    lemma_apply_raised(rest, scheme.body);
    assert(raised_sub(s).remove_keys(raised_set(scheme.quantified)) =~= raised_sub(rest));
}

/// The raised environment under the raised substitution is the
/// environment under the substitution, raised.
pub proof fn lemma_apply_env_raised(s: Map<u32, Ty>, env: Seq<(Seq<char>, Scheme)>)
    requires
        acyclic(s),
    ensures
        apply_env(raised_sub(s), raised_env(env)) == raised_env(apply_env(s, env)),
{
    assert forall|i: int| 0 <= i < env.len() implies apply_env(raised_sub(s), raised_env(env))[i]
        == raised_env(apply_env(s, env))[i] by {
        lemma_apply_scheme_raised(s, env[i].1);
    }
    assert(apply_env(raised_sub(s), raised_env(env)) =~= raised_env(apply_env(s, env)));
}

/// The raised environment binds a name to the raised scheme of what the
/// environment binds it to.
pub proof fn lemma_find_raised(env: Seq<(Seq<char>, Scheme)>, x: Seq<char>)
    ensures
        find_frame(raised_env(env), x) == match find_frame(env, x) {
            Some(scheme) => Some(raised_scheme(scheme)),
            None => None,
        },
    decreases env.len(),
{
    if env.len() > 0 {
        assert(raised_env(env).drop_first() =~= raised_env(env.drop_first()));
        lemma_find_raised(env.drop_first(), x);
    }
}

/// The raised environment with one more frame.
pub proof fn lemma_raised_cons(env: Seq<(Seq<char>, Scheme)>, x: Seq<char>, scheme: Scheme)
    ensures
        raised_env(seq![(x, scheme)] + env) == seq![(x, raised_scheme(scheme))] + raised_env(env),
        raised_scheme(Scheme::mono(scheme.body)) == Scheme::mono(raised(scheme.body)),
{
    assert(raised_env(seq![(x, scheme)] + env) =~= seq![(x, raised_scheme(scheme))] + raised_env(
        env,
    ));
    assert(raised_set(Set::<u32>::empty()) =~= Set::<u32>::empty());
}

/// Raising leaves the types `int` and `bool` alone, and acts on a function
/// type side by side.
pub proof fn lemma_raised_constant(a: Ty, b: Ty)
    ensures
        raised(int_ty()) == int_ty(),
        raised(bool_ty()) == bool_ty(),
        raised(fun_ty(a, b)) == fun_ty(raised(a), raised(b)),
{
    lemma_raised_con("int"@, Seq::empty());
    lemma_raised_con("bool"@, Seq::empty());
    assert(raised_all(Seq::<Ty>::empty()) =~= Seq::<Ty>::empty());
}

/// The variable that the generator hands out next, raised, is the one that
/// it hands out after that.
pub proof fn lemma_raised_fresh(last: nat)
    requires
        last + 1 < u32::MAX,
    ensures
        raised(fresh(last)) == fresh(last + 1),
{
}

/// Whether the run `above`, which started with every variable counted one
/// further, goes in step with the run `run`: where it succeeds, so does
/// `run`, and it comes to the same, raised; where `run` succeeds, it
/// succeeds too, unless the variables run out.
pub open spec fn in_step(run: Outcome, above: Outcome) -> bool {
    &&& above.result matches Ok(out) ==> run.result matches Ok(s1) && out == raised_sub(s1)
        && above.last == run.last + 1
    &&& run.result is Ok ==> above.result is Ok || above.result == Err::<
        Map<u32, Ty>,
        Failure,
    >(Failure::OutOfVariables)
}

/// The run of inference with every variable counted one further.
pub open spec fn run_above(
    e: Term,
    expected: Ty,
    env: Seq<(Seq<char>, Scheme)>,
    s: Map<u32, Ty>,
    last: nat,
) -> Outcome {
    infer(e, raised(expected), raised_env(env), raised_sub(s), last + 1)
}

/// Whether inference with every variable counted one further goes in step
/// with inference, at an expression.
pub open spec fn steady(
    e: Term,
    expected: Ty,
    env: Seq<(Seq<char>, Scheme)>,
    s: Map<u32, Ty>,
    last: nat,
) -> bool {
    in_step(infer(e, expected, env, s, last), run_above(e, expected, env, s, last))
}

/// The unifier with every variable counted one further goes in step with
/// the unifier.
pub proof fn lemma_unified_steady(t: Ty, u: Ty, s: Map<u32, Ty>, last: nat)
    requires
        acyclic(s),
    ensures
        in_step(
            Outcome { result: unified(t, u, s), last },
            Outcome { result: unified(raised(t), raised(u), raised_sub(s)), last: last + 1 },
        ),
{
    lemma_unified_raised(t, u, s);
}

/// Inference does not depend on where the generator starts: with every
/// variable counted one further, it goes in step.
pub proof fn lemma_infer_steady(
    e: Term,
    expected: Ty,
    env: Seq<(Seq<char>, Scheme)>,
    s: Map<u32, Ty>,
    last: nat,
)
    requires
        acyclic(s),
    ensures
        steady(e, expected, env, s, last),
    decreases e, 1nat,
{
    lemma_raised_constant(expected, expected);
    match e {
        Term::Num(_) => {
            lemma_unified_steady(expected, int_ty(), s, last);
        },
        Term::Bool(_) => {
            lemma_unified_steady(expected, bool_ty(), s, last);
        },
        Term::Var(x) => {
            lemma_find_raised(env, x);
            if let Some(scheme) = find_frame(env, x) {
                lemma_instance_vars_raised(scheme);
                if last + 1 + instance_vars(scheme).len() <= u32::MAX {
                    lemma_instantiate_raised(scheme, last);
                    lemma_unified_steady(expected, instantiate(scheme, last), s, last);
                }
            }
        },
        Term::BinOp(_, _, _) => {
            lemma_binop_steady(e, expected, env, s, last);
        },
        Term::If(_, _, _) => {
            lemma_if_steady(e, expected, env, s, last);
        },
        Term::Fun(_, _) => {
            lemma_fun_steady(e, expected, env, s, last);
        },
        Term::App(_, _) => {
            lemma_app_steady(e, expected, env, s, last);
        },
        Term::Let(_, _, _) => {
            lemma_let_steady(e, expected, env, s, last);
        },
        Term::LetRec(_, _, _) => {
            lemma_letrec_steady(e, expected, env, s, last);
        },
    }
}

/// `lemma_infer_steady` at a binary operator.
pub proof fn lemma_binop_steady(
    e: Term,
    expected: Ty,
    env: Seq<(Seq<char>, Scheme)>,
    s: Map<u32, Ty>,
    last: nat,
)
    requires
        e is BinOp,
        acyclic(s),
    ensures
        steady(e, expected, env, s, last),
    decreases e, 0nat,
{
    let l = *e->BinOp_0;
    let op = e->BinOp_1;
    let r = *e->BinOp_2;
    if !(is_comparison(op) && last + 1 >= u32::MAX) {
        let start = if is_comparison(op) {
            last + 1
        } else {
            last
        };
        let operand = operand_ty(op, fresh(last));
        lemma_raised_constant(operand, operand);
        if is_comparison(op) {
            lemma_raised_fresh(last);
        }
        assert(raised(operand) == operand_ty(op, fresh(last + 1)));
        let left = infer(l, operand, env, s, start);
        lemma_infer_steady(l, operand, env, s, start);
        lemma_infer_refines(l, operand, env, s, start);
        if let Ok(s1) = left.result {
            if run_above(l, operand, env, s, start).result is Ok {
                let right = infer(r, operand, env, s1, left.last);
                lemma_infer_steady(r, operand, env, s1, left.last);
                lemma_infer_refines(r, operand, env, s1, left.last);
                if let Ok(s2) = right.result {
                    if run_above(r, operand, env, s1, left.last).result is Ok {
                        lemma_raised_constant(expected, expected);
                        lemma_unified_steady(expected, result_ty(op), s2, right.last);
                    }
                }
            }
        }
    }
}

/// `lemma_infer_steady` at a conditional.
pub proof fn lemma_if_steady(
    e: Term,
    expected: Ty,
    env: Seq<(Seq<char>, Scheme)>,
    s: Map<u32, Ty>,
    last: nat,
)
    requires
        e is If,
        acyclic(s),
    ensures
        steady(e, expected, env, s, last),
    decreases e, 0nat,
{
    let p = *e->If_0;
    let c = *e->If_1;
    let f = *e->If_2;
    lemma_raised_constant(expected, expected);
    let cond = infer(p, bool_ty(), env, s, last);
    lemma_infer_steady(p, bool_ty(), env, s, last);
    lemma_infer_refines(p, bool_ty(), env, s, last);
    if let Ok(s1) = cond.result {
        if run_above(p, bool_ty(), env, s, last).result is Ok {
            let first = infer(c, expected, env, s1, cond.last);
            lemma_infer_steady(c, expected, env, s1, cond.last);
            lemma_infer_refines(c, expected, env, s1, cond.last);
            if let Ok(s2) = first.result {
                if run_above(c, expected, env, s1, cond.last).result is Ok {
                    lemma_infer_steady(f, expected, env, s2, first.last);
                }
            }
        }
    }
}

/// `lemma_infer_steady` at a function.
pub proof fn lemma_fun_steady(
    e: Term,
    expected: Ty,
    env: Seq<(Seq<char>, Scheme)>,
    s: Map<u32, Ty>,
    last: nat,
)
    requires
        e is Fun,
        acyclic(s),
    ensures
        steady(e, expected, env, s, last),
    decreases e, 0nat,
{
    let x = e->Fun_0;
    let body = *e->Fun_1;
    if last + 3 <= u32::MAX {
        let a = fresh(last);
        let b = fresh(last + 1);
        lemma_raised_fresh(last);
        lemma_raised_fresh(last + 1);
        lemma_raised_constant(a, b);
        lemma_unified_raised(expected, fun_ty(a, b), s);
        if let Ok(s1) = unified(expected, fun_ty(a, b), s) {
            lemma_unified_sound(expected, fun_ty(a, b), s);
            let env1 = seq![(x, Scheme::mono(a))] + env;
            lemma_raised_cons(env, x, Scheme::mono(a));
            lemma_infer_steady(body, b, env1, s1, last + 2);
        }
    }
}

/// `lemma_infer_steady` at an application.
pub proof fn lemma_app_steady(
    e: Term,
    expected: Ty,
    env: Seq<(Seq<char>, Scheme)>,
    s: Map<u32, Ty>,
    last: nat,
)
    requires
        e is App,
        acyclic(s),
    ensures
        steady(e, expected, env, s, last),
    decreases e, 0nat,
{
    let f = *e->App_0;
    let arg = *e->App_1;
    if last + 1 < u32::MAX {
        let a = fresh(last);
        lemma_raised_fresh(last);
        lemma_raised_constant(a, expected);
        let fun = infer(f, fun_ty(a, expected), env, s, last + 1);
        lemma_infer_steady(f, fun_ty(a, expected), env, s, last + 1);
        lemma_infer_refines(f, fun_ty(a, expected), env, s, last + 1);
        if let Ok(s1) = fun.result {
            if run_above(f, fun_ty(a, expected), env, s, last + 1).result is Ok {
                lemma_infer_steady(arg, a, env, s1, fun.last);
            }
        }
    }
}

/// What follows the value of a `let` or a `letrec` goes in step, where
/// the value did.
pub proof fn lemma_body_steady(
    body: Term,
    x: Seq<char>,
    expected: Ty,
    env: Seq<(Seq<char>, Scheme)>,
    a: Ty,
    s1: Map<u32, Ty>,
    mid: nat,
)
    requires
        acyclic(s1),
        forall|env1: Seq<(Seq<char>, Scheme)>| #[trigger] steady(body, expected, env1, s1, mid),
    ensures
        in_step(
            infer(
                body,
                expected,
                seq![(x, generalize(apply(s1, a), apply_env(s1, env)))] + env,
                s1,
                mid,
            ),
            infer(
                body,
                raised(expected),
                seq![
                    (
                        x,
                        generalize(
                            apply(raised_sub(s1), raised(a)),
                            apply_env(raised_sub(s1), raised_env(env)),
                        ),
                    ),
                ] + raised_env(env),
                raised_sub(s1),
                mid + 1,
            ),
        ),
{
    let scheme = generalize(apply(s1, a), apply_env(s1, env));
    let env1 = seq![(x, scheme)] + env;
    lemma_apply_raised(s1, a);
    lemma_apply_env_raised(s1, env);
    lemma_generalize_raised(apply(s1, a), apply_env(s1, env));
    lemma_raised_cons(env, x, scheme);
    assert(steady(body, expected, env1, s1, mid));
}

/// `lemma_infer_steady` at a `let`.
pub proof fn lemma_let_steady(
    e: Term,
    expected: Ty,
    env: Seq<(Seq<char>, Scheme)>,
    s: Map<u32, Ty>,
    last: nat,
)
    requires
        e is Let,
        acyclic(s),
    ensures
        steady(e, expected, env, s, last),
    decreases e, 0nat,
{
    let x = e->Let_0;
    let v = *e->Let_1;
    let body = *e->Let_2;
    if last + 1 < u32::MAX {
        let a = fresh(last);
        lemma_raised_fresh(last);
        let val = infer(v, a, env, s, last + 1);
        lemma_infer_steady(v, a, env, s, last + 1);
        lemma_infer_refines(v, a, env, s, last + 1);
        if let Ok(s1) = val.result {
            if run_above(v, a, env, s, last + 1).result is Ok {
                assert forall|env1: Seq<(Seq<char>, Scheme)>| #[trigger]
                    steady(body, expected, env1, s1, val.last) by {
                    lemma_infer_steady(body, expected, env1, s1, val.last);
                }
                lemma_body_steady(body, x, expected, env, a, s1, val.last);
            }
        }
    }
}

/// `lemma_infer_steady` at a `letrec`.
pub proof fn lemma_letrec_steady(
    e: Term,
    expected: Ty,
    env: Seq<(Seq<char>, Scheme)>,
    s: Map<u32, Ty>,
    last: nat,
)
    requires
        e is LetRec,
        acyclic(s),
    ensures
        steady(e, expected, env, s, last),
    decreases e, 0nat,
{
    let x = e->LetRec_0;
    let v = *e->LetRec_1;
    let body = *e->LetRec_2;
    if last + 1 < u32::MAX {
        let a = fresh(last);
        lemma_raised_fresh(last);
        let env0 = seq![(x, Scheme::mono(a))] + env;
        lemma_raised_cons(env, x, Scheme::mono(a));
        let val = infer(v, a, env0, s, last + 1);
        lemma_infer_steady(v, a, env0, s, last + 1);
        lemma_infer_refines(v, a, env0, s, last + 1);
        if let Ok(s1) = val.result {
            if run_above(v, a, env0, s, last + 1).result is Ok {
                assert forall|env1: Seq<(Seq<char>, Scheme)>| #[trigger]
                    steady(body, expected, env1, s1, val.last) by {
                    lemma_infer_steady(body, expected, env1, s1, val.last);
                }
                lemma_body_steady(body, x, expected, env, a, s1, val.last);
            }
        }
    }
}

/// The type that inference gives to an expression does not depend on where
/// the generator starts: with every variable counted one further,
/// inference gives the same type, raised; and it gives one where inference
/// gives one, unless the variables run out.
pub proof fn lemma_principal_steady(e: Term, env: Seq<(Seq<char>, Scheme)>, last: nat)
    ensures
        principal(e, raised_env(env), last + 1).0 matches Ok(t) ==> principal(e, env, last).0
            == Ok::<Ty, Failure>(principal(e, env, last).0->Ok_0) && t == raised(
            principal(e, env, last).0->Ok_0,
        ),
        principal(e, env, last).0 is Ok ==> principal(e, raised_env(env), last + 1).0 is Ok
            || principal(e, raised_env(env), last + 1).0 == Err::<Ty, Failure>(
            Failure::OutOfVariables,
        ),
{
    if last + 1 < u32::MAX {
        let a = fresh(last);
        let none = Map::<u32, Ty>::empty();
        lemma_apply_empty(a);
        lemma_raised_fresh(last);
        assert(raised_sub(none) =~= none);
        lemma_infer_steady(e, a, env, none, last + 1);
        lemma_infer_refines(e, a, env, none, last + 1);
        if let Ok(s1) = infer(e, a, env, none, last + 1).result {
            lemma_apply_raised(s1, a);
        }
    }
}

/// The renaming that leaves each variable as it is.
pub open spec fn same() -> spec_fn(u32) -> u32 {
    |v: u32| v
}

/// The renaming `f` and then the renaming `g`.
pub open spec fn then(f: spec_fn(u32) -> u32, g: spec_fn(u32) -> u32) -> spec_fn(u32) -> u32 {
    |v: u32| g(f(v))
}

/// Renaming each variable to itself changes nothing.
pub proof fn lemma_renamed_same(t: Ty)
    ensures
        t.renamed(same()) == t,
    decreases t,
{
    match t {
        Ty::Var(v) => {},
        Ty::Fun(a, b) => {
            lemma_renamed_same(*a);
            lemma_renamed_same(*b);
        },
        Ty::Con(name, args) => {
            lemma_renamed_con(same(), name, args);
            let out = t.renamed(same())->Con_1;
            assert forall|i: int| 0 <= i < args.len() implies out[i] == args[i] by {
                lemma_renamed_same(args[i]);
            }
            assert(out =~= args);
        },
    }
}

/// A variable of a type is, renamed, a variable of the renamed type.
pub proof fn lemma_renamed_occurs(t: Ty, f: spec_fn(u32) -> u32, v: u32)
    requires
        t.occurs(v),
    ensures
        t.renamed(f).occurs(f(v)),
    decreases t,
{
    match t {
        Ty::Var(w) => {},
        Ty::Fun(a, b) => {
            if a.occurs(v) {
                lemma_renamed_occurs(*a, f, v);
            } else {
                lemma_renamed_occurs(*b, f, v);
            }
        },
        Ty::Con(name, args) => {
            lemma_renamed_con(f, name, args);
            let out = t.renamed(f)->Con_1;
            let i = choose|i: int| 0 <= i < args.len() && (#[trigger] args[i]).occurs(v);
            lemma_renamed_occurs(args[i], f, v);
            lemma_occurs_arg(name, out, i, f(v));
        },
    }
}

/// A type that is like a second one, which is like a third one, is like
/// the third one.
pub proof fn lemma_alike_trans(a: Ty, b: Ty, c: Ty)
    requires
        a.alike(b),
        b.alike(c),
    ensures
        a.alike(c),
{
    let f = choose|f: spec_fn(u32) -> u32| a.told_apart_by(f) && a.renamed(f) == b;
    let g = choose|g: spec_fn(u32) -> u32| b.told_apart_by(g) && b.renamed(g) == c;
    let h = then(f, g);
    lemma_renamed_twice(a, f, g, h, same());
    lemma_renamed_same(a.renamed(h));
    assert forall|v: u32, w: u32|
        #![trigger a.occurs(v), a.occurs(w)]
        a.occurs(v) && a.occurs(w) && h(v) == h(w) implies v == w by {
        lemma_renamed_occurs(a, f, v);
        lemma_renamed_occurs(a, f, w);
        assert(b.occurs(f(v)) && b.occurs(f(w)));
    }
    assert(a.told_apart_by(h) && a.renamed(h) == c);
}

/// A type is like the raised type.
pub proof fn lemma_raised_alike(t: Ty)
    ensures
        t.alike(raised(t)),
{
    let f = raise();
    assert forall|v: u32, w: u32|
        #![trigger t.occurs(v), t.occurs(w)]
        t.occurs(v) && t.occurs(w) && f(v) == f(w) implies v == w by {
        assert(down(up(v)) == v && down(up(w)) == w);
    }
    assert(t.told_apart_by(f) && t.renamed(f) == raised(t));
}

/// Raising leaves an environment alone in which no variable occurs and
/// none is quantified.
pub proof fn lemma_raised_closed(env: Seq<(Seq<char>, Scheme)>)
    requires
        forall|i: int| 0 <= i < env.len() ==> (#[trigger] env[i]).1.quantified == Set::<
            u32,
        >::empty(),
        forall|i: int, v: u32| 0 <= i < env.len() ==> !(#[trigger] env[i].1.body.occurs(v)),
    ensures
        raised_env(env) == env,
{
    assert(raised_set(Set::<u32>::empty()) =~= Set::<u32>::empty());
    assert forall|i: int| 0 <= i < env.len() implies raised_env(env)[i] == env[i] by {
        let body = env[i].1.body;
        assert forall|v: u32| #[trigger] body.occurs(v) implies same()(raise()(v)) == same()(
            same()(v),
        ) by {
            assert(!env[i].1.body.occurs(v));
        }
        lemma_renamed_twice(body, raise(), same(), same(), same());
        lemma_renamed_same(body);
        lemma_renamed_same(body.renamed(same()));
        lemma_renamed_same(raised(body));
    }
    assert(raised_env(env) =~= env);
}

} // verus!

//! The theory of the inferencer: type schemes, typing environments,
//! instantiation, generalisation, and the type that inference assigns to an
//! expression.

use crate::ast::{lemma_occurs_arg, Op, Term, Ty};
use crate::render::render;
use crate::substitution::{acyclic, apply, lemma_refines_trans, refines};
use crate::unification::{lemma_unify_sound, unify};
use vstd::prelude::*;

verus! {

/// The mathematical model of a type scheme: a type with some of its
/// variables quantified.
pub struct Scheme {
    /// The type under the quantifier.
    pub body: Ty,
    /// The quantified variables.
    pub quantified: Set<u32>,
}

impl Scheme {
    /// The variables of the body that are not quantified.
    pub open spec fn free_vars(self) -> Set<u32> {
        self.body.free_vars() - self.quantified
    }

    /// The scheme of a type of which no variable is quantified.
    pub open spec fn mono(t: Ty) -> Scheme {
        Scheme { body: t, quantified: Set::empty() }
    }
}

/// The mathematical model of an error.
pub enum Failure {
    /// A name that the environment does not bind.
    UndefinedName(Seq<char>),
    /// Two types that cannot be made equal, in a message.
    TypeError(Seq<char>),
    /// More type variables were needed than there are numbers for them.
    OutOfVariables,
}

/// The variables that are free in a scheme of the environment `env`.
pub open spec fn env_vars(env: Seq<(Seq<char>, Scheme)>) -> Set<u32> {
    Set::new(
        |v: u32| exists|i: int| 0 <= i < env.len() && (#[trigger] env[i]).1.free_vars().contains(v),
    )
}

/// The scheme of the innermost frame of `env` that binds `name`.
pub open spec fn find_frame(env: Seq<(Seq<char>, Scheme)>, name: Seq<char>) -> Option<Scheme>
    decreases env.len(),
{
    if env.len() == 0 {
        None
    } else if env[0].0 == name {
        Some(env[0].1)
    } else {
        find_frame(env.drop_first(), name)
    }
}

/// The variables of `q` that occur in `t` and are not in `seen`, added to
/// `seen` in the order in which they first occur, from left to right.
pub open spec fn first_seen(t: Ty, q: Set<u32>, seen: Seq<u32>) -> Seq<u32>
    decreases t,
{
    match t {
        Ty::Var(v) => if q.contains(v) && !seen.contains(v) {
            seen.push(v)
        } else {
            seen
        },
        Ty::Fun(a, b) => first_seen(*b, q, first_seen(*a, q, seen)),
        Ty::Con(_, args) => first_seen_all(args, q, seen),
    }
}

/// `first_seen` over the types of `ts`, from the first to the last.
pub open spec fn first_seen_all(ts: Seq<Ty>, q: Set<u32>, seen: Seq<u32>) -> Seq<u32>
    decreases ts,
{
    if ts.len() == 0 {
        seen
    } else {
        first_seen(ts.last(), q, first_seen_all(ts.drop_last(), q, seen))
    }
}

/// The place of the first `v` in `order`, or the length of `order` if `v` is
/// not in it.
pub open spec fn position(order: Seq<u32>, v: u32) -> nat
    decreases order.len(),
{
    if order.len() == 0 {
        0
    } else if order[0] == v {
        0
    } else {
        1 + position(order.drop_first(), v)
    }
}

/// The renaming that sends each variable of `order` to the variable
/// numbered `base + 1` plus its place in `order`, and leaves the others.
pub open spec fn shift(order: Seq<u32>, base: nat) -> spec_fn(u32) -> u32 {
    |v: u32|
        if order.contains(v) {
            (base + 1 + position(order, v)) as u32
        } else {
            v
        }
}

/// The type `t` with each variable of `order` replaced by the variable
/// numbered `base + 1` plus its place in `order`.
pub open spec fn rename(t: Ty, order: Seq<u32>, base: nat) -> Ty {
    t.renamed(shift(order, base))
}

/// The quantified variables of a scheme that occur in its body, in the order
/// in which they first occur.
pub open spec fn instance_vars(scheme: Scheme) -> Seq<u32> {
    first_seen(scheme.body, scheme.quantified, Seq::empty())
}

/// The instance of a scheme whose quantified variables are replaced by the
/// variables that follow the one numbered `last`: the quantified variable
/// that occurs first gets the number `last + 1`, the next one `last + 2`,
/// and so on.
pub open spec fn instantiate(scheme: Scheme, last: nat) -> Ty {
    rename(scheme.body, instance_vars(scheme), last)
}

/// The scheme of `t` in which every variable is quantified that is not free
/// in the environment.
pub open spec fn generalize(t: Ty, env: Seq<(Seq<char>, Scheme)>) -> Scheme {
    Scheme { body: t, quantified: t.free_vars() - env_vars(env) }
}

/// A scheme under a substitution, which leaves the quantified variables
/// alone.
pub open spec fn apply_scheme(s: Map<u32, Ty>, scheme: Scheme) -> Scheme {
    Scheme {
        body: apply(s.remove_keys(scheme.quantified), scheme.body),
        quantified: scheme.quantified,
    }
}

/// An environment under a substitution, scheme by scheme.
pub open spec fn apply_env(s: Map<u32, Ty>, env: Seq<(Seq<char>, Scheme)>) -> Seq<
    (Seq<char>, Scheme),
> {
    Seq::new(env.len(), |i: int| (env[i].0, apply_scheme(s, env[i].1)))
}

/// The type `int`.
pub open spec fn int_ty() -> Ty {
    Ty::Con("int"@, Seq::empty())
}

/// The type `bool`.
pub open spec fn bool_ty() -> Ty {
    Ty::Con("bool"@, Seq::empty())
}

/// The type of the lists of `t`.
pub open spec fn list_ty(t: Ty) -> Ty {
    Ty::Con("List"@, seq![t])
}

/// The type of the functions from `a` to `b`.
pub open spec fn fun_ty(a: Ty, b: Ty) -> Ty {
    Ty::Fun(Box::new(a), Box::new(b))
}

/// The variable that follows the one numbered `last`.
pub open spec fn fresh(last: nat) -> Ty {
    Ty::Var((last + 1) as u32)
}

/// The message of a type error about the types `a` and `b`.
pub open spec fn mismatch_message(a: Ty, b: Ty) -> Seq<char> {
    "cannot unify "@ + render(a) + " with "@ + render(b)
}

/// What the unifier returns: the substitution, or the type error about the
/// two types at which unification failed.
pub open spec fn unified(t: Ty, u: Ty, s: Map<u32, Ty>) -> Result<Map<u32, Ty>, Failure> {
    match unify(t, u, s) {
        Ok(m) => Ok(m),
        Err((a, b)) => Err(Failure::TypeError(mismatch_message(a, b))),
    }
}

/// Where inference stands after an expression: the substitution or the
/// error, and the number of the type variable that was handed out last.
pub struct Outcome {
    /// The substitution, or the error that ended inference.
    pub result: Result<Map<u32, Ty>, Failure>,
    /// The number of the type variable that was handed out last.
    pub last: nat,
}

/// Whether operands of any one type are accepted by the operator.
pub open spec fn is_comparison(op: Op) -> bool {
    op is Equal || op is Lt || op is Gt
}

/// The type of the operands of an operator; `operand` is the type for the
/// operators that accept operands of any one type.
pub open spec fn operand_ty(op: Op, operand: Ty) -> Ty {
    match op {
        Op::Add | Op::Sub | Op::Mul | Op::Div => int_ty(),
        Op::And | Op::Or => bool_ty(),
        Op::Equal | Op::Lt | Op::Gt => operand,
    }
}

/// The type of the result of an operator.
pub open spec fn result_ty(op: Op) -> Ty {
    match op {
        Op::Add | Op::Sub | Op::Mul | Op::Div => int_ty(),
        _ => bool_ty(),
    }
}

/// Inference failed for want of type variables.
pub open spec fn exhausted(last: nat) -> Outcome {
    Outcome { result: Err(Failure::OutOfVariables), last }
}

/// The refinement of the substitution `s` under which the expression `e`
/// has the type `expected` in the environment `env`, where `last` is the
/// number of the type variable that was handed out last.
pub open spec fn infer(
    e: Term,
    expected: Ty,
    env: Seq<(Seq<char>, Scheme)>,
    s: Map<u32, Ty>,
    last: nat,
) -> Outcome
    decreases e,
{
    match e {
        Term::Num(_) => Outcome { result: unified(expected, int_ty(), s), last },
        Term::Bool(_) => Outcome { result: unified(expected, bool_ty(), s), last },
        Term::Var(name) => match find_frame(env, name) {
            None => Outcome { result: Err(Failure::UndefinedName(name)), last },
            Some(scheme) => if last + instance_vars(scheme).len() > u32::MAX {
                exhausted(last)
            } else {
                Outcome {
                    result: unified(expected, instantiate(scheme, last), s),
                    last: last + instance_vars(scheme).len(),
                }
            },
        },
        Term::BinOp(l, op, r) => if is_comparison(op) && last >= u32::MAX {
            exhausted(last)
        } else {
            let start = if is_comparison(op) {
                last + 1
            } else {
                last
            };
            let operand = operand_ty(op, fresh(last));
            let left = infer(*l, operand, env, s, start);
            match left.result {
                Err(_) => left,
                Ok(s1) => {
                    let right = infer(*r, operand, env, s1, left.last);
                    match right.result {
                        Err(_) => right,
                        Ok(s2) => Outcome {
                            result: unified(expected, result_ty(op), s2),
                            last: right.last,
                        },
                    }
                },
            }
        },
        Term::If(p, t, f) => {
            let cond = infer(*p, bool_ty(), env, s, last);
            match cond.result {
                Err(_) => cond,
                Ok(s1) => {
                    let first = infer(*t, expected, env, s1, cond.last);
                    match first.result {
                        Err(_) => first,
                        Ok(s2) => infer(*f, expected, env, s2, first.last),
                    }
                },
            }
        },
        Term::Fun(x, body) => if last + 2 > u32::MAX {
            exhausted(last)
        } else {
            let a = fresh(last);
            let b = fresh(last + 1);
            match unified(expected, fun_ty(a, b), s) {
                Err(f) => Outcome { result: Err(f), last: last + 2 },
                Ok(s1) => infer(*body, b, seq![(x, Scheme::mono(a))] + env, s1, last + 2),
            }
        },
        Term::App(f, arg) => if last >= u32::MAX {
            exhausted(last)
        } else {
            let a = fresh(last);
            let fun = infer(*f, fun_ty(a, expected), env, s, last + 1);
            match fun.result {
                Err(_) => fun,
                Ok(s1) => infer(*arg, a, env, s1, fun.last),
            }
        },
        Term::Let(x, v, body) => if last >= u32::MAX {
            exhausted(last)
        } else {
            let a = fresh(last);
            let val = infer(*v, a, env, s, last + 1);
            match val.result {
                Err(_) => val,
                Ok(s1) => {
                    let scheme = generalize(apply(s1, a), apply_env(s1, env));
                    infer(*body, expected, seq![(x, scheme)] + env, s1, val.last)
                },
            }
        },
        Term::LetRec(x, v, body) => if last >= u32::MAX {
            exhausted(last)
        } else {
            let a = fresh(last);
            let val = infer(*v, a, seq![(x, Scheme::mono(a))] + env, s, last + 1);
            match val.result {
                Err(_) => val,
                Ok(s1) => {
                    let scheme = generalize(apply(s1, a), apply_env(s1, env));
                    infer(*body, expected, seq![(x, scheme)] + env, s1, val.last)
                },
            }
        },
    }
}

/// The type of the expression `e` in the environment `env`, or the error
/// that ended inference, together with the number of the type variable that
/// was handed out last.
pub open spec fn principal(e: Term, env: Seq<(Seq<char>, Scheme)>, last: nat) -> (
    Result<Ty, Failure>,
    nat,
) {
    if last >= u32::MAX {
        (Err(Failure::OutOfVariables), last)
    } else {
        let a = fresh(last);
        let run = infer(e, a, env, Map::empty(), last + 1);
        match run.result {
            Ok(s) => (Ok(apply(s, a)), run.last),
            Err(f) => (Err(f), run.last),
        }
    }
}

/// The environment of the list primitives, each generalised over a type
/// variable of its own: the five that follow the one numbered `last`.
pub open spec fn prelude(last: nat) -> Seq<(Seq<char>, Scheme)> {
    let a1 = fresh(last);
    let a2 = fresh(last + 1);
    let a3 = fresh(last + 2);
    let a4 = fresh(last + 3);
    let a5 = fresh(last + 4);
    seq![
        ("is_nil"@, generalize(fun_ty(list_ty(a5), bool_ty()), Seq::empty())),
        ("rest"@, generalize(fun_ty(list_ty(a4), list_ty(a4)), Seq::empty())),
        ("first"@, generalize(fun_ty(list_ty(a3), a3), Seq::empty())),
        ("pair"@, generalize(fun_ty(a2, fun_ty(list_ty(a2), list_ty(a2))), Seq::empty())),
        ("nil"@, generalize(list_ty(a1), Seq::empty())),
    ]
}

/// What `first_seen` returns holds what was seen before, and beyond that
/// exactly the variables of `q` that occur in `t`, each once.
pub proof fn lemma_first_seen(t: Ty, q: Set<u32>, seen: Seq<u32>)
    ensures
        forall|v: u32|
            first_seen(t, q, seen).contains(v) <==> seen.contains(v) || (q.contains(v)
                && t.occurs(v)),
        seen.no_duplicates() ==> first_seen(t, q, seen).no_duplicates(),
    decreases t, (if t is Con { t->Con_1.len() + 1 } else { 0 }),
{
    match t {
        Ty::Var(x) => {
            let out = first_seen(t, q, seen);
            if q.contains(x) && !seen.contains(x) {
                assert forall|v: u32| out.contains(v) <==> seen.contains(v) || (q.contains(v)
                    && t.occurs(v)) by {
                    if out.contains(v) {
                        let i = choose|i: int| 0 <= i < out.len() && out[i] == v;
                        if i < seen.len() {
                            assert(seen[i] == v);
                        }
                    }
                    if seen.contains(v) {
                        let i = choose|i: int| 0 <= i < seen.len() && seen[i] == v;
                        assert(out[i] == v);
                    }
                    if v == x {
                        assert(out[seen.len() as int] == v);
                    }
                }
            }
        },
        Ty::Fun(a, b) => {
            lemma_first_seen(*a, q, seen);
            lemma_first_seen(*b, q, first_seen(*a, q, seen));
        },
        Ty::Con(name, args) => {
            lemma_first_seen_all(t, args, args.len() as int, q, seen);
            assert(args.take(args.len() as int) =~= args);
            assert forall|v: u32|
                first_seen(t, q, seen).contains(v) <==> seen.contains(v) || (q.contains(v)
                    && t.occurs(v)) by {
                if t.occurs(v) {
                    let i = choose|i: int| 0 <= i < args.len() && (#[trigger] args[i]).occurs(v);
                    assert(args[i].occurs(v));
                }
                if first_seen(t, q, seen).contains(v) && !seen.contains(v) {
                    let i = choose|i: int| 0 <= i < args.len() && (#[trigger] args[i]).occurs(v);
                    lemma_occurs_arg(name, args, i, v);
                }
            }
        },
    }
}

/// `lemma_first_seen` for the first `n` arguments of a constructor.
pub proof fn lemma_first_seen_all(t: Ty, ts: Seq<Ty>, n: int, q: Set<u32>, seen: Seq<u32>)
    requires
        t matches Ty::Con(_, args) && args == ts,
        0 <= n <= ts.len(),
    ensures
        forall|v: u32|
            first_seen_all(ts.take(n), q, seen).contains(v) <==> seen.contains(v) || (q.contains(
                v,
            ) && exists|i: int| 0 <= i < n && (#[trigger] ts[i]).occurs(v)),
        seen.no_duplicates() ==> first_seen_all(ts.take(n), q, seen).no_duplicates(),
    decreases t, n,
{
    if n > 0 {
        let k = n - 1;
        assert(ts.take(n).drop_last() =~= ts.take(k));
        assert(ts.take(n).last() == ts[k]);
        lemma_first_seen_all(t, ts, k, q, seen);
        let before = first_seen_all(ts.take(k), q, seen);
        lemma_first_seen(ts[k], q, before);
        assert forall|v: u32|
            first_seen_all(ts.take(n), q, seen).contains(v) <==> seen.contains(v) || (q.contains(
                v,
            ) && exists|i: int| 0 <= i < n && (#[trigger] ts[i]).occurs(v)) by {
            if before.contains(v) && !seen.contains(v) {
                let i = choose|i: int| 0 <= i < k && (#[trigger] ts[i]).occurs(v);
                assert(0 <= i < n && ts[i].occurs(v));
            }
            if ts[k].occurs(v) {
                assert(0 <= k < n && ts[k].occurs(v));
            }
            if exists|i: int| 0 <= i < n && (#[trigger] ts[i]).occurs(v) {
                let i = choose|i: int| 0 <= i < n && (#[trigger] ts[i]).occurs(v);
                if i < k {
                    assert(0 <= i < k && ts[i].occurs(v));
                }
            }
        }
    } else {
        assert(ts.take(0) =~= Seq::empty());
    }
}

/// A value of a sequence stands at its place.
pub proof fn lemma_position_found(order: Seq<u32>, v: u32)
    requires
        order.contains(v),
    ensures
        position(order, v) < order.len(),
        order[position(order, v) as int] == v,
    decreases order.len(),
{
    if order[0] != v {
        let rest = order.drop_first();
        let i = choose|i: int| 0 <= i < order.len() && order[i] == v;
        assert(rest[i - 1] == v);
        lemma_position_found(rest, v);
    }
}

/// An instance of a scheme is its body with the variables renamed: the
/// variables that are not quantified stay, and the quantified ones go to
/// variables that were not handed out before, no two of them to the same.
pub proof fn lemma_instance_renaming(scheme: Scheme, last: nat)
    requires
        last + instance_vars(scheme).len() <= u32::MAX,
    ensures
        ({
            let f = shift(instance_vars(scheme), last);
            &&& instantiate(scheme, last) == scheme.body.renamed(f)
            &&& forall|v: u32|
                #![trigger scheme.body.occurs(v)]
                scheme.body.occurs(v) && !scheme.quantified.contains(v) ==> f(v) == v
            &&& forall|v: u32|
                #![trigger scheme.body.occurs(v)]
                scheme.body.occurs(v) && scheme.quantified.contains(v) ==> last < f(v) <= last
                    + instance_vars(scheme).len()
            &&& forall|v: u32, w: u32|
                #![trigger scheme.body.occurs(v), scheme.body.occurs(w)]
                scheme.body.occurs(v) && scheme.body.occurs(w) && scheme.quantified.contains(v)
                    && scheme.quantified.contains(w) && f(v) == f(w) ==> v == w
        }),
{
    let order = instance_vars(scheme);
    let f = shift(order, last);
    lemma_first_seen(scheme.body, scheme.quantified, Seq::empty());
    assert forall|v: u32|
        #![trigger scheme.body.occurs(v)]
        scheme.body.occurs(v) && scheme.quantified.contains(v) implies last < f(v) <= last
            + order.len() by {
        lemma_position_found(order, v);
    }
    assert forall|v: u32, w: u32|
        #![trigger scheme.body.occurs(v), scheme.body.occurs(w)]
        scheme.body.occurs(v) && scheme.body.occurs(w) && scheme.quantified.contains(v)
            && scheme.quantified.contains(w) && f(v) == f(w) implies v == w by {
        lemma_position_found(order, v);
        lemma_position_found(order, w);
    }
}

/// What the unifier returns refines the substitution it was given and makes
/// the two types equal.
pub proof fn lemma_unified_sound(t: Ty, u: Ty, s: Map<u32, Ty>)
    requires
        acyclic(s),
        unified(t, u, s) is Ok,
    ensures
        acyclic(unified(t, u, s)->Ok_0),
        refines(unified(t, u, s)->Ok_0, s),
        apply(unified(t, u, s)->Ok_0, t) == apply(unified(t, u, s)->Ok_0, u),
{
    lemma_unify_sound(t, u, s);
}

/// Inference hands out type variables in increasing order, and the
/// substitution it returns refines the one it was given.
pub proof fn lemma_infer_refines(
    e: Term,
    expected: Ty,
    env: Seq<(Seq<char>, Scheme)>,
    s: Map<u32, Ty>,
    last: nat,
)
    requires
        acyclic(s),
    ensures
        infer(e, expected, env, s, last).last >= last,
        infer(e, expected, env, s, last).result matches Ok(s1) ==> acyclic(s1) && refines(s1, s),
    decreases e,
{
    match e {
        Term::Num(_) => {
            if unified(expected, int_ty(), s) is Ok {
                lemma_unified_sound(expected, int_ty(), s);
            }
        },
        Term::Bool(_) => {
            if unified(expected, bool_ty(), s) is Ok {
                lemma_unified_sound(expected, bool_ty(), s);
            }
        },
        Term::Var(name) => {
            match find_frame(env, name) {
                None => {},
                Some(scheme) => {
                    if unified(expected, instantiate(scheme, last), s) is Ok {
                        lemma_unified_sound(expected, instantiate(scheme, last), s);
                    }
                },
            }
        },
        Term::BinOp(l, op, r) => {
            if !(is_comparison(op) && last >= u32::MAX) {
                let start = if is_comparison(op) {
                    last + 1
                } else {
                    last
                };
                let operand = operand_ty(op, fresh(last));
                lemma_infer_refines(*l, operand, env, s, start);
                let left = infer(*l, operand, env, s, start);
                match left.result {
                    Err(_) => {},
                    Ok(s1) => {
                        lemma_infer_refines(*r, operand, env, s1, left.last);
                        let right = infer(*r, operand, env, s1, left.last);
                        match right.result {
                            Err(_) => {},
                            Ok(s2) => {
                                lemma_refines_trans(s2, s1, s);
                                if unified(expected, result_ty(op), s2) is Ok {
                                    lemma_unified_sound(expected, result_ty(op), s2);
                                    lemma_refines_trans(
                                        unified(expected, result_ty(op), s2)->Ok_0,
                                        s2,
                                        s,
                                    );
                                }
                            },
                        }
                    },
                }
            }
        },
        Term::If(p, t, f) => {
            lemma_infer_refines(*p, bool_ty(), env, s, last);
            let cond = infer(*p, bool_ty(), env, s, last);
            match cond.result {
                Err(_) => {},
                Ok(s1) => {
                    lemma_infer_refines(*t, expected, env, s1, cond.last);
                    let first = infer(*t, expected, env, s1, cond.last);
                    match first.result {
                        Err(_) => {},
                        Ok(s2) => {
                            lemma_refines_trans(s2, s1, s);
                            lemma_infer_refines(*f, expected, env, s2, first.last);
                            let second = infer(*f, expected, env, s2, first.last);
                            match second.result {
                                Err(_) => {},
                                Ok(s3) => {
                                    lemma_refines_trans(s3, s2, s);
                                },
                            }
                        },
                    }
                },
            }
        },
        Term::Fun(x, body) => {
            if last + 2 <= u32::MAX {
                let a = fresh(last);
                let b = fresh(last + 1);
                match unified(expected, fun_ty(a, b), s) {
                    Err(_) => {},
                    Ok(s1) => {
                        lemma_unified_sound(expected, fun_ty(a, b), s);
                        let env1 = seq![(x, Scheme::mono(a))] + env;
                        lemma_infer_refines(*body, b, env1, s1, last + 2);
                        match infer(*body, b, env1, s1, last + 2).result {
                            Err(_) => {},
                            Ok(s2) => {
                                lemma_refines_trans(s2, s1, s);
                            },
                        }
                    },
                }
            }
        },
        Term::App(f, arg) => {
            if last < u32::MAX {
                let a = fresh(last);
                lemma_infer_refines(*f, fun_ty(a, expected), env, s, last + 1);
                let fun = infer(*f, fun_ty(a, expected), env, s, last + 1);
                match fun.result {
                    Err(_) => {},
                    Ok(s1) => {
                        lemma_infer_refines(*arg, a, env, s1, fun.last);
                        match infer(*arg, a, env, s1, fun.last).result {
                            Err(_) => {},
                            Ok(s2) => {
                                lemma_refines_trans(s2, s1, s);
                            },
                        }
                    },
                }
            }
        },
        Term::Let(x, v, body) => {
            if last < u32::MAX {
                let a = fresh(last);
                lemma_infer_refines(*v, a, env, s, last + 1);
                let val = infer(*v, a, env, s, last + 1);
                match val.result {
                    Err(_) => {},
                    Ok(s1) => {
                        let scheme = generalize(apply(s1, a), apply_env(s1, env));
                        let env1 = seq![(x, scheme)] + env;
                        lemma_infer_refines(*body, expected, env1, s1, val.last);
                        match infer(*body, expected, env1, s1, val.last).result {
                            Err(_) => {},
                            Ok(s2) => {
                                lemma_refines_trans(s2, s1, s);
                            },
                        }
                    },
                }
            }
        },
        Term::LetRec(x, v, body) => {
            if last < u32::MAX {
                let a = fresh(last);
                let env0 = seq![(x, Scheme::mono(a))] + env;
                lemma_infer_refines(*v, a, env0, s, last + 1);
                let val = infer(*v, a, env0, s, last + 1);
                match val.result {
                    Err(_) => {},
                    Ok(s1) => {
                        let scheme = generalize(apply(s1, a), apply_env(s1, env));
                        let env1 = seq![(x, scheme)] + env;
                        lemma_infer_refines(*body, expected, env1, s1, val.last);
                        match infer(*body, expected, env1, s1, val.last).result {
                            Err(_) => {},
                            Ok(s2) => {
                                lemma_refines_trans(s2, s1, s);
                            },
                        }
                    },
                }
            }
        },
    }
}

} // verus!

//! Every run of inference keeps the variables that it generalises out of
//! use, from the `let` that generalises them to the end of the run.

use crate::ast::{Term, Ty};
use crate::hygiene::{
    adds_in_use, in_use_before, lemma_adds_narrow, lemma_adds_then, lemma_env_live_before,
    lemma_occurs_before, live,
};
use crate::principal::{lemma_below_parts, lemma_infer_below, sub_below};
use crate::rules::{lemma_apply_constant, types};
use crate::scope::lemma_constant_scope;
use crate::substitution::{acyclic, apply, lemma_apply_fun, lemma_refines_self, refines};
use crate::typing::{
    apply_env, bool_ty, find_frame, fresh, fun_ty, generalize, infer, instantiate, int_ty,
    is_comparison, lemma_infer_refines, lemma_unified_sound, operand_ty, result_ty, unified,
    Scheme,
};
use crate::soundness::{env_sealed, free_in, hygienic, keeps_off, lemma_sound_under};
use crate::upkeep::{
    avoids, keeps, lemma_env_live_cons, lemma_generalise_tidy, lemma_in_use_next,
    lemma_instance_live, lemma_keeps_self, lemma_keeps_then, lemma_settles_back,
    lemma_settles_keeps_off, lemma_settles_less, lemma_tidy_cons, lemma_tidy_fresh,
    lemma_tidy_on, lemma_tidy_sealed, lemma_unified_below, lemma_unified_upheld, settles, tidy,
};
use vstd::prelude::*;

verus! {

/// The variables that inference generalises on its way through the
/// expression.
pub open spec fn generalised(
    e: Term,
    expected: Ty,
    env: Seq<(Seq<char>, Scheme)>,
    s: Map<u32, Ty>,
    last: nat,
) -> Set<u32>
    decreases e,
{
    match e {
        Term::Num(_) => Set::empty(),
        Term::Bool(_) => Set::empty(),
        Term::Var(_) => Set::empty(),
        Term::BinOp(l, op, r) => if is_comparison(op) && last >= u32::MAX {
            Set::empty()
        } else {
            let start = if is_comparison(op) {
                last + 1
            } else {
                last
            };
            let operand = operand_ty(op, fresh(last));
            let left = infer(*l, operand, env, s, start);
            generalised(*l, operand, env, s, start) + match left.result {
                Err(_) => Set::empty(),
                Ok(s1) => generalised(*r, operand, env, s1, left.last),
            }
        },
        Term::If(p, c, f) => {
            let cond = infer(*p, bool_ty(), env, s, last);
            generalised(*p, bool_ty(), env, s, last) + match cond.result {
                Err(_) => Set::empty(),
                Ok(s1) => {
                    let first = infer(*c, expected, env, s1, cond.last);
                    generalised(*c, expected, env, s1, cond.last) + match first.result {
                        Err(_) => Set::empty(),
                        Ok(s2) => generalised(*f, expected, env, s2, first.last),
                    }
                },
            }
        },
        Term::Fun(x, body) => if last + 2 > u32::MAX {
            Set::empty()
        } else {
            let a = fresh(last);
            let b = fresh(last + 1);
            match unified(expected, fun_ty(a, b), s) {
                Err(_) => Set::empty(),
                Ok(s1) => generalised(*body, b, seq![(x, Scheme::mono(a))] + env, s1, last + 2),
            }
        },
        Term::App(f, arg) => if last >= u32::MAX {
            Set::empty()
        } else {
            let a = fresh(last);
            let fun = infer(*f, fun_ty(a, expected), env, s, last + 1);
            generalised(*f, fun_ty(a, expected), env, s, last + 1) + match fun.result {
                Err(_) => Set::empty(),
                Ok(s1) => generalised(*arg, a, env, s1, fun.last),
            }
        },
        Term::Let(x, v, body) => if last >= u32::MAX {
            Set::empty()
        } else {
            let a = fresh(last);
            let val = infer(*v, a, env, s, last + 1);
            generalised(*v, a, env, s, last + 1) + match val.result {
                Err(_) => Set::empty(),
                Ok(s1) => {
                    let scheme = generalize(apply(s1, a), apply_env(s1, env));
                    scheme.quantified + generalised(
                        *body,
                        expected,
                        seq![(x, scheme)] + env,
                        s1,
                        val.last,
                    )
                },
            }
        },
        Term::LetRec(x, v, body) => if last >= u32::MAX {
            Set::empty()
        } else {
            let a = fresh(last);
            let val = infer(*v, a, seq![(x, Scheme::mono(a))] + env, s, last + 1);
            generalised(*v, a, seq![(x, Scheme::mono(a))] + env, s, last + 1)
                + match val.result {
                Err(_) => Set::empty(),
                Ok(s1) => {
                    let scheme = generalize(apply(s1, a), apply_env(s1, env));
                    scheme.quantified + generalised(
                        *body,
                        expected,
                        seq![(x, scheme)] + env,
                        s1,
                        val.last,
                    )
                },
            }
        },
    }
}

/// Whether inference, where it succeeds at the expression, adds to the
/// substitution only what was in use, leads to no generalised variable
/// from a variable that was neither bound nor generalised before, and
/// binds no generalised variable; the generalised variables are those of
/// `p` and those that it generalises at the expression.
pub open spec fn upheld(
    e: Term,
    expected: Ty,
    env: Seq<(Seq<char>, Scheme)>,
    s: Map<u32, Ty>,
    last: nat,
    p: Set<u32>,
) -> bool {
    let run = infer(e, expected, env, s, last);
    run.result matches Ok(out) ==> {
        let pb = p + generalised(e, expected, env, s, last);
        &&& adds_in_use(s, out, env, expected, last)
        &&& keeps(s, last, p, out, pb)
        &&& forall|v: u32| #[trigger] pb.contains(v) ==> v <= run.last && !out.contains_key(v)
    }
}

/// Whether every substitution that can stand for the end of the run, where
/// inference has succeeded at the expression, keeps off the variables that
/// inference generalises at the expression.
pub open spec fn guarded(
    e: Term,
    expected: Ty,
    env: Seq<(Seq<char>, Scheme)>,
    s: Map<u32, Ty>,
    last: nat,
    p: Set<u32>,
) -> bool {
    let run = infer(e, expected, env, s, last);
    run.result matches Ok(out) ==> forall|other: Map<u32, Ty>| #[trigger]
        settles(other, out, run.last, p + generalised(e, expected, env, s, last)) ==> hygienic(
            e,
            expected,
            env,
            s,
            last,
            other,
        )
}

/// Where inference has succeeded at an expression and kept the generalised
/// variables out of use, it stands in good order afterwards.
pub proof fn lemma_upheld_on(
    e: Term,
    expected: Ty,
    env: Seq<(Seq<char>, Scheme)>,
    s: Map<u32, Ty>,
    last: nat,
    p: Set<u32>,
)
    requires
        tidy(expected, env, s, last, p),
        upheld(e, expected, env, s, last, p),
        infer(e, expected, env, s, last).result is Ok,
    ensures
        ({
            let run = infer(e, expected, env, s, last);
            let out = run.result->Ok_0;
            let pb = p + generalised(e, expected, env, s, last);
            &&& last <= run.last
            &&& acyclic(out)
            &&& refines(out, s)
            &&& sub_below(out, run.last)
            &&& adds_in_use(s, out, env, expected, last)
            &&& keeps(s, last, p, out, pb)
            &&& tidy(expected, env, out, run.last, pb)
        }),
{
    let run = infer(e, expected, env, s, last);
    let out = run.result->Ok_0;
    let pb = p + generalised(e, expected, env, s, last);
    lemma_infer_refines(e, expected, env, s, last);
    lemma_infer_below(e, expected, env, s, last);
    lemma_tidy_on(expected, env, s, last, p, out, run.last, pb);
}

/// Inference keeps the generalised variables out of use at every
/// expression, where it stands in good order before.
pub proof fn lemma_infer_upheld(
    e: Term,
    expected: Ty,
    env: Seq<(Seq<char>, Scheme)>,
    s: Map<u32, Ty>,
    last: nat,
    p: Set<u32>,
)
    requires
        tidy(expected, env, s, last, p),
    ensures
        upheld(e, expected, env, s, last, p),
        guarded(e, expected, env, s, last, p),
    decreases e, 1nat,
{
    let run = infer(e, expected, env, s, last);
    if run.result is Ok {
        match e {
            Term::Num(_) => {
                lemma_constant_upheld(expected, env, s, last, p, int_ty());
                assert(p + generalised(e, expected, env, s, last) =~= p);
            },
            Term::Bool(_) => {
                lemma_constant_upheld(expected, env, s, last, p, bool_ty());
                assert(p + generalised(e, expected, env, s, last) =~= p);
            },
            Term::Var(x) => {
                let inst = instantiate(find_frame(env, x)->Some_0, last);
                assert forall|w: u32|
                    w <= last && (#[trigger] apply(s, expected).occurs(w) || apply(
                        s,
                        inst,
                    ).occurs(w)) implies live(s, env, expected, w) by {
                    if apply(s, inst).occurs(w) {
                        lemma_instance_live(s, env, x, last, w);
                    }
                }
                lemma_unified_upheld(expected, env, s, last, p, expected, inst);
                assert(p + generalised(e, expected, env, s, last) =~= p);
            },
            Term::BinOp(_, _, _) => {
                lemma_binop_upheld(e, expected, env, s, last, p);
            },
            Term::If(_, _, _) => {
                lemma_if_upheld(e, expected, env, s, last, p);
            },
            Term::Fun(_, _) => {
                lemma_fun_upheld(e, expected, env, s, last, p);
            },
            Term::App(_, _) => {
                lemma_app_upheld(e, expected, env, s, last, p);
            },
            Term::Let(_, _, _) => {
                lemma_let_upheld(e, expected, env, s, last, p);
            },
            Term::LetRec(_, _, _) => {
                lemma_letrec_upheld(e, expected, env, s, last, p);
            },
        }
    }
}

/// Unifying the expected type with `int` or `bool` keeps the generalised
/// variables out of use.
pub proof fn lemma_constant_upheld(
    expected: Ty,
    env: Seq<(Seq<char>, Scheme)>,
    s: Map<u32, Ty>,
    last: nat,
    p: Set<u32>,
    t: Ty,
)
    requires
        tidy(expected, env, s, last, p),
        t == int_ty() || t == bool_ty(),
        unified(expected, t, s) is Ok,
    ensures
        adds_in_use(s, unified(expected, t, s)->Ok_0, env, expected, last),
        keeps(s, last, p, unified(expected, t, s)->Ok_0, p),
        forall|v: u32| #[trigger] p.contains(v) ==> !unified(expected, t, s)->Ok_0.contains_key(v),
{
    lemma_apply_constant(s);
    assert forall|w: u32|
        w <= last && (#[trigger] apply(s, expected).occurs(w) || apply(s, t).occurs(
            w,
        )) implies live(s, env, expected, w) by {
        lemma_constant_scope(w);
    }
    lemma_unified_upheld(expected, env, s, last, p, expected, t);
}

/// Inference stands in good order with a part of the expected type for
/// the expected type.
pub proof fn lemma_tidy_part(
    expected: Ty,
    env: Seq<(Seq<char>, Scheme)>,
    s: Map<u32, Ty>,
    last: nat,
    p: Set<u32>,
    t: Ty,
)
    requires
        tidy(expected, env, s, last, p),
        forall|u: u32| #[trigger] t.occurs(u) ==> expected.occurs(u),
    ensures
        tidy(t, env, s, last, p),
{
    assert forall|u: u32| #[trigger] t.occurs(u) implies avoids(s, u, p) && u <= last by {
        assert(expected.occurs(u));
    }
}

/// The variables of a function type are those of its two sides.
pub proof fn lemma_occurs_fun(a: Ty, b: Ty, w: u32)
    ensures
        fun_ty(a, b).occurs(w) <==> a.occurs(w) || b.occurs(w),
{
}

/// What is in use with a variable that the substitution does not bind put
/// before the expected type, was in use without, among the variables
/// below that one.
pub proof fn lemma_fresh_in_use(
    s: Map<u32, Ty>,
    env: Seq<(Seq<char>, Scheme)>,
    expected: Ty,
    n: nat,
)
    requires
        acyclic(s),
        n < u32::MAX,
        apply(s, fresh(n)) == fresh(n),
    ensures
        in_use_before(s, env, fun_ty(fresh(n), expected), s, env, expected, n),
        in_use_before(s, env, fresh(n), s, env, expected, n),
        in_use_before(s, env, fresh(n), s, env, fresh(n), n),
        forall|w: u32| w <= n ==> !#[trigger] apply(s, fresh(n)).occurs(w),
{
    let a = fresh(n);
    lemma_apply_fun(s, a, expected);
    assert forall|w: u32| w <= n && #[trigger] live(
        s,
        env,
        fun_ty(a, expected),
        w,
    ) implies live(s, env, expected, w) by {
        lemma_occurs_fun(apply(s, a), apply(s, expected), w);
    }
}

/// `lemma_infer_upheld` at an application.
pub proof fn lemma_app_upheld(
    e: Term,
    expected: Ty,
    env: Seq<(Seq<char>, Scheme)>,
    s: Map<u32, Ty>,
    last: nat,
    p: Set<u32>,
)
    requires
        e is App,
        tidy(expected, env, s, last, p),
    ensures
        upheld(e, expected, env, s, last, p),
        guarded(e, expected, env, s, last, p),
    decreases e, 0nat,
{
    let f = *e->App_0;
    let arg = *e->App_1;
    let run = infer(e, expected, env, s, last);
    if run.result is Ok {
        let a = fresh(last);
        let whole = fun_ty(a, expected);
        lemma_tidy_fresh(expected, env, s, last, p);
        lemma_fresh_in_use(s, env, expected, last);
        let fun = infer(f, whole, env, s, last + 1);
        let s1 = fun.result->Ok_0;
        let pa = p + generalised(f, whole, env, s, last + 1);
        lemma_infer_upheld(f, whole, env, s, last + 1, p);
        lemma_upheld_on(f, whole, env, s, last + 1, p);
        lemma_tidy_part(whole, env, s1, fun.last, pa, a);
        let s2 = run.result->Ok_0;
        let pb = pa + generalised(arg, a, env, s1, fun.last);
        lemma_infer_upheld(arg, a, env, s1, fun.last, pa);
        lemma_upheld_on(arg, a, env, s1, fun.last, pa);
        assert(p + generalised(e, expected, env, s, last) =~= pb);
        lemma_adds_narrow(s, s1, env, expected, last, env, whole, last + 1);
        lemma_in_use_next(s, s1, env, expected, last, a);
        lemma_adds_then(s, s1, s2, env, expected, last, env, a, fun.last);
        lemma_keeps_then(s, last, p, s1, fun.last, pa, s2, pb);
        assert forall|other: Map<u32, Ty>| #[trigger]
            settles(other, s2, run.last, pb) implies hygienic(
            e,
            expected,
            env,
            s,
            last,
            other,
        ) by {
            lemma_settles_back(other, s1, fun.last, pa, s2, run.last, pb);
            assert(hygienic(arg, a, env, s1, fun.last, other));
            assert(hygienic(f, whole, env, s, last + 1, other));
        }
    }
}

/// `lemma_infer_upheld` at a conditional.
pub proof fn lemma_if_upheld(
    e: Term,
    expected: Ty,
    env: Seq<(Seq<char>, Scheme)>,
    s: Map<u32, Ty>,
    last: nat,
    p: Set<u32>,
)
    requires
        e is If,
        tidy(expected, env, s, last, p),
    ensures
        upheld(e, expected, env, s, last, p),
        guarded(e, expected, env, s, last, p),
    decreases e, 0nat,
{
    let c = *e->If_0;
    let t = *e->If_1;
    let f = *e->If_2;
    let run = infer(e, expected, env, s, last);
    if run.result is Ok {
        lemma_apply_constant(s);
        lemma_below_parts(expected, expected, last);
        let cond = infer(c, bool_ty(), env, s, last);
        let s1 = cond.result->Ok_0;
        let pa = p + generalised(c, bool_ty(), env, s, last);
        assert forall|u: u32| !bool_ty().occurs(u) by {
            lemma_constant_scope(u);
        }
        assert(tidy(bool_ty(), env, s, last, p));
        lemma_infer_upheld(c, bool_ty(), env, s, last, p);
        lemma_upheld_on(c, bool_ty(), env, s, last, p);
        lemma_tidy_on(expected, env, s, last, p, s1, cond.last, pa);
        assert(in_use_before(s, env, bool_ty(), s, env, expected, last));
        lemma_adds_narrow(s, s1, env, expected, last, env, bool_ty(), last);
        let first = infer(t, expected, env, s1, cond.last);
        let s2 = first.result->Ok_0;
        let pb = pa + generalised(t, expected, env, s1, cond.last);
        lemma_infer_upheld(t, expected, env, s1, cond.last, pa);
        lemma_upheld_on(t, expected, env, s1, cond.last, pa);
        lemma_in_use_next(s, s1, env, expected, last, expected);
        lemma_adds_then(s, s1, s2, env, expected, last, env, expected, cond.last);
        lemma_keeps_then(s, last, p, s1, cond.last, pa, s2, pb);
        let s3 = run.result->Ok_0;
        let pc = pb + generalised(f, expected, env, s2, first.last);
        lemma_infer_upheld(f, expected, env, s2, first.last, pb);
        lemma_upheld_on(f, expected, env, s2, first.last, pb);
        lemma_in_use_next(s, s2, env, expected, last, expected);
        lemma_adds_then(s, s2, s3, env, expected, last, env, expected, first.last);
        lemma_keeps_then(s, last, p, s2, first.last, pb, s3, pc);
        assert(p + generalised(e, expected, env, s, last) =~= pc);
        assert forall|other: Map<u32, Ty>| #[trigger]
            settles(other, s3, run.last, pc) implies hygienic(
            e,
            expected,
            env,
            s,
            last,
            other,
        ) by {
            lemma_settles_back(other, s2, first.last, pb, s3, run.last, pc);
            lemma_settles_back(other, s1, cond.last, pa, s2, first.last, pb);
            assert(hygienic(f, expected, env, s2, first.last, other));
            assert(hygienic(t, expected, env, s1, cond.last, other));
            assert(hygienic(c, bool_ty(), env, s, last, other));
        }
    }
}

/// `lemma_infer_upheld` at a function.
pub proof fn lemma_fun_upheld(
    e: Term,
    expected: Ty,
    env: Seq<(Seq<char>, Scheme)>,
    s: Map<u32, Ty>,
    last: nat,
    p: Set<u32>,
)
    requires
        e is Fun,
        tidy(expected, env, s, last, p),
    ensures
        upheld(e, expected, env, s, last, p),
        guarded(e, expected, env, s, last, p),
    decreases e, 0nat,
{
    let x = e->Fun_0;
    let body = *e->Fun_1;
    let run = infer(e, expected, env, s, last);
    if run.result is Ok {
        let a = fresh(last);
        let b = fresh(last + 1);
        let pair = fun_ty(a, b);
        let half = fun_ty(a, expected);
        let whole = fun_ty(b, half);
        let s1 = unified(expected, pair, s)->Ok_0;
        lemma_tidy_fresh(expected, env, s, last, p);
        lemma_tidy_fresh(half, env, s, last + 1, p);
        lemma_apply_fun(s, a, b);
        lemma_apply_fun(s, a, expected);
        lemma_apply_fun(s, b, half);
        assert forall|w: u32|
            w <= last + 2 && (#[trigger] apply(s, expected).occurs(w) || apply(s, pair).occurs(
                w,
            )) implies live(s, env, whole, w) by {
            lemma_occurs_fun(a, b, w);
            lemma_occurs_fun(a, apply(s, expected), w);
            lemma_occurs_fun(b, fun_ty(a, apply(s, expected)), w);
        }
        lemma_unified_upheld(whole, env, s, last + 2, p, expected, pair);
        lemma_unified_sound(expected, pair, s);
        lemma_below_parts(a, b, last + 2);
        lemma_below_parts(b, half, last + 2);
        lemma_below_parts(a, expected, last + 2);
        lemma_unified_below(expected, pair, s, last + 2);
        lemma_tidy_on(whole, env, s, last + 2, p, s1, last + 2, p);
        lemma_tidy_part(whole, env, s1, last + 2, p, b);
        assert forall|u: u32| #[trigger] a.occurs(u) implies avoids(s1, u, p) && u <= last
            + 2 by {
            lemma_occurs_fun(a, expected, u);
            lemma_occurs_fun(b, half, u);
            assert(whole.occurs(u));
        }
        lemma_tidy_mono(b, env, s1, last + 2, p, x, a);
        let env1 = seq![(x, Scheme::mono(a))] + env;
        let s2 = run.result->Ok_0;
        let pb = p + generalised(body, b, env1, s1, last + 2);
        lemma_infer_upheld(body, b, env1, s1, last + 2, p);
        lemma_upheld_on(body, b, env1, s1, last + 2, p);
        assert(p + generalised(e, expected, env, s, last) =~= pb);
        assert forall|w: u32| w <= last && #[trigger] live(s, env, whole, w) implies live(
            s,
            env,
            expected,
            w,
        ) by {
            lemma_occurs_fun(a, apply(s, expected), w);
            lemma_occurs_fun(b, fun_ty(a, apply(s, expected)), w);
        }
        lemma_adds_narrow(s, s1, env, expected, last, env, whole, last + 2);
        assert forall|w: u32| w <= last && #[trigger] live(s1, env1, b, w) implies live(
            s,
            env,
            expected,
            w,
        ) by {
            if apply(s1, b).occurs(w) {
                lemma_occurs_before(s, s1, env, expected, last, b, w);
            } else {
                match lemma_env_live_cons(s1, env, x, Scheme::mono(a), w) {
                    Some(u) => {
                        lemma_occurs_before(s, s1, env, expected, last, a, w);
                    },
                    None => {
                        lemma_env_live_before(s, s1, env, expected, last, w);
                    },
                }
            }
        }
        lemma_adds_then(s, s1, s2, env, expected, last, env1, b, last + 2);
        lemma_keeps_then(s, last, p, s1, last + 2, p, s2, pb);
        assert forall|other: Map<u32, Ty>| #[trigger]
            settles(other, s2, run.last, pb) implies hygienic(
            e,
            expected,
            env,
            s,
            last,
            other,
        ) by {
            assert(hygienic(body, b, env1, s1, last + 2, other));
        }
    }
}

/// Inference stands in good order with one more frame in the environment
/// whose scheme has no quantified variables, where the generator has
/// handed out the variables of the scheme and the substitution leads to no
/// generalised variable from one of them.
pub proof fn lemma_tidy_mono(
    expected: Ty,
    env: Seq<(Seq<char>, Scheme)>,
    s: Map<u32, Ty>,
    n: nat,
    p: Set<u32>,
    x: Seq<char>,
    a: Ty,
)
    requires
        tidy(expected, env, s, n, p),
        forall|u: u32| #[trigger] a.occurs(u) ==> avoids(s, u, p) && u <= n,
    ensures
        tidy(expected, seq![(x, Scheme::mono(a))] + env, s, n, p),
{
    let scheme = Scheme::mono(a);
    assert forall|u: u32| #[trigger] free_in(scheme, u) implies avoids(s, u, p) by {
        assert(a.occurs(u));
    }
    lemma_tidy_cons(expected, env, s, n, p, x, scheme);
}

/// `lemma_infer_upheld` at a binary operator.
pub proof fn lemma_binop_upheld(
    e: Term,
    expected: Ty,
    env: Seq<(Seq<char>, Scheme)>,
    s: Map<u32, Ty>,
    last: nat,
    p: Set<u32>,
)
    requires
        e is BinOp,
        tidy(expected, env, s, last, p),
    ensures
        upheld(e, expected, env, s, last, p),
        guarded(e, expected, env, s, last, p),
    decreases e, 0nat,
{
    let l = *e->BinOp_0;
    let op = e->BinOp_1;
    let r = *e->BinOp_2;
    let run = infer(e, expected, env, s, last);
    if run.result is Ok {
        let start = if is_comparison(op) {
            last + 1
        } else {
            last
        };
        let operand = operand_ty(op, fresh(last));
        let whole = fun_ty(operand, expected);
        lemma_apply_constant(s);
        lemma_apply_fun(s, operand, expected);
        if is_comparison(op) {
            lemma_tidy_fresh(expected, env, s, last, p);
        } else {
            assert forall|u: u32| #[trigger] whole.occurs(u) implies expected.occurs(u) by {
                lemma_constant_scope(u);
            }
            lemma_tidy_part(expected, env, s, last, p, whole);
        }
        assert forall|w: u32| w <= last implies !#[trigger] apply(s, operand).occurs(w) by {
            lemma_constant_scope(w);
        }
        lemma_tidy_part(whole, env, s, start, p, operand);
        let left = infer(l, operand, env, s, start);
        let s1 = left.result->Ok_0;
        let pa = p + generalised(l, operand, env, s, start);
        lemma_infer_upheld(l, operand, env, s, start, p);
        lemma_upheld_on(l, operand, env, s, start, p);
        lemma_tidy_on(whole, env, s, start, p, s1, left.last, pa);
        lemma_tidy_part(whole, env, s1, left.last, pa, operand);
        assert(in_use_before(s, env, operand, s, env, expected, last));
        lemma_adds_narrow(s, s1, env, expected, last, env, operand, start);
        let right = infer(r, operand, env, s1, left.last);
        let s2 = right.result->Ok_0;
        let pb = pa + generalised(r, operand, env, s1, left.last);
        lemma_infer_upheld(r, operand, env, s1, left.last, pa);
        lemma_upheld_on(r, operand, env, s1, left.last, pa);
        lemma_in_use_next(s, s1, env, expected, last, operand);
        lemma_adds_then(s, s1, s2, env, expected, last, env, operand, left.last);
        lemma_keeps_then(s, last, p, s1, left.last, pa, s2, pb);
        lemma_tidy_on(whole, env, s1, left.last, pa, s2, right.last, pb);
        lemma_tidy_part(whole, env, s2, right.last, pb, expected);
        let s3 = run.result->Ok_0;
        lemma_constant_upheld(expected, env, s2, right.last, pb, result_ty(op));
        lemma_unified_sound(expected, result_ty(op), s2);
        lemma_in_use_next(s, s2, env, expected, last, expected);
        lemma_adds_then(s, s2, s3, env, expected, last, env, expected, right.last);
        lemma_keeps_then(s, last, p, s2, right.last, pb, s3, pb);
        assert(p + generalised(e, expected, env, s, last) =~= pb);
        lemma_below_parts(expected, expected, right.last);
        lemma_unified_below(expected, result_ty(op), s2, right.last);
        assert forall|other: Map<u32, Ty>| #[trigger]
            settles(other, s3, run.last, pb) implies hygienic(
            e,
            expected,
            env,
            s,
            last,
            other,
        ) by {
            lemma_settles_back(other, s2, right.last, pb, s3, right.last, pb);
            lemma_settles_back(other, s1, left.last, pa, s2, right.last, pb);
            assert(hygienic(r, operand, env, s1, left.last, other));
            assert(hygienic(l, operand, env, s, start, other));
        }
    }
}

/// What follows the value of a `let` or a `letrec` keeps the generalised
/// variables out of use, where the value did.
pub proof fn lemma_body_upheld(
    body: Term,
    x: Seq<char>,
    expected: Ty,
    env: Seq<(Seq<char>, Scheme)>,
    s: Map<u32, Ty>,
    last: nat,
    p: Set<u32>,
    s1: Map<u32, Ty>,
    mid: nat,
    pa: Set<u32>,
)
    requires
        last < u32::MAX,
        last <= mid,
        tidy(expected, env, s, last, p),
        apply(s, fresh(last)) == fresh(last),
        acyclic(s1),
        refines(s1, s),
        tidy(fun_ty(fresh(last), expected), env, s1, mid, pa),
        adds_in_use(s, s1, env, fresh(last), last),
        keeps(s, last, p, s1, pa),
        forall|pb: Set<u32>, env1: Seq<(Seq<char>, Scheme)>|
            tidy(expected, env1, s1, mid, pb) ==> #[trigger] upheld(
                body,
                expected,
                env1,
                s1,
                mid,
                pb,
            ) && guarded(body, expected, env1, s1, mid, pb),
    ensures
        ({
            let scheme = generalize(apply(s1, fresh(last)), apply_env(s1, env));
            let env1 = seq![(x, scheme)] + env;
            let run = infer(body, expected, env1, s1, mid);
            let pc = pa + scheme.quantified + generalised(body, expected, env1, s1, mid);
            run.result matches Ok(out) ==> {
                &&& adds_in_use(s, out, env, expected, last)
                &&& keeps(s, last, p, out, pc)
                &&& forall|v: u32|
                    #[trigger] pc.contains(v) ==> v <= run.last && !out.contains_key(v)
                &&& env_sealed(s1, env)
                &&& forall|other: Map<u32, Ty>| #[trigger]
                    settles(other, out, run.last, pc) ==> {
                        &&& hygienic(body, expected, env1, s1, mid, other)
                        &&& settles(other, s1, mid, pa)
                        &&& keeps_off(other, env, scheme.quantified)
                    }
            }
        }),
{
    let a = fresh(last);
    let scheme = generalize(apply(s1, a), apply_env(s1, env));
    let env1 = seq![(x, scheme)] + env;
    let pb = pa + scheme.quantified;
    let run = infer(body, expected, env1, s1, mid);
    if run.result is Ok {
        let s2 = run.result->Ok_0;
        let pc = pb + generalised(body, expected, env1, s1, mid);
        lemma_generalise_tidy(expected, env, s, last, p, s1, mid, pa, x);
        assert(upheld(body, expected, env1, s1, mid, pb));
        lemma_upheld_on(body, expected, env1, s1, mid, pb);
        assert(in_use_before(s, env, a, s, env, expected, last));
        lemma_adds_narrow(s, s1, env, expected, last, env, a, last);
        lemma_in_use_next(s, s1, env, expected, last, expected);
        assert forall|w: u32| w <= last && #[trigger] live(s1, env1, expected, w) implies live(
            s,
            env,
            expected,
            w,
        ) by {
            assert(live(s1, env, expected, w));
        }
        lemma_adds_then(s, s1, s2, env, expected, last, env1, expected, mid);
        lemma_keeps_then(s, last, p, s1, mid, pb, s2, pc);
        assert forall|other: Map<u32, Ty>| #[trigger]
            settles(other, s2, run.last, pc) implies hygienic(
            body,
            expected,
            env1,
            s1,
            mid,
            other,
        ) && settles(other, s1, mid, pa) && keeps_off(other, env, scheme.quantified) by {
            lemma_settles_back(other, s1, mid, pb, s2, run.last, pc);
            lemma_settles_less(other, s1, mid, pa, scheme.quantified);
            lemma_settles_keeps_off(other, expected, env, s1, mid, pb, scheme.quantified);
        }
    }
}

/// `lemma_infer_upheld` at a `let`.
pub proof fn lemma_let_upheld(
    e: Term,
    expected: Ty,
    env: Seq<(Seq<char>, Scheme)>,
    s: Map<u32, Ty>,
    last: nat,
    p: Set<u32>,
)
    requires
        e is Let,
        tidy(expected, env, s, last, p),
    ensures
        upheld(e, expected, env, s, last, p),
        guarded(e, expected, env, s, last, p),
    decreases e, 0nat,
{
    let x = e->Let_0;
    let v = *e->Let_1;
    let body = *e->Let_2;
    let run = infer(e, expected, env, s, last);
    if run.result is Ok {
        let a = fresh(last);
        let whole = fun_ty(a, expected);
        lemma_tidy_fresh(expected, env, s, last, p);
        lemma_tidy_part(whole, env, s, last + 1, p, a);
        let val = infer(v, a, env, s, last + 1);
        let s1 = val.result->Ok_0;
        let pa = p + generalised(v, a, env, s, last + 1);
        lemma_infer_upheld(v, a, env, s, last + 1, p);
        lemma_upheld_on(v, a, env, s, last + 1, p);
        lemma_tidy_on(whole, env, s, last + 1, p, s1, val.last, pa);
        assert(in_use_before(s, env, a, s, env, a, last));
        lemma_adds_narrow(s, s1, env, a, last, env, a, last + 1);
        let scheme = generalize(apply(s1, a), apply_env(s1, env));
        let env1 = seq![(x, scheme)] + env;
        assert forall|pb: Set<u32>, env2: Seq<(Seq<char>, Scheme)>|
            tidy(expected, env2, s1, val.last, pb) implies #[trigger] upheld(
            body,
            expected,
            env2,
            s1,
            val.last,
            pb,
        ) && guarded(body, expected, env2, s1, val.last, pb) by {
            lemma_infer_upheld(body, expected, env2, s1, val.last, pb);
        }
        lemma_body_upheld(body, x, expected, env, s, last, p, s1, val.last, pa);
        let pc = pa + scheme.quantified + generalised(body, expected, env1, s1, val.last);
        assert(p + generalised(e, expected, env, s, last) =~= pc);
        assert forall|other: Map<u32, Ty>| #[trigger]
            settles(other, run.result->Ok_0, run.last, pc) implies hygienic(
            e,
            expected,
            env,
            s,
            last,
            other,
        ) by {
            assert(settles(other, s1, val.last, pa));
            assert(hygienic(v, a, env, s, last + 1, other));
        }
    }
}

/// `lemma_infer_upheld` at a `letrec`.
pub proof fn lemma_letrec_upheld(
    e: Term,
    expected: Ty,
    env: Seq<(Seq<char>, Scheme)>,
    s: Map<u32, Ty>,
    last: nat,
    p: Set<u32>,
)
    requires
        e is LetRec,
        tidy(expected, env, s, last, p),
    ensures
        upheld(e, expected, env, s, last, p),
        guarded(e, expected, env, s, last, p),
    decreases e, 0nat,
{
    let x = e->LetRec_0;
    let v = *e->LetRec_1;
    let body = *e->LetRec_2;
    let run = infer(e, expected, env, s, last);
    if run.result is Ok {
        let a = fresh(last);
        let whole = fun_ty(a, expected);
        let env0 = seq![(x, Scheme::mono(a))] + env;
        lemma_tidy_fresh(expected, env, s, last, p);
        lemma_tidy_part(whole, env, s, last + 1, p, a);
        assert forall|u: u32| #[trigger] a.occurs(u) implies avoids(s, u, p) && u <= last
            + 1 by {
            assert(whole.occurs(u));
        }
        lemma_tidy_mono(a, env, s, last + 1, p, x, a);
        let val = infer(v, a, env0, s, last + 1);
        let s1 = val.result->Ok_0;
        let pa = p + generalised(v, a, env0, s, last + 1);
        lemma_infer_upheld(v, a, env0, s, last + 1, p);
        lemma_upheld_on(v, a, env0, s, last + 1, p);
        lemma_tidy_on(whole, env, s, last + 1, p, s1, val.last, pa);
        assert forall|w: u32| w <= last && #[trigger] live(s, env0, a, w) implies live(
            s,
            env,
            a,
            w,
        ) by {
            if !apply(s, a).occurs(w) {
                match lemma_env_live_cons(s, env, x, Scheme::mono(a), w) {
                    Some(u) => {
                        assert(Ty::Var(u) == a);
                    },
                    None => {},
                }
            }
        }
        lemma_adds_narrow(s, s1, env, a, last, env0, a, last + 1);
        let scheme = generalize(apply(s1, a), apply_env(s1, env));
        let env1 = seq![(x, scheme)] + env;
        assert forall|pb: Set<u32>, env2: Seq<(Seq<char>, Scheme)>|
            tidy(expected, env2, s1, val.last, pb) implies #[trigger] upheld(
            body,
            expected,
            env2,
            s1,
            val.last,
            pb,
        ) && guarded(body, expected, env2, s1, val.last, pb) by {
            lemma_infer_upheld(body, expected, env2, s1, val.last, pb);
        }
        lemma_body_upheld(body, x, expected, env, s, last, p, s1, val.last, pa);
        let pc = pa + scheme.quantified + generalised(body, expected, env1, s1, val.last);
        assert(p + generalised(e, expected, env, s, last) =~= pc);
        assert forall|other: Map<u32, Ty>| #[trigger]
            settles(other, run.result->Ok_0, run.last, pc) implies hygienic(
            e,
            expected,
            env,
            s,
            last,
            other,
        ) by {
            assert(settles(other, s1, val.last, pa));
            assert(hygienic(v, a, env0, s, last + 1, other));
        }
    }
}

/// Inference is sound at every expression, where it stands in good order
/// before: under the substitution that it returns, the expression has the
/// expected type in the environment, by the typing rules.
pub proof fn lemma_tidy_sound(
    e: Term,
    expected: Ty,
    env: Seq<(Seq<char>, Scheme)>,
    s: Map<u32, Ty>,
    last: nat,
    p: Set<u32>,
)
    requires
        tidy(expected, env, s, last, p),
        infer(e, expected, env, s, last).result is Ok,
    ensures
        types(
            apply_env(infer(e, expected, env, s, last).result->Ok_0, env),
            e,
            apply(infer(e, expected, env, s, last).result->Ok_0, expected),
        ),
{
    let run = infer(e, expected, env, s, last);
    let out = run.result->Ok_0;
    let pb = p + generalised(e, expected, env, s, last);
    lemma_infer_upheld(e, expected, env, s, last, p);
    lemma_upheld_on(e, expected, env, s, last, p);
    lemma_tidy_sealed(expected, env, out, run.last, pb);
    lemma_refines_self(out);
    lemma_keeps_self(out, run.last, pb);
    assert(settles(out, out, run.last, pb));
    lemma_sound_under(e, expected, env, s, last, out);
}

} // verus!

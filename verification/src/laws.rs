//! Laws of inference as a whole.

use crate::ast::{lemma_occurs_arg, Term, Ty};
use crate::reach::{lemma_reach_unbound, reach};
use crate::renumber::{
    lemma_alike_trans, lemma_principal_steady, lemma_raised_alike, lemma_raised_closed, raised,
};
use crate::rules::{
    lemma_apply_env_mono, lemma_self_application_fails, monomorphic, self_application, types,
};
use crate::scope::{
    env_mentions, in_range, lemma_apply_scope, lemma_constant_scope, lemma_infer_scope,
    lemma_renamed_scope, mentions,
};
use crate::soundness::free_in;
use crate::substitution::{
    acyclic, apply, clean, lemma_apply_clean, lemma_apply_empty, lemma_apply_fixed,
    lemma_apply_insert, lemma_apply_var, lemma_remove_keys_acyclic,
};
use crate::typing::{
    apply_env, bool_ty, env_vars, Failure, find_frame, fresh, fun_ty, generalize, infer,
    instance_vars, instantiate, lemma_infer_refines, lemma_position_found, lemma_unified_sound,
    list_ty, prelude, principal, Scheme, shift, unified,
};
use crate::upheld::lemma_tidy_sound;
use crate::upkeep::{avoids, env_free, tidy};
use crate::unification::lemma_unify_cases;
use vstd::prelude::*;

verus! {

/// Whether every variable of the environment is numbered `n` at most.
pub open spec fn env_below(env: Seq<(Seq<char>, Scheme)>, n: nat) -> bool {
    forall|v: u32| env_mentions(env, v) ==> v <= n
}

/// The expression `let x = e in x`.
pub open spec fn let_itself(x: Seq<char>, e: Term) -> Term {
    Term::Let(x, Box::new(e), Box::new(Term::Var(x)))
}

/// A `let` that gives back what it binds has the type of the value that it
/// binds, up to the names of the variables: where inference gives
/// `let x = e in x` a type, it gives `e` a type, and the two are alike. The
/// environment is to hold no variable that the generator has yet to hand
/// out.
pub proof fn lemma_let_principal(
    x: Seq<char>,
    e: Term,
    env: Seq<(Seq<char>, Scheme)>,
    last: nat,
)
    requires
        env_below(env, last),
        principal(let_itself(x, e), env, last).0 is Ok,
    ensures
        principal(e, env, last + 1).0 is Ok,
        principal(e, env, last + 1).0->Ok_0.alike(principal(let_itself(x, e), env, last).0->Ok_0),
{
    let none = Map::<u32, Ty>::empty();
    let top = (last + 1) as u32;
    let a0 = fresh(last);
    let a = fresh(last + 1);
    lemma_apply_empty(a);
    let val = infer(e, a, env, none, last + 2);
    let s1 = val.result->Ok_0;
    let body = apply(s1, a);
    let scheme = generalize(body, apply_env(s1, env));
    let env1 = seq![(x, scheme)] + env;
    assert(env1[0] == (x, scheme));
    assert(find_frame(env1, x) == Some(scheme));
    let order = instance_vars(scheme);
    let f = shift(order, val.last);
    let inst = instantiate(scheme, val.last);
    let s2 = unified(a0, inst, s1)->Ok_0;
    let run = infer(let_itself(x, e), a0, env, none, last + 1);
    let inner = infer(Term::Var(x), a0, env1, s1, val.last);
    assert(last < u32::MAX && run.result is Ok);
    assert(last + 1 < u32::MAX && val.result is Ok && run == inner);
    assert(val.last + order.len() <= u32::MAX && inner.result == unified(a0, inst, s1));
    assert(principal(e, env, last + 1).0 == Ok::<Ty, Failure>(body));
    assert(principal(let_itself(x, e), env, last).0 == Ok::<Ty, Failure>(
        apply(s2, a0),
    ));
    lemma_infer_refines(e, a, env, none, last + 2);
    lemma_unified_sound(a0, inst, s1);
    assert forall|v: u32| mentions(s1, v) implies v != top && v <= val.last by {
        lemma_infer_scope(e, a, env, none, last + 2, v);
    }
    assert forall|v: u32| #[trigger] body.occurs(v) implies v != top && v <= val.last by {
        lemma_apply_scope(s1, a, v);
        if !a.occurs(v) {
            assert(mentions(s1, v));
        }
    }
    lemma_apply_clean(s1, a);
    assert forall|v: u32| #[trigger] inst.occurs(v) implies v != top && !s1.contains_key(v) by {
        lemma_renamed_scope(body, f, v);
        let u = choose|u: u32| #[trigger] body.occurs(u) && f(u) == v;
        if order.contains(u) {
            lemma_position_found(order, u);
            if s1.contains_key(v) {
                assert(mentions(s1, v));
            }
        } else {
            assert(f(u) == u);
        }
    }
    assert(clean(s1, inst));
    lemma_apply_fixed(s1, inst);
    lemma_apply_var(s1, top);
    lemma_unify_cases(a0, inst, s1);
    assert(s2 == s1.insert(top, inst));
    lemma_apply_insert(s1, top, inst, a0);
    assert(apply(s2, a0) == inst);
    assert forall|v: u32, w: u32|
        #![trigger body.occurs(v), body.occurs(w)]
        body.occurs(v) && body.occurs(w) && f(v) == f(w) implies v == w by {
        if order.contains(v) {
            lemma_position_found(order, v);
        }
        if order.contains(w) {
            lemma_position_found(order, w);
        }
    }
    assert(body.told_apart_by(f) && body.renamed(f) == inst);
}

/// Where inference gives the value of a `let` a type, it gives one to the
/// `let` that gives back what it binds, unless the variables run out. The
/// environment is to hold no variable that the generator has yet to hand
/// out.
pub proof fn lemma_let_succeeds(x: Seq<char>, e: Term, env: Seq<(Seq<char>, Scheme)>, last: nat)
    requires
        env_below(env, last),
        principal(e, env, last + 1).0 is Ok,
    ensures
        principal(let_itself(x, e), env, last).0 is Ok || principal(let_itself(x, e), env, last).0
            == Err::<Ty, Failure>(Failure::OutOfVariables),
{
    let none = Map::<u32, Ty>::empty();
    let top = (last + 1) as u32;
    let a0 = fresh(last);
    let a = fresh(last + 1);
    lemma_apply_empty(a);
    let val = infer(e, a, env, none, last + 2);
    let s1 = val.result->Ok_0;
    let body = apply(s1, a);
    let scheme = generalize(body, apply_env(s1, env));
    let env1 = seq![(x, scheme)] + env;
    assert(env1[0] == (x, scheme));
    assert(find_frame(env1, x) == Some(scheme));
    let order = instance_vars(scheme);
    let f = shift(order, val.last);
    let inst = instantiate(scheme, val.last);
    let run = infer(let_itself(x, e), a0, env, none, last + 1);
    let inner = infer(Term::Var(x), a0, env1, s1, val.last);
    assert(last + 1 < u32::MAX && val.result is Ok && run == inner);
    if val.last + order.len() <= u32::MAX {
        assert(inner.result == unified(a0, inst, s1));
        lemma_infer_refines(e, a, env, none, last + 2);
        assert forall|v: u32| mentions(s1, v) implies v != top && v <= val.last by {
            lemma_infer_scope(e, a, env, none, last + 2, v);
        }
        assert forall|v: u32| #[trigger] body.occurs(v) implies v != top && v <= val.last by {
            lemma_apply_scope(s1, a, v);
            if !a.occurs(v) {
                assert(mentions(s1, v));
            }
        }
        lemma_apply_clean(s1, a);
        assert forall|v: u32| #[trigger] inst.occurs(v) implies v != top && !s1.contains_key(
            v,
        ) by {
            lemma_renamed_scope(body, f, v);
            let u = choose|u: u32| #[trigger] body.occurs(u) && f(u) == v;
            if order.contains(u) {
                lemma_position_found(order, u);
                if s1.contains_key(v) {
                    assert(mentions(s1, v));
                }
            } else {
                assert(f(u) == u);
            }
        }
        assert(clean(s1, inst));
        lemma_apply_fixed(s1, inst);
        if s1.contains_key(top) {
            assert(mentions(s1, top));
        }
        lemma_apply_var(s1, top);
        lemma_unify_cases(a0, inst, s1);
        assert(Ty::Var(top).occurs(top));
    }
}

/// A `let` that gives back what it binds has the type of the value that it
/// binds, up to the names of the variables, with the generator in the same
/// state for both: where inference gives `let x = e in x` a type, it gives
/// `e` a type, and the two are alike; and where it gives `e` a type, it
/// gives `let x = e in x` one, unless the variables run out. The
/// environment is to hold no type variable.
pub proof fn lemma_let_has_the_type_of_its_value(
    x: Seq<char>,
    e: Term,
    env: Seq<(Seq<char>, Scheme)>,
    last: nat,
)
    requires
        closed(env),
    ensures
        principal(let_itself(x, e), env, last).0 matches Ok(whole) ==> principal(e, env, last).0
            == Ok::<Ty, Failure>(principal(e, env, last).0->Ok_0) && principal(
            e,
            env,
            last,
        ).0->Ok_0.alike(whole),
        principal(e, env, last).0 is Ok ==> principal(let_itself(x, e), env, last).0 is Ok
            || principal(let_itself(x, e), env, last).0 == Err::<Ty, Failure>(
            Failure::OutOfVariables,
        ),
{
    lemma_closed_self_contained(env, last);
    lemma_raised_closed(env);
    lemma_principal_steady(e, env, last);
    if let Ok(whole) = principal(let_itself(x, e), env, last).0 {
        lemma_let_principal(x, e, env, last);
        let value = principal(e, env, last).0->Ok_0;
        lemma_raised_alike(value);
        lemma_alike_trans(value, raised(value), whole);
    }
    if principal(e, env, last).0 is Ok {
        if principal(e, env, last + 1).0 is Ok {
            lemma_let_succeeds(x, e, env, last);
        } else {
            lemma_let_fails_with_its_value(x, e, Term::Var(x), env, last);
        }
    }
}

/// Where inference gives the value of a `let` no type, it gives the `let`
/// none, and ends with the same error.
pub proof fn lemma_let_fails_with_its_value(
    x: Seq<char>,
    e: Term,
    body: Term,
    env: Seq<(Seq<char>, Scheme)>,
    last: nat,
)
    requires
        last < u32::MAX,
        principal(e, env, last + 1).0 is Err,
    ensures
        principal(Term::Let(x, Box::new(e), Box::new(body)), env, last).0 == principal(
            e,
            env,
            last + 1,
        ).0,
{
}

/// Inference gives a function that applies its parameter to itself no
/// type, in every environment without quantified variables.
pub proof fn lemma_self_application_rejected(
    x: Seq<char>,
    env: Seq<(Seq<char>, Scheme)>,
    last: nat,
)
    requires
        monomorphic(env),
    ensures
        principal(Term::Fun(x, Box::new(self_application(x))), env, last).0 is Err,
{
    if last < u32::MAX {
        lemma_apply_empty(fresh(last));
        lemma_self_application_fails(x, fresh(last), env, Map::empty(), last + 1);
    }
}

/// Whether the environment holds no type variable: no scheme of it
/// quantifies one, and none occurs in a body.
pub open spec fn closed(env: Seq<(Seq<char>, Scheme)>) -> bool {
    monomorphic(env) && forall|i: int, v: u32|
        0 <= i < env.len() ==> !(#[trigger] env[i].1.body.occurs(v))
}

/// A substitution leaves an environment alone that holds no type variable.
pub proof fn lemma_closed_env(s: Map<u32, Ty>, env: Seq<(Seq<char>, Scheme)>)
    requires
        acyclic(s),
        closed(env),
    ensures
        apply_env(s, env) == env,
{
    lemma_apply_env_mono(s, env);
    assert forall|i: int| 0 <= i < env.len() implies apply_env(s, env)[i] == env[i] by {
        let body = env[i].1.body;
        assert forall|v: u32| #[trigger] body.occurs(v) implies !s.contains_key(v) by {
            assert(!env[i].1.body.occurs(v));
        }
        lemma_apply_fixed(s, body);
        assert(env[i].1.quantified == Set::<u32>::empty());
    }
    assert(apply_env(s, env) =~= env);
}

/// Whether every scheme of the environment quantifies the variables of its
/// body, and no others.
pub open spec fn self_contained(env: Seq<(Seq<char>, Scheme)>) -> bool {
    forall|i: int, v: u32|
        #![trigger env[i].1.body.occurs(v)]
        #![trigger env[i].1.quantified.contains(v)]
        0 <= i < env.len() ==> (env[i].1.body.occurs(v) <==> env[i].1.quantified.contains(v))
}

/// The variables that the schemes of the environment quantify.
pub open spec fn quantified_in(env: Seq<(Seq<char>, Scheme)>) -> Set<u32> {
    Set::new(
        |v: u32| exists|i: int| 0 <= i < env.len() && (#[trigger] env[i]).1.quantified.contains(v),
    )
}

/// An environment that holds no type variable is one whose schemes
/// quantify the variables of their bodies, and holds no variable that the
/// generator has yet to hand out.
pub proof fn lemma_closed_self_contained(env: Seq<(Seq<char>, Scheme)>, n: nat)
    requires
        closed(env),
    ensures
        self_contained(env),
        env_below(env, n),
{
    assert forall|v: u32| env_mentions(env, v) implies v <= n by {
        let i = choose|i: int|
            0 <= i < env.len() && ((#[trigger] env[i]).1.body.occurs(v)
                || env[i].1.quantified.contains(v));
        assert(!env[i].1.body.occurs(v));
    }
}

/// A substitution leaves an environment alone whose schemes quantify the
/// variables of their bodies.
pub proof fn lemma_self_contained_env(s: Map<u32, Ty>, env: Seq<(Seq<char>, Scheme)>)
    requires
        acyclic(s),
        self_contained(env),
    ensures
        apply_env(s, env) == env,
{
    assert forall|i: int| 0 <= i < env.len() implies apply_env(s, env)[i] == env[i] by {
        let scheme = env[i].1;
        let rest = s.remove_keys(scheme.quantified);
        lemma_remove_keys_acyclic(s, scheme.quantified);
        assert forall|v: u32| #[trigger] scheme.body.occurs(v) implies !rest.contains_key(v) by {
            assert(env[i].1.body.occurs(v));
        }
        lemma_apply_fixed(rest, scheme.body);
    }
    assert(apply_env(s, env) =~= env);
}

/// The type that inference gives to an expression is a type of the
/// expression by the typing rules; in an environment whose schemes
/// quantify the variables of their bodies and that holds no variable that
/// the generator has yet to hand out.
pub proof fn lemma_principal_sound(e: Term, env: Seq<(Seq<char>, Scheme)>, last: nat)
    requires
        self_contained(env),
        env_below(env, last),
        principal(e, env, last).0 is Ok,
    ensures
        types(env, e, principal(e, env, last).0->Ok_0),
{
    let a = fresh(last);
    let none = Map::<u32, Ty>::empty();
    let p = quantified_in(env);
    lemma_apply_empty(a);
    assert forall|v: u32| #[trigger] mentions(none, v) implies v <= last + 1 by {
        assert(!in_range(none, v));
    }
    assert forall|v: u32| env_mentions(env, v) implies v <= last + 1 by {}
    assert forall|v: u32| #[trigger] p.contains(v) implies v <= last by {
        assert(env_mentions(env, v));
    }
    assert forall|u: u32| #[trigger] a.occurs(u) implies avoids(none, u, p) by {
        assert forall|w: u32| #[trigger] reach(none, u, w) implies !p.contains(w) by {
            lemma_reach_unbound(none, u, w);
        }
    }
    assert forall|u: u32| #[trigger] env_free(env, u) implies avoids(none, u, p) by {
        let i = choose|i: int| 0 <= i < env.len() && free_in((#[trigger] env[i]).1, u);
        assert(env[i].1.body.occurs(u));
    }
    assert(tidy(a, env, none, last + 1, p));
    lemma_tidy_sound(e, a, env, none, last + 1, p);
    lemma_infer_refines(e, a, env, none, last + 1);
    let out = infer(e, a, env, none, last + 1).result->Ok_0;
    lemma_self_contained_env(out, env);
}

/// The environment of the list primitives is one whose schemes quantify
/// the variables of their bodies, and holds the five variables that it
/// took from the generator.
pub proof fn lemma_prelude_self_contained(last: nat)
    requires
        last + 5 <= u32::MAX,
    ensures
        self_contained(prelude(last)),
        env_below(prelude(last), last + 5),
{
    let env = prelude(last);
    assert forall|v: u32| env_mentions(env, v) implies v <= last + 5 by {
        let i = choose|i: int|
            0 <= i < env.len() && ((#[trigger] env[i]).1.body.occurs(v)
                || env[i].1.quantified.contains(v));
        lemma_prelude_frame(last, i, v);
    }
    assert forall|i: int, v: u32|
        #![trigger env[i].1.body.occurs(v)]
        #![trigger env[i].1.quantified.contains(v)]
        0 <= i < env.len() implies (env[i].1.body.occurs(v) <==> env[i].1.quantified.contains(
        v,
    )) by {
        lemma_prelude_frame(last, i, v);
    }
}

/// A frame of the environment of the list primitives quantifies the
/// variables of its body, which is one of the five variables that the
/// environment took from the generator.
pub proof fn lemma_prelude_frame(last: nat, i: int, v: u32)
    requires
        last + 5 <= u32::MAX,
        0 <= i < 5,
    ensures
        prelude(last).len() == 5,
        prelude(last)[i].1.body.occurs(v) <==> prelude(last)[i].1.quantified.contains(v),
        prelude(last)[i].1.body.occurs(v) ==> last < v <= last + 5,
{
    let env = prelude(last);
    let none = Seq::<(Seq<char>, Scheme)>::empty();
    assert(env_vars(none) =~= Set::<u32>::empty());
    let body = env[i].1.body;
    assert(env[i].1 == generalize(body, none));
    if body.occurs(v) {
        let a = fresh((last + 4 - i) as nat);
        lemma_list_vars(a, v);
        lemma_constant_scope(v);
        assert(a.occurs(v) <==> v == last + 5 - i);
        if i == 0 {
            assert(body == fun_ty(list_ty(a), bool_ty()));
        } else if i == 1 {
            assert(body == fun_ty(list_ty(a), list_ty(a)));
        } else if i == 2 {
            assert(body == fun_ty(list_ty(a), a));
        } else if i == 3 {
            assert(body == fun_ty(a, fun_ty(list_ty(a), list_ty(a))));
            assert(fun_ty(list_ty(a), list_ty(a)).occurs(v) <==> a.occurs(v));
        } else {
            assert(body == list_ty(a));
        }
        assert(a.occurs(v));
    }
}

/// The variables of the type of the lists of `t` are those of `t`.
pub proof fn lemma_list_vars(t: Ty, v: u32)
    ensures
        list_ty(t).occurs(v) <==> t.occurs(v),
{
    let args = seq![t];
    assert(list_ty(t)->Con_1 =~= args);
    if t.occurs(v) {
        lemma_occurs_arg("List"@, args, 0, v);
    }
    if list_ty(t).occurs(v) {
        let i = choose|i: int| 0 <= i < args.len() && (#[trigger] args[i]).occurs(v);
        assert(args[i] == t);
    }
}

} // verus!

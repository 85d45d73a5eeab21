//! Which variables a substitution leads to from which: the variables of
//! what it makes of a variable.

use crate::ast::{lemma_occurs_arg, Ty};
use crate::substitution::{
    acyclic, apply, lemma_apply_con, lemma_apply_fun, lemma_apply_var, refines,
};
use vstd::prelude::*;

verus! {

/// Whether the substitution leads from the variable `u` to the variable
/// `w`: `w` occurs in what the substitution makes of `u`.
pub open spec fn reach(s: Map<u32, Ty>, u: u32, w: u32) -> bool {
    apply(s, Ty::Var(u)).occurs(w)
}

/// A substitution leads from a variable that it does not bind to that
/// variable only.
pub proof fn lemma_reach_unbound(s: Map<u32, Ty>, u: u32, w: u32)
    requires
        acyclic(s),
        !s.contains_key(u),
    ensures
        reach(s, u, w) <==> w == u,
{
    lemma_apply_var(s, u);
}

/// A variable of what a substitution makes of a type is a variable that
/// the substitution leads to from a variable of the type.
pub proof fn lemma_reach_from(s: Map<u32, Ty>, t: Ty, w: u32) -> (u: u32)
    requires
        acyclic(s),
        apply(s, t).occurs(w),
    ensures
        t.occurs(u),
        reach(s, u, w),
    decreases t,
{
    match t {
        Ty::Var(v) => v,
        Ty::Fun(a, b) => {
            lemma_apply_fun(s, *a, *b);
            if apply(s, *a).occurs(w) {
                lemma_reach_from(s, *a, w)
            } else {
                lemma_reach_from(s, *b, w)
            }
        },
        Ty::Con(name, args) => {
            lemma_apply_con(s, name, args);
            let out = apply(s, t)->Con_1;
            let i = choose|i: int| 0 <= i < out.len() && (#[trigger] out[i]).occurs(w);
            let u = lemma_reach_from(s, args[i], w);
            lemma_occurs_arg(name, args, i, u);
            u
        },
    }
}

/// A variable that a substitution leads to from a variable of a type is a
/// variable of what the substitution makes of the type.
pub proof fn lemma_reach_into(s: Map<u32, Ty>, t: Ty, u: u32, w: u32)
    requires
        acyclic(s),
        t.occurs(u),
        reach(s, u, w),
    ensures
        apply(s, t).occurs(w),
    decreases t,
{
    match t {
        Ty::Var(v) => {},
        Ty::Fun(a, b) => {
            lemma_apply_fun(s, *a, *b);
            if a.occurs(u) {
                lemma_reach_into(s, *a, u, w);
            } else {
                lemma_reach_into(s, *b, u, w);
            }
        },
        Ty::Con(name, args) => {
            lemma_apply_con(s, name, args);
            let out = apply(s, t)->Con_1;
            let i = choose|i: int| 0 <= i < args.len() && (#[trigger] args[i]).occurs(u);
            lemma_reach_into(s, args[i], u, w);
            lemma_occurs_arg(name, out, i, w);
        },
    }
}

/// Where a substitution refines another one, it leads on from where the
/// other one leads.
pub proof fn lemma_reach_on(fine: Map<u32, Ty>, coarse: Map<u32, Ty>, u: u32, v: u32, w: u32)
    requires
        acyclic(fine),
        refines(fine, coarse),
        reach(coarse, u, v),
        reach(fine, v, w),
    ensures
        reach(fine, u, w),
{
    lemma_reach_into(fine, apply(coarse, Ty::Var(u)), v, w);
    assert(apply(fine, apply(coarse, Ty::Var(u))) == apply(fine, Ty::Var(u)));
}

/// Where a substitution refines another one, it leads from a variable only
/// where it leads from a variable that the other one leads to.
pub proof fn lemma_reach_through(fine: Map<u32, Ty>, coarse: Map<u32, Ty>, u: u32, w: u32) -> (v:
    u32)
    requires
        acyclic(fine),
        refines(fine, coarse),
        reach(fine, u, w),
    ensures
        reach(coarse, u, v),
        reach(fine, v, w),
{
    assert(apply(fine, apply(coarse, Ty::Var(u))) == apply(fine, Ty::Var(u)));
    lemma_reach_from(fine, apply(coarse, Ty::Var(u)), w)
}

} // verus!

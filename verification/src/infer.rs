//! The inferencer: substitutions, type schemes, typing environments, the
//! unifier and the recursive descent over expressions that threads a
//! substitution through them.

use crate::ast::{Expr, Op, PrimitiveType, Ty};
use crate::laws::{
    closed, env_below, lemma_prelude_self_contained, lemma_principal_sound, self_contained,
};
use crate::upheld::lemma_tidy_sound;
use crate::upkeep::tidy;
use crate::principal::{below, demand, instance, lemma_principal_complete, lemma_principal_decides};
use crate::render::push_type;
use crate::rules::{lemma_infer_sound, let_free, monomorphic, types};
use crate::substitution::{
    acyclic, apply, clean, height, lemma_apply_clean, lemma_apply_con, lemma_apply_empty,
    lemma_apply_idempotent, lemma_apply_keeps, lemma_height_elem, lemma_remove_keys_acyclic,
    rank_of, ranked, refines,
};
use crate::typing::{
    apply_env, apply_scheme, bool_ty, env_vars, Failure, find_frame, fresh, fun_ty, generalize,
    infer, instance_vars, instantiate, int_ty, lemma_infer_refines, lemma_unified_sound, list_ty,
    mismatch_message, Outcome, prelude, principal, Scheme, unified,
};
use crate::unification::{
    lemma_step_bind, lemma_step_con, lemma_step_drop, lemma_step_fun, lemma_unify_most_general,
    pair_up, pending_size, pending_vars, solve, unify,
};
use crate::vars::{collect_first_seen, collect_vars_except, copy_vars, rename_vars, union_vars};
use std::collections::HashSet;
use vstd::prelude::*;
use vstd::string::StringExecFns;

verus! {

broadcast use vstd::std_specs::hash::group_hash_axioms;

/// What can go wrong when a type is inferred.
#[derive(Debug)]
pub enum Error {
    /// A name that the environment does not bind.
    UndefinedName(String),
    /// Two types that cannot be made equal, in a message.
    TypeError(String),
    /// More type variables were needed than there are numbers for them.
    OutOfVariables,
}

impl View for Error {
    type V = Failure;

    open spec fn view(&self) -> Failure {
        match self {
            Error::UndefinedName(name) => Failure::UndefinedName(name@),
            Error::TypeError(msg) => Failure::TypeError(msg@),
            Error::OutOfVariables => Failure::OutOfVariables,
        }
    }
}

/// The text of an error.
pub open spec fn failure_text(f: Failure) -> Seq<char> {
    match f {
        Failure::UndefinedName(name) => name + " is undefined"@,
        Failure::TypeError(msg) => "Type error: "@ + msg,
        Failure::OutOfVariables => "out of type variables"@,
    }
}

impl Clone for Error {
    fn clone(&self) -> (copy: Self)
        ensures
            copy@ == self@,
    {
        match self {
            Error::UndefinedName(name) => Error::UndefinedName(name.clone()),
            Error::TypeError(msg) => Error::TypeError(msg.clone()),
            Error::OutOfVariables => Error::OutOfVariables,
        }
    }
}

impl Error {
    /// The text of this error.
    pub fn to_string(&self) -> (text: String)
        ensures
            text@ == failure_text(self@),
    {
        match self {
            Error::UndefinedName(name) => {
                let mut text = name.clone();
                text.append(" is undefined");
                text
            },
            Error::TypeError(msg) => {
                let mut text = String::from_str("Type error: ");
                text.append(msg.as_str());
                text
            },
            Error::OutOfVariables => String::from_str("out of type variables"),
        }
    }
}

/// The type error about the types `a` and `b`.
pub fn mismatch(a: &PrimitiveType, b: &PrimitiveType) -> (e: Error)
    ensures
        e@ == Failure::TypeError(mismatch_message(a@, b@)),
{
    let mut msg = String::from_str("cannot unify ");
    push_type(&mut msg, a);
    msg.append(" with ");
    push_type(&mut msg, b);
    Error::TypeError(msg)
}

/// A source of type variables that were not handed out before.
#[derive(Debug)]
pub struct VarGenerator {
    next_var: u32,
}

impl View for VarGenerator {
    type V = nat;

    /// The number of the variable handed out last, 0 before the first.
    closed spec fn view(&self) -> nat {
        self.next_var as nat
    }
}

impl Clone for VarGenerator {
    fn clone(&self) -> (copy: Self)
        ensures
            copy@ == self@,
    {
        VarGenerator { next_var: self.next_var }
    }
}

impl VarGenerator {
    /// A generator that has handed out no variable yet.
    pub fn new() -> (g: VarGenerator)
        ensures
            g@ == 0,
    {
        VarGenerator { next_var: 0 }
    }

    /// A generator that goes on after the variable numbered `last`.
    pub fn resume(last: u32) -> (g: VarGenerator)
        ensures
            g@ == last,
    {
        VarGenerator { next_var: last }
    }

    /// How many variables this generator can still hand out.
    pub fn remaining(&self) -> (n: u32)
        ensures
            n == u32::MAX - self@,
    {
        u32::MAX - self.next_var
    }

    /// The next type variable: its number is one more than that of the last.
    pub fn next_typevar(&mut self) -> (t: PrimitiveType)
        requires
            old(self)@ < u32::MAX,
        ensures
            final(self)@ == old(self)@ + 1,
            t@ == Ty::Var(final(self)@ as u32),
    {
        self.next_var += 1;
        PrimitiveType::Var(self.next_var)
    }
}

/// The finite map that a list of bindings stands for: a later binding of a
/// variable overrides an earlier one.
pub open spec fn bindings_map(bs: Seq<(u32, PrimitiveType)>) -> Map<u32, Ty>
    decreases bs.len(),
{
    if bs.len() == 0 {
        Map::empty()
    } else {
        bindings_map(bs.drop_last()).insert(bs.last().0, bs.last().1@)
    }
}

/// A substitution: a finite map from type variables to types.
#[derive(Debug)]
pub struct Subst {
    bindings: Vec<(u32, PrimitiveType)>,
}

impl View for Subst {
    type V = Map<u32, Ty>;

    closed spec fn view(&self) -> Map<u32, Ty> {
        bindings_map(self.bindings@)
    }
}

impl Clone for Subst {
    fn clone(&self) -> (copy: Self)
        ensures
            copy@ == self@,
    {
        let mut bindings: Vec<(u32, PrimitiveType)> = Vec::new();
        let mut i: usize = 0;
        while i < self.bindings.len()
            invariant
                i <= self.bindings.len(),
                bindings@.len() == i,
                bindings_map(bindings@) == bindings_map(self.bindings@.take(i as int)),
            decreases self.bindings.len() - i,
        {
            let v = self.bindings[i].0;
            let t = self.bindings[i].1.clone();
            proof {
                let next = self.bindings@.take(i + 1);
                assert(next.drop_last() =~= self.bindings@.take(i as int));
                assert(bindings@.push((v, t)).drop_last() =~= bindings@);
            }
            bindings.push((v, t));
            i += 1;
        }
        proof {
            use_type_invariant(self);
            assert(self.bindings@.take(i as int) =~= self.bindings@);
        }
        Subst { bindings }
    }
}

impl Subst {
    /// Every substitution is acyclic: following its bindings from any
    /// variable comes to an end, so that it can be applied.
    #[verifier::type_invariant]
    pub open spec fn wf(&self) -> bool {
        acyclic(self@)
    }

    /// The substitution that binds no variable.
    pub fn empty() -> (s: Subst)
        ensures
            s@ == Map::<u32, Ty>::empty(),
            s.wf(),
    {
        proof {
            lemma_apply_empty(Ty::Var(0));
        }
        Subst { bindings: Vec::new() }
    }

    /// What this substitution binds the variable `v` to, if it binds it.
    fn find(&self, v: u32) -> (found: Option<&PrimitiveType>)
        ensures
            match found {
                Some(t) => self@.contains_key(v) && t@ == self@[v],
                None => !self@.contains_key(v),
            },
    {
        let mut i: usize = self.bindings.len();
        assert(self.bindings@.take(i as int) =~= self.bindings@);
        while i > 0
            invariant
                i <= self.bindings.len(),
                self@.contains_key(v) <==> bindings_map(self.bindings@.take(i as int)).contains_key(
                    v,
                ),
                self@.contains_key(v) ==> self@[v] == bindings_map(
                    self.bindings@.take(i as int),
                )[v],
            decreases i,
        {
            i -= 1;
            proof {
                let upto = self.bindings@.take(i + 1);
                assert(upto.drop_last() =~= self.bindings@.take(i as int));
                assert(upto.last() == self.bindings@[i as int]);
            }
            if self.bindings[i].0 == v {
                return Some(&self.bindings[i].1);
            }
        }
        None
    }

    /// This substitution with `x` bound to `t` in addition.
    fn bound(self, x: u32, t: PrimitiveType) -> (s: Subst)
        requires
            acyclic(self@.insert(x, t@)),
        ensures
            s@ == self@.insert(x, t@),
    {
        let mut bindings = self.bindings;
        proof {
            assert(bindings@.push((x, t)).drop_last() =~= bindings@);
        }
        bindings.push((x, t));
        Subst { bindings }
    }

    /// This substitution with the variable `x` bound to `t` in addition.
    pub fn extend(&self, x: PrimitiveType, t: PrimitiveType) -> (s: Subst)
        requires
            x@ is Var,
            acyclic(self@.insert(x@->Var_0, t@)),
        ensures
            s@ == self@.insert(x@->Var_0, t@),
            s.wf(),
    {
        match x {
            PrimitiveType::Var(v) => self.clone().bound(v, t),
            _ => self.clone(),
        }
    }

    /// What this substitution binds `y` to, if `y` is a variable that it
    /// binds, and `y` itself otherwise.
    pub fn lookup(&self, y: &PrimitiveType) -> (t: PrimitiveType)
        ensures
            t@ == match y@ {
                Ty::Var(v) => if self@.contains_key(v) {
                    self@[v]
                } else {
                    y@
                },
                _ => y@,
            },
    {
        match y {
            PrimitiveType::Var(v) => match self.find(*v) {
                Some(t) => t.clone(),
                None => y.clone(),
            },
            _ => y.clone(),
        }
    }

    /// The type `t` with every variable replaced by what this substitution
    /// binds it to, transitively: the result holds no variable that this
    /// substitution binds, and applying the substitution to it again changes
    /// nothing.
    pub fn apply(&self, t: &PrimitiveType) -> (r: PrimitiveType)
        ensures
            r@ == apply(self@, t@),
            clean(self@, r@),
            apply(self@, r@) == r@,
        decreases height(rank_of(self@), t@), t,
    {
        proof {
            use_type_invariant(self);
            assert(ranked(self@, rank_of(self@)));
            lemma_apply_clean(self@, t@);
            lemma_apply_idempotent(self@, t@);
        }
        match t {
            PrimitiveType::Var(v) => match self.find(*v) {
                Some(u) => self.apply(u),
                None => t.clone(),
            },
            PrimitiveType::Fun(a, r) => PrimitiveType::Fun(
                Box::new(self.apply(a)),
                Box::new(self.apply(r)),
            ),
            PrimitiveType::Con(name, args) => {
                let ghost ts = t@->Con_1;
                let mut out: Vec<PrimitiveType> = Vec::new();
                let mut i: usize = 0;
                while i < args.len()
                    invariant
                        i <= args.len(),
                        t matches PrimitiveType::Con(_, a) && a == args,
                        ts == t@->Con_1,
                        out@.len() == i,
                        forall|j: int| 0 <= j < i ==> out@[j]@ == apply(self@, #[trigger] ts[j]),
                    decreases args.len() - i,
                {
                    proof {
                        lemma_height_elem(rank_of(self@), ts, i as int);
                        assert(ts[i as int] == args@[i as int]@);
                    }
                    out.push(self.apply(&args[i]));
                    i += 1;
                }
                let r = PrimitiveType::Con(name.clone(), out);
                proof {
                    lemma_apply_con(self@, name@, ts);
                    assert(r@->Con_1 =~= apply(self@, t@)->Con_1);
                }
                r
            },
        }
    }
}

/// The pairs of types that a stack of pairs of types stands for.
pub open spec fn goals(work: Seq<(PrimitiveType, PrimitiveType)>) -> Seq<(Ty, Ty)> {
    Seq::new(work.len(), |i: int| (work[i].0@, work[i].1@))
}

/// Whether an outcome of inference is the one that the model gives.
pub open spec fn agrees(r: Result<Subst, Error>, model: Result<Map<u32, Ty>, Failure>) -> bool {
    match model {
        Ok(m) => r matches Ok(s) && s@ == m && s.wf(),
        Err(f) => r matches Err(e) && e@ == f,
    }
}

/// Moves the arguments of two constructors onto the stack, pair by pair, the
/// first pair on top.
fn push_pairs(
    work: &mut Vec<(PrimitiveType, PrimitiveType)>,
    ls: Vec<PrimitiveType>,
    rs: Vec<PrimitiveType>,
)
    requires
        ls.len() == rs.len(),
    ensures
        goals(final(work)@) == goals(old(work)@) + pair_up(
            Seq::new(ls@.len(), |i: int| ls@[i]@),
            Seq::new(rs@.len(), |i: int| rs@[i]@),
        ),
{
    let mut ls = ls;
    let mut rs = rs;
    let ghost lts = Seq::new(ls@.len(), |i: int| ls@[i]@);
    let ghost rts = Seq::new(rs@.len(), |i: int| rs@[i]@);
    let ghost n = ls@.len();
    assert(goals(work@) =~= goals(old(work)@) + pair_up(lts, rts).take(0));
    while ls.len() > 0
        invariant
            ls.len() == rs.len(),
            ls.len() <= n,
            n == lts.len(),
            n == rts.len(),
            forall|i: int| 0 <= i < ls.len() ==> ls@[i]@ == lts[i],
            forall|i: int| 0 <= i < rs.len() ==> rs@[i]@ == rts[i],
            goals(work@) == goals(old(work)@) + pair_up(lts, rts).take(n - ls.len()),
        decreases ls.len(),
    {
        let ghost before = goals(work@);
        let ghost k = n - ls.len();
        let l = ls.pop().unwrap();
        let r = rs.pop().unwrap();
        work.push((l, r));
        proof {
            assert(pair_up(lts, rts)[k] == (l@, r@));
            assert(goals(work@) =~= before.push((l@, r@)));
            assert(pair_up(lts, rts).take(k + 1) =~= pair_up(lts, rts).take(k).push((l@, r@)));
            assert(goals(work@) =~= goals(old(work)@) + pair_up(lts, rts).take(k + 1));
        }
    }
    assert(pair_up(lts, rts).take(n as int) =~= pair_up(lts, rts));
}

/// Whether the substitution `other` is a unifier of `t` and `u` that
/// refines `s`.
pub open spec fn unifies(other: Map<u32, Ty>, t: Ty, u: Ty, s: Map<u32, Ty>) -> bool {
    acyclic(other) && refines(other, s) && apply(other, t) == apply(other, u)
}

/// The most general substitution that extends `s` and makes `t` and `u`
/// equal, or the type error about the two types at which this fails: it
/// succeeds wherever a unifier that refines `s` exists, and every such
/// unifier refines what it returns.
pub fn mgu(t: &PrimitiveType, u: &PrimitiveType, s: &Subst) -> (r: Result<Subst, Error>)
    ensures
        agrees(r, unified(t@, u@, s@)),
        r matches Ok(s1) ==> apply(s1@, t@) == apply(s1@, u@) && refines(s1@, s@),
        forall|other: Map<u32, Ty>| #[trigger]
            unifies(other, t@, u@, s@) ==> (r matches Ok(s1) && refines(other, s1@)),
{
    proof {
        use_type_invariant(s);
        if unified(t@, u@, s@) is Ok {
            lemma_unified_sound(t@, u@, s@);
        }
        assert forall|other: Map<u32, Ty>| #[trigger] unifies(other, t@, u@, s@) implies unify(
            t@,
            u@,
            s@,
        ) is Ok && refines(other, unify(t@, u@, s@)->Ok_0) by {
            lemma_unify_most_general(t@, u@, s@, other);
        }
    }
    let mut work: Vec<(PrimitiveType, PrimitiveType)> = Vec::new();
    work.push((t.clone(), u.clone()));
    let mut cur = s.clone();
    assert(goals(work@) =~= seq![(t@, u@)]);
    while work.len() > 0
        invariant
            cur.wf(),
            solve(goals(work@), cur@) == unify(t@, u@, s@),
            forall|other: Map<u32, Ty>| #[trigger]
                unifies(other, t@, u@, s@) ==> unify(t@, u@, s@) is Ok && refines(
                    other,
                    unify(t@, u@, s@)->Ok_0,
                ),
        decreases pending_vars(goals(work@), cur@).len(), pending_size(goals(work@), cur@),
    {
        let ghost w = goals(work@);
        let ghost m = cur@;
        let (t1, t2) = work.pop().unwrap();
        assert(goals(work@) =~= w.drop_last());
        assert(w.last() == (t1@, t2@));
        let a = cur.apply(&t1);
        let b = cur.apply(&t2);
        match (a, b) {
            (PrimitiveType::Var(x), b) => {
                let a = PrimitiveType::Var(x);
                let same = match &b {
                    PrimitiveType::Var(y) => *y == x,
                    _ => false,
                };
                if same {
                    proof {
                        lemma_step_drop(w, m);
                    }
                } else if b.type_vars().contains(&x) {
                    return Err(mismatch(&a, &b));
                } else {
                    proof {
                        lemma_step_bind(w, m, x, b@);
                    }
                    cur = cur.bound(x, b);
                }
            },
            (a, PrimitiveType::Var(y)) => {
                let b = PrimitiveType::Var(y);
                if a.type_vars().contains(&y) {
                    return Err(mismatch(&b, &a));
                } else {
                    proof {
                        lemma_step_bind(w, m, y, a@);
                    }
                    cur = cur.bound(y, a);
                }
            },
            (PrimitiveType::Fun(a1, a2), PrimitiveType::Fun(b1, b2)) => {
                proof {
                    lemma_step_fun(w, m, a1@, a2@, b1@, b2@);
                }
                let ghost before = goals(work@);
                work.push((*a2, *b2));
                work.push((*a1, *b1));
                assert(goals(work@) =~= before.push((a2@, b2@)).push((a1@, b1@)));
            },
            (PrimitiveType::Con(n1, ls), PrimitiveType::Con(n2, rs)) => {
                if n1 == n2 && ls.len() == rs.len() {
                    proof {
                        let lts = Seq::new(ls@.len(), |i: int| ls@[i]@);
                        let rts = Seq::new(rs@.len(), |i: int| rs@[i]@);
                        assert(lts =~= PrimitiveType::Con(n1, ls)@->Con_1);
                        assert(rts =~= PrimitiveType::Con(n2, rs)@->Con_1);
                        lemma_step_con(w, m, n1@, lts, n2@, rts);
                    }
                    push_pairs(&mut work, ls, rs);
                } else {
                    let a = PrimitiveType::Con(n1, ls);
                    let b = PrimitiveType::Con(n2, rs);
                    return Err(mismatch(&a, &b));
                }
            },
            (a, b) => {
                return Err(mismatch(&a, &b));
            },
        }
    }
    Ok(cur)
}

/// A type scheme: a type with some of its variables quantified.
#[derive(Debug)]
pub struct TypeScheme {
    typ: PrimitiveType,
    vars: HashSet<u32>,
}

impl View for TypeScheme {
    type V = Scheme;

    closed spec fn view(&self) -> Scheme {
        Scheme { body: self.typ@, quantified: self.vars@ }
    }
}

impl Clone for TypeScheme {
    fn clone(&self) -> (copy: Self)
        ensures
            copy@ == self@,
    {
        proof {
            use_type_invariant(self);
        }
        TypeScheme { typ: self.typ.clone(), vars: copy_vars(&self.vars) }
    }
}

impl TypeScheme {
    /// Every quantified variable occurs in the body.
    #[verifier::type_invariant]
    spec fn quantified_occur(self) -> bool {
        self.vars@.subset_of(self.typ@.free_vars())
    }

    /// The scheme of `typ` with the variables `vars` quantified.
    pub fn new(typ: PrimitiveType, vars: HashSet<u32>) -> (scheme: TypeScheme)
        requires
            vars@.subset_of(typ@.free_vars()),
        ensures
            scheme@ == (Scheme { body: typ@, quantified: vars@ }),
    {
        TypeScheme { typ, vars }
    }

    /// The quantified variables, in the order in which they first occur in
    /// the body.
    pub fn quantified_vars(&self) -> (order: Vec<u32>)
        ensures
            order@ == instance_vars(self@),
    {
        let mut order: Vec<u32> = Vec::new();
        collect_first_seen(&self.typ, &self.vars, &mut order);
        order
    }

    /// An instance of this scheme: the body with each quantified variable
    /// replaced by a variable that was not handed out before.
    pub fn new_instance(&self, var_gen: &mut VarGenerator) -> (t: PrimitiveType)
        requires
            old(var_gen)@ + instance_vars(self@).len() <= u32::MAX,
        ensures
            t@ == instantiate(self@, old(var_gen)@),
            final(var_gen)@ == old(var_gen)@ + instance_vars(self@).len(),
    {
        let order = self.quantified_vars();
        let base = var_gen.next_var;
        let t = rename_vars(&self.typ, &order, base);
        var_gen.next_var = base + order.len() as u32;
        t
    }

    /// The variables of the body that are not quantified.
    pub fn type_vars(&self) -> (vars: HashSet<u32>)
        ensures
            vars@ == self@.free_vars(),
    {
        let mut vars: HashSet<u32> = HashSet::new();
        collect_vars_except(&self.typ, &self.vars, &mut vars);
        assert(vars@ =~= self@.free_vars());
        vars
    }

    /// The scheme of `t` in which every variable is quantified that is not
    /// free in the environment.
    pub fn from_type(t: &PrimitiveType, env: &Enviroment) -> (scheme: TypeScheme)
        ensures
            scheme@ == generalize(t@, env@),
    {
        let bound = env.type_vars();
        let mut vars: HashSet<u32> = HashSet::new();
        collect_vars_except(t, &bound, &mut vars);
        assert(vars@ =~= t@.free_vars() - env_vars(env@));
        TypeScheme { typ: t.clone(), vars }
    }
}

/// A typing environment: the schemes of the names in scope, innermost first.
#[derive(Debug)]
pub enum Enviroment {
    /// The environment that binds no name.
    Empty,
    /// A name with its scheme, in front of the environment it extends.
    Frame(String, TypeScheme, Box<Enviroment>),
}

impl Enviroment {
    /// The frames of this environment, innermost first.
    pub open spec fn model(&self) -> Seq<(Seq<char>, Scheme)>
        decreases self,
    {
        match self {
            Enviroment::Empty => Seq::empty(),
            Enviroment::Frame(name, scheme, outer) => seq![(name@, scheme@)] + outer.model(),
        }
    }

    /// The environment that binds no name.
    pub fn empty() -> (env: Enviroment)
        ensures
            env@ == Seq::<(Seq<char>, Scheme)>::empty(),
    {
        Enviroment::Empty
    }

    /// This environment with one more frame in front, which binds `n` to `t`.
    pub fn extend(&self, n: String, t: TypeScheme) -> (env: Enviroment)
        ensures
            env@ == seq![(n@, t@)] + self@,
    {
        Enviroment::Frame(n, t, Box::new(self.clone()))
    }

    /// The scheme of the innermost frame that binds `key`.
    fn lookup_name(&self, key: &String) -> (found: Option<TypeScheme>)
        ensures
            match find_frame(self@, key@) {
                Some(scheme) => found matches Some(s) && s@ == scheme,
                None => found is None,
            },
        decreases self,
    {
        match self {
            Enviroment::Empty => None,
            Enviroment::Frame(name, scheme, outer) => {
                assert(self@[0] == (name@, scheme@));
                assert(self@.drop_first() =~= outer@);
                if *name == *key {
                    Some(scheme.clone())
                } else {
                    outer.lookup_name(key)
                }
            },
        }
    }

    /// The scheme of the innermost frame that binds `key`.
    pub fn lookup(&self, key: &str) -> (found: Option<TypeScheme>)
        ensures
            match find_frame(self@, key@) {
                Some(scheme) => found matches Some(s) && s@ == scheme,
                None => found is None,
            },
    {
        let name = key.to_owned();
        self.lookup_name(&name)
    }

    /// The schemes of the frames, innermost first.
    pub fn schemes(&self) -> (all: Vec<TypeScheme>)
        ensures
            all@.len() == self@.len(),
            forall|i: int| 0 <= i < all@.len() ==> (#[trigger] all@[i])@ == self@[i].1,
    {
        let mut all: Vec<TypeScheme> = Vec::new();
        let mut env = self;
        let ghost mut done: Seq<(Seq<char>, Scheme)> = Seq::empty();
        assert(done + env@ =~= self@);
        loop
            invariant
                done + env@ == self@,
                all@.len() == done.len(),
                forall|i: int| 0 <= i < all@.len() ==> (#[trigger] all@[i])@ == done[i].1,
            decreases env,
        {
            match env {
                Enviroment::Empty => {
                    assert(done =~= self@);
                    return all;
                },
                Enviroment::Frame(name, scheme, outer) => {
                    proof {
                        assert(done.push((name@, scheme@)) + outer@ =~= done + env@);
                        done = done.push((name@, scheme@));
                    }
                    all.push(scheme.clone());
                    env = outer;
                },
            }
        }
    }

    /// The variables that are free in a scheme of this environment.
    pub fn type_vars(&self) -> (vars: HashSet<u32>)
        ensures
            vars@ == env_vars(self@),
    {
        let mut vars: HashSet<u32> = HashSet::new();
        let all = self.schemes();
        let mut i: usize = 0;
        assert(vars@ =~= env_vars(self@.take(0)));
        while i < all.len()
            invariant
                i <= all.len(),
                all@.len() == self@.len(),
                forall|i: int| 0 <= i < all@.len() ==> (#[trigger] all@[i])@ == self@[i].1,
                vars@ == env_vars(self@.take(i as int)),
            decreases all.len() - i,
        {
            let ghost before = vars@;
            let found = all[i].type_vars();
            vars = union_vars(vars, &found);
            proof {
                let upto = self@.take(i as int);
                let next = self@.take(i + 1);
                assert(next[i as int] == self@[i as int]);
                assert forall|v: u32| (before + found@).contains(v) <==> env_vars(next).contains(
                    v,
                ) by {
                    if before.contains(v) {
                        let j = choose|j: int|
                            0 <= j < upto.len() && (#[trigger] upto[j]).1.free_vars().contains(v);
                        assert(next[j] == upto[j]);
                    }
                    if found@.contains(v) {
                        assert(next[i as int].1.free_vars().contains(v));
                    }
                    if env_vars(next).contains(v) {
                        let j = choose|j: int|
                            0 <= j < next.len() && (#[trigger] next[j]).1.free_vars().contains(v);
                        if j < i {
                            assert(upto[j] == next[j]);
                        }
                    }
                }
                assert(vars@ =~= env_vars(next));
            }
            i += 1;
        }
        assert(self@.take(all.len() as int) =~= self@);
        vars
    }
}

impl View for Enviroment {
    type V = Seq<(Seq<char>, Scheme)>;

    open spec fn view(&self) -> Seq<(Seq<char>, Scheme)> {
        self.model()
    }
}

impl Clone for Enviroment {
    fn clone(&self) -> (copy: Self)
        ensures
            copy@ == self@,
        decreases self,
    {
        match self {
            Enviroment::Empty => Enviroment::Empty,
            Enviroment::Frame(name, scheme, outer) => Enviroment::Frame(
                name.clone(),
                scheme.clone(),
                Box::new((**outer).clone()),
            ),
        }
    }
}

impl Subst {
    /// The type `t` under this substitution without its bindings of the
    /// variables of `skip`.
    fn apply_except(&self, skip: &HashSet<u32>, t: &PrimitiveType) -> (r: PrimitiveType)
        ensures
            r@ == apply(self@.remove_keys(skip@), t@),
        decreases height(rank_of(self@), t@), t,
    {
        let ghost rest = self@.remove_keys(skip@);
        proof {
            use_type_invariant(self);
            assert(ranked(self@, rank_of(self@)));
            lemma_remove_keys_acyclic(self@, skip@);
        }
        match t {
            PrimitiveType::Var(v) => {
                if skip.contains(v) {
                    t.clone()
                } else {
                    match self.find(*v) {
                        Some(u) => self.apply_except(skip, u),
                        None => t.clone(),
                    }
                }
            },
            PrimitiveType::Fun(a, r) => PrimitiveType::Fun(
                Box::new(self.apply_except(skip, a)),
                Box::new(self.apply_except(skip, r)),
            ),
            PrimitiveType::Con(name, args) => {
                let ghost ts = t@->Con_1;
                let mut out: Vec<PrimitiveType> = Vec::new();
                let mut i: usize = 0;
                while i < args.len()
                    invariant
                        i <= args.len(),
                        rest == self@.remove_keys(skip@),
                        t matches PrimitiveType::Con(_, a) && a == args,
                        ts == t@->Con_1,
                        out@.len() == i,
                        forall|j: int| 0 <= j < i ==> out@[j]@ == apply(rest, #[trigger] ts[j]),
                    decreases args.len() - i,
                {
                    proof {
                        lemma_height_elem(rank_of(self@), ts, i as int);
                        assert(ts[i as int] == args@[i as int]@);
                    }
                    out.push(self.apply_except(skip, &args[i]));
                    i += 1;
                }
                let r = PrimitiveType::Con(name.clone(), out);
                proof {
                    lemma_apply_con(rest, name@, ts);
                    assert(r@->Con_1 =~= apply(rest, t@)->Con_1);
                }
                r
            },
        }
    }

    /// The scheme under this substitution, which leaves the quantified
    /// variables alone.
    pub fn apply_scheme(&self, scheme: &TypeScheme) -> (r: TypeScheme)
        ensures
            r@ == apply_scheme(self@, scheme@),
    {
        let typ = self.apply_except(&scheme.vars, &scheme.typ);
        let vars = copy_vars(&scheme.vars);
        proof {
            use_type_invariant(self);
            use_type_invariant(scheme);
            let rest = self@.remove_keys(scheme.vars@);
            lemma_remove_keys_acyclic(self@, scheme.vars@);
            assert forall|v: u32| vars@.contains(v) implies typ@.free_vars().contains(v) by {
                assert(scheme.typ@.free_vars().contains(v));
                lemma_apply_keeps(rest, scheme.typ@, v);
            }
        }
        TypeScheme { typ, vars }
    }

    /// The environment under this substitution, scheme by scheme.
    pub fn apply_env(&self, env: &Enviroment) -> (r: Enviroment)
        ensures
            r@ == apply_env(self@, env@),
        decreases env,
    {
        match env {
            Enviroment::Empty => {
                assert(apply_env(self@, env@) =~= Seq::empty());
                Enviroment::Empty
            },
            Enviroment::Frame(name, scheme, outer) => {
                let r = Enviroment::Frame(
                    name.clone(),
                    self.apply_scheme(scheme),
                    Box::new(self.apply_env(outer)),
                );
                assert(r@ =~= apply_env(self@, env@));
                r
            },
        }
    }
}

/// The type `int`.
pub fn int_type() -> (t: PrimitiveType)
    ensures
        t@ == int_ty(),
{
    let t = PrimitiveType::Con("int".to_owned(), Vec::new());
    assert(t@->Con_1 =~= Seq::empty());
    t
}

/// The type `bool`.
pub fn bool_type() -> (t: PrimitiveType)
    ensures
        t@ == bool_ty(),
{
    let t = PrimitiveType::Con("bool".to_owned(), Vec::new());
    assert(t@->Con_1 =~= Seq::empty());
    t
}

/// The type of the lists of `t`.
pub fn list_type(t: PrimitiveType) -> (list: PrimitiveType)
    ensures
        list@ == list_ty(t@),
{
    let mut args: Vec<PrimitiveType> = Vec::new();
    args.push(t);
    let list = PrimitiveType::Con("List".to_owned(), args);
    assert(list@->Con_1 =~= seq![t@]);
    list
}

/// The type of the functions from `a` to `b`.
pub fn fun_type(a: PrimitiveType, b: PrimitiveType) -> (t: PrimitiveType)
    ensures
        t@ == fun_ty(a@, b@),
{
    PrimitiveType::Fun(Box::new(a), Box::new(b))
}

/// The scheme of a type of which no variable is quantified.
pub fn mono_scheme(t: PrimitiveType) -> (scheme: TypeScheme)
    ensures
        scheme@ == Scheme::mono(t@),
{
    TypeScheme::new(t, HashSet::new())
}

/// Whether an outcome of inference and the generator after it are what the
/// model gives.
pub open spec fn follows(r: Result<Subst, Error>, last: nat, model: Outcome) -> bool {
    agrees(r, model.result) && last == model.last
}

/// The refinement of the substitution `s` under which the expression `exp`
/// has the type `t` in the environment `env`. The expression has that type
/// by the typing rules, under what is returned: for an expression without
/// `let` in an environment without quantified variables, and for every
/// expression where inference stands in good order, with some set of
/// generalised variables.
pub fn tp(
    exp: &Expr,
    t: &PrimitiveType,
    env: &Enviroment,
    s: &Subst,
    var_gen: &mut VarGenerator,
) -> (r: Result<Subst, Error>)
    ensures
        follows(r, final(var_gen)@, infer(exp@, t@, env@, s@, old(var_gen)@)),
        final(var_gen)@ >= old(var_gen)@,
        r matches Ok(s1) ==> refines(s1@, s@),
        monomorphic(env@) && let_free(exp@) ==> (r matches Ok(s1) ==> types(
            apply_env(s1@, env@),
            exp@,
            apply(s1@, t@),
        )),
        forall|p: Set<u32>| #[trigger]
            tidy(t@, env@, s@, old(var_gen)@, p) ==> (r matches Ok(s1) ==> types(
                apply_env(s1@, env@),
                exp@,
                apply(s1@, t@),
            )),
    decreases exp,
{
    proof {
        use_type_invariant(s);
        lemma_infer_refines(exp@, t@, env@, s@, old(var_gen)@);
        if monomorphic(env@) && let_free(exp@) {
            lemma_infer_sound(exp@, t@, env@, s@, old(var_gen)@);
        }
        let run = infer(exp@, t@, env@, s@, old(var_gen)@);
        assert forall|p: Set<u32>| #[trigger]
            tidy(t@, env@, s@, old(var_gen)@, p) && run.result is Ok implies types(
            apply_env(run.result->Ok_0, env@),
            exp@,
            apply(run.result->Ok_0, t@),
        ) by {
            lemma_tidy_sound(exp@, t@, env@, s@, old(var_gen)@, p);
        }
    }
    match exp {
        Expr::Var(n) => {
            match env.lookup(n.as_str()) {
                Some(scheme) => {
                    let needed = scheme.quantified_vars().len();
                    if needed > var_gen.remaining() as usize {
                        return Err(Error::OutOfVariables);
                    }
                    let instance = scheme.new_instance(var_gen);
                    mgu(t, &instance, s)
                },
                None => Err(Error::UndefinedName(n.clone())),
            }
        },
        Expr::Fun(arg, body) => {
            if var_gen.remaining() < 2 {
                return Err(Error::OutOfVariables);
            }
            let a = var_gen.next_typevar();
            let b = var_gen.next_typevar();
            let s1 = mgu(t, &fun_type(a.clone(), b.clone()), s)?;
            let env1 = env.extend(arg.clone(), mono_scheme(a));
            tp(body, &b, &env1, &s1, var_gen)
        },
        Expr::App(e1, e2) => {
            if var_gen.remaining() < 1 {
                return Err(Error::OutOfVariables);
            }
            let a = var_gen.next_typevar();
            let s1 = tp(e1, &fun_type(a.clone(), t.clone()), env, s, var_gen)?;
            tp(e2, &a, env, &s1, var_gen)
        },
        Expr::Let(x, e1, e2) => {
            if var_gen.remaining() < 1 {
                return Err(Error::OutOfVariables);
            }
            let a = var_gen.next_typevar();
            let s1 = tp(e1, &a, env, s, var_gen)?;
            let scheme = TypeScheme::from_type(&s1.apply(&a), &s1.apply_env(env));
            let env2 = env.extend(x.clone(), scheme);
            tp(e2, t, &env2, &s1, var_gen)
        },
        Expr::LetRec(x, e1, e2) => {
            if var_gen.remaining() < 1 {
                return Err(Error::OutOfVariables);
            }
            let a = var_gen.next_typevar();
            let env1 = env.extend(x.clone(), mono_scheme(a.clone()));
            let s1 = tp(e1, &a, &env1, s, var_gen)?;
            let scheme = TypeScheme::from_type(&s1.apply(&a), &s1.apply_env(env));
            let env2 = env.extend(x.clone(), scheme);
            tp(e2, t, &env2, &s1, var_gen)
        },
        Expr::Num(_) => mgu(t, &int_type(), s),
        Expr::Bool(_) => mgu(t, &bool_type(), s),
        Expr::BinOp(l, op, r) => {
            let operand = match op {
                Op::Add | Op::Sub | Op::Div | Op::Mul => int_type(),
                Op::And | Op::Or => bool_type(),
                Op::Lt | Op::Gt | Op::Equal => {
                    if var_gen.remaining() < 1 {
                        return Err(Error::OutOfVariables);
                    }
                    var_gen.next_typevar()
                },
            };
            let result = match op {
                Op::Add | Op::Sub | Op::Div | Op::Mul => int_type(),
                _ => bool_type(),
            };
            let s1 = tp(l, &operand, env, s, var_gen)?;
            let s2 = tp(r, &operand, env, &s1, var_gen)?;
            mgu(t, &result, &s2)
        },
        Expr::If(pred, then, otherwise) => {
            let s1 = tp(pred, &bool_type(), env, s, var_gen)?;
            let s2 = tp(then, t, env, &s1, var_gen)?;
            tp(otherwise, t, env, &s2, var_gen)
        },
    }
}

/// The type of the expression `expr` in the environment `env`: the type
/// that inference gives it. It is a type of the expression by the typing
/// rules, where the schemes of the environment quantify the variables of
/// their bodies and the generator has handed out the variables of the
/// environment. For an expression without `let`, in an environment that
/// holds no type variable, it is a most general type of the expression.
pub fn type_of(expr: &Expr, env: &Enviroment, var_gen: &mut VarGenerator) -> (r: Result<
    PrimitiveType,
    Error,
>)
    ensures
        match principal(expr@, env@, old(var_gen)@).0 {
            Ok(t) => r matches Ok(found) && found@ == t,
            Err(f) => r matches Err(e) && e@ == f,
        },
        final(var_gen)@ == principal(expr@, env@, old(var_gen)@).1,
        final(var_gen)@ >= old(var_gen)@,
        self_contained(env@) && env_below(env@, old(var_gen)@) ==> (r matches Ok(found) ==> types(
            env@,
            expr@,
            found@,
        )),
        closed(env@) && let_free(expr@) && old(var_gen)@ + 1 + demand(expr@) <= u32::MAX ==> {
            &&& r is Ok <==> exists|g: Ty| types(env@, expr@, g)
            &&& r matches Ok(found) ==> forall|g: Ty|
                types(env@, expr@, g) && below(g, old(var_gen)@) ==> #[trigger] instance(found@, g)
        },
{
    proof {
        if principal(expr@, env@, old(var_gen)@).0 is Ok {
            if self_contained(env@) && env_below(env@, old(var_gen)@) {
                lemma_principal_sound(expr@, env@, old(var_gen)@);
            }
        }
        if closed(env@) && let_free(expr@) && old(var_gen)@ + 1 + demand(expr@) <= u32::MAX {
            lemma_principal_decides(expr@, env@, old(var_gen)@);
            assert forall|g: Ty|
                types(env@, expr@, g) && below(g, old(var_gen)@) implies #[trigger] instance(
                principal(expr@, env@, old(var_gen)@).0->Ok_0,
                g,
            ) by {
                lemma_principal_complete(expr@, env@, old(var_gen)@, g);
            }
        }
        if old(var_gen)@ < u32::MAX {
            lemma_apply_empty(fresh(old(var_gen)@));
            lemma_infer_refines(
                expr@,
                fresh(old(var_gen)@),
                env@,
                Map::empty(),
                old(var_gen)@ + 1,
            );
        }
    }
    if var_gen.remaining() < 1 {
        return Err(Error::OutOfVariables);
    }
    let a = var_gen.next_typevar();
    let s = tp(expr, &a, env, &Subst::empty(), var_gen)?;
    Ok(s.apply(&a))
}

/// The environment of the list primitives `nil`, `pair`, `first`, `rest`
/// and `is_nil`, each generalised over a type variable of its own.
pub fn top_level_env(var_gen: &mut VarGenerator) -> (env: Enviroment)
    requires
        old(var_gen)@ + 5 <= u32::MAX,
    ensures
        env@ == prelude(old(var_gen)@),
        final(var_gen)@ == old(var_gen)@ + 5,
        self_contained(env@),
        env_below(env@, final(var_gen)@),
{
    proof {
        lemma_prelude_self_contained(old(var_gen)@);
    }
    let a = var_gen.next_typevar();
    let env0 = Enviroment::empty();
    let env1 = env0.extend("nil".to_owned(), TypeScheme::from_type(&list_type(a), &env0));
    let a = var_gen.next_typevar();
    let pair = fun_type(a.clone(), fun_type(list_type(a.clone()), list_type(a)));
    let env2 = env1.extend("pair".to_owned(), TypeScheme::from_type(&pair, &env0));
    let a = var_gen.next_typevar();
    let first = fun_type(list_type(a.clone()), a);
    let env3 = env2.extend("first".to_owned(), TypeScheme::from_type(&first, &env0));
    let a = var_gen.next_typevar();
    let rest = fun_type(list_type(a.clone()), list_type(a));
    let env4 = env3.extend("rest".to_owned(), TypeScheme::from_type(&rest, &env0));
    let a = var_gen.next_typevar();
    let is_nil = fun_type(list_type(a), bool_type());
    let env5 = env4.extend("is_nil".to_owned(), TypeScheme::from_type(&is_nil, &env0));
    assert(env5@ =~= prelude(old(var_gen)@));
    env5
}

} // verus!

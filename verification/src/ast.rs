//! Monotypes and expressions, together with the mathematical models that the
//! contracts of this crate are stated over.

use std::collections::HashSet;
use vstd::prelude::*;

verus! {

broadcast use vstd::std_specs::hash::group_hash_axioms;

/// The mathematical model of a monotype.
pub enum Ty {
    /// A type variable.
    Var(u32),
    /// A function type, from the first type to the second.
    Fun(Box<Ty>, Box<Ty>),
    /// A type constructor applied to its arguments.
    Con(Seq<char>, Seq<Ty>),
}

impl Ty {
    /// Whether the type variable `v` occurs in this type.
    pub open spec fn occurs(self, v: u32) -> bool
        decreases self,
    {
        match self {
            Ty::Var(w) => v == w,
            Ty::Fun(a, b) => a.occurs(v) || b.occurs(v),
            Ty::Con(_, args) => exists|i: int|
                0 <= i < args.len() && (#[trigger] args[i]).occurs(v),
        }
    }

    /// The set of the type variables that occur in this type.
    pub open spec fn free_vars(self) -> Set<u32> {
        Set::new(|v: u32| self.occurs(v))
    }

    /// This type with every variable `v` replaced by the variable `f(v)`.
    pub open spec fn renamed(self, f: spec_fn(u32) -> u32) -> Ty
        decreases self,
    {
        match self {
            Ty::Var(v) => Ty::Var(f(v)),
            Ty::Fun(a, b) => Ty::Fun(Box::new(a.renamed(f)), Box::new(b.renamed(f))),
            Ty::Con(name, args) => Ty::Con(
                name,
                Seq::new(
                    args.len(),
                    |i: int|
                        if 0 <= i < args.len() {
                            args[i].renamed(f)
                        } else {
                            self
                        },
                ),
            ),
        }
    }

    /// Whether `f` sends no two variables of this type to the same variable.
    pub open spec fn told_apart_by(self, f: spec_fn(u32) -> u32) -> bool {
        forall|v: u32, w: u32|
            #![trigger self.occurs(v), self.occurs(w)]
            self.occurs(v) && self.occurs(w) && f(v) == f(w) ==> v == w
    }

    /// Whether `other` is this type up to the names of the variables: this
    /// type with its variables renamed, no two of them to the same variable.
    pub open spec fn alike(self, other: Ty) -> bool {
        exists|f: spec_fn(u32) -> u32| self.told_apart_by(f) && self.renamed(f) == other
    }

    /// The number of nodes of this type.
    pub open spec fn size(self) -> nat
        decreases self,
    {
        match self {
            Ty::Var(_) => 1,
            Ty::Fun(a, b) => 1 + a.size() + b.size(),
            Ty::Con(_, args) => 1 + total_size(args),
        }
    }
}

/// The sum of the sizes of the types in `ts`.
pub open spec fn total_size(ts: Seq<Ty>) -> nat
    decreases ts,
{
    if ts.len() == 0 {
        0
    } else {
        total_size(ts.drop_last()) + ts.last().size()
    }
}

/// The variables that occur in one of the first `n` types of `ts`.
pub open spec fn vars_upto(ts: Seq<Ty>, n: int) -> Set<u32> {
    Set::new(|v: u32| exists|i: int| 0 <= i < n && i < ts.len() && (#[trigger] ts[i]).occurs(v))
}

/// A variable of an argument is a variable of the constructor.
pub proof fn lemma_occurs_arg(name: Seq<char>, args: Seq<Ty>, i: int, v: u32)
    requires
        0 <= i < args.len(),
        args[i].occurs(v),
    ensures
        Ty::Con(name, args).occurs(v),
{
    let t = Ty::Con(name, args);
    assert(t->Con_1 == args);
    assert(exists|i: int| 0 <= i < args.len() && (#[trigger] args[i]).occurs(v));
}

/// How a renaming acts on a constructor: argument by argument.
pub proof fn lemma_renamed_con(f: spec_fn(u32) -> u32, name: Seq<char>, args: Seq<Ty>)
    ensures
        Ty::Con(name, args).renamed(f) matches Ty::Con(n, out) && n == name && out.len()
            == args.len() && forall|i: int|
            0 <= i < args.len() ==> #[trigger] out[i] == args[i].renamed(f),
{
}

/// A type has finitely many variables.
pub proof fn lemma_free_vars_finite(t: Ty)
    ensures
        t.free_vars().finite(),
    decreases t, (if t is Con { t->Con_1.len() + 1 } else { 0 }),
{
    match t {
        Ty::Var(w) => {
            assert(t.free_vars() =~= set![w]);
        },
        Ty::Fun(a, b) => {
            lemma_free_vars_finite(*a);
            lemma_free_vars_finite(*b);
            assert(t.free_vars() =~= a.free_vars() + b.free_vars());
        },
        Ty::Con(_, args) => {
            lemma_vars_upto_finite(t, args, args.len() as int);
            assert(t.free_vars() =~= vars_upto(args, args.len() as int));
        },
    }
}

/// The variables of a prefix of a constructor's arguments are finitely many.
pub proof fn lemma_vars_upto_finite(t: Ty, ts: Seq<Ty>, n: int)
    requires
        t matches Ty::Con(_, args) && args == ts,
        0 <= n <= ts.len(),
    ensures
        vars_upto(ts, n).finite(),
    decreases t, n,
{
    if n == 0 {
        assert(vars_upto(ts, n) =~= Set::empty());
    } else {
        lemma_vars_upto_finite(t, ts, n - 1);
        lemma_free_vars_finite(ts[n - 1]);
        assert(vars_upto(ts, n) =~= vars_upto(ts, n - 1) + ts[n - 1].free_vars());
    }
}

/// The size of a sequence of types bounds the size of each of them.
pub proof fn lemma_total_size_elem(ts: Seq<Ty>, i: int)
    requires
        0 <= i < ts.len(),
    ensures
        ts[i].size() <= total_size(ts),
    decreases ts.len(),
{
    if i < ts.len() - 1 {
        lemma_total_size_elem(ts.drop_last(), i);
    }
}

/// A monotype.
#[derive(Debug, PartialEq, Eq)]
pub enum PrimitiveType {
    /// A type variable, identified by its number.
    Var(u32),
    /// A function type, from the first type to the second.
    Fun(Box<PrimitiveType>, Box<PrimitiveType>),
    /// A named type constructor applied to its arguments.
    Con(String, Vec<PrimitiveType>),
}

impl PrimitiveType {
    /// The mathematical model of this type.
    pub open spec fn model(&self) -> Ty
        decreases self,
    {
        match self {
            PrimitiveType::Var(n) => Ty::Var(*n),
            PrimitiveType::Fun(a, b) => Ty::Fun(Box::new(a.model()), Box::new(b.model())),
            PrimitiveType::Con(name, args) => Ty::Con(
                name@,
                Seq::new(
                    args@.len(),
                    |i: int|
                        if 0 <= i < args@.len() {
                            args@[i].model()
                        } else {
                            Ty::Var(0)
                        },
                ),
            ),
        }
    }

    /// Adds the variables of this type to `acc`.
    pub fn collect_vars(&self, acc: &mut HashSet<u32>)
        ensures
            final(acc)@ == old(acc)@ + self@.free_vars(),
        decreases self,
    {
        match self {
            PrimitiveType::Var(n) => {
                acc.insert(*n);
                assert(acc@ =~= old(acc)@ + self@.free_vars());
            },
            PrimitiveType::Fun(a, b) => {
                a.collect_vars(acc);
                b.collect_vars(acc);
                assert(acc@ =~= old(acc)@ + self@.free_vars());
            },
            PrimitiveType::Con(_, args) => {
                let ghost ts = self@->Con_1;
                let mut i: usize = 0;
                while i < args.len()
                    invariant
                        i <= args.len(),
                        self matches PrimitiveType::Con(_, a) && a == args,
                        ts == self@->Con_1,
                        acc@ == old(acc)@ + vars_upto(ts, i as int),
                    decreases args.len() - i,
                {
                    let ghost before = acc@;
                    args[i].collect_vars(acc);
                    proof {
                        assert(ts[i as int] == args@[i as int]@);
                        assert(vars_upto(ts, i + 1) =~= vars_upto(ts, i as int)
                            + ts[i as int].free_vars());
                        assert(acc@ =~= old(acc)@ + vars_upto(ts, i + 1));
                    }
                    i += 1;
                }
                assert(acc@ =~= old(acc)@ + self@.free_vars());
            },
        }
    }

    /// The set of the type variables that occur in this type.
    pub fn type_vars(&self) -> (vars: HashSet<u32>)
        ensures
            vars@ == self@.free_vars(),
    {
        let mut vars: HashSet<u32> = HashSet::new();
        self.collect_vars(&mut vars);
        assert(vars@ =~= self@.free_vars());
        vars
    }
}

impl View for PrimitiveType {
    type V = Ty;

    open spec fn view(&self) -> Ty {
        self.model()
    }
}

impl Clone for PrimitiveType {
    fn clone(&self) -> (copy: Self)
        ensures
            copy@ == self@,
        decreases self,
    {
        match self {
            PrimitiveType::Var(n) => PrimitiveType::Var(*n),
            PrimitiveType::Fun(a, b) => PrimitiveType::Fun(
                Box::new((**a).clone()),
                Box::new((**b).clone()),
            ),
            PrimitiveType::Con(name, args) => {
                let mut out: Vec<PrimitiveType> = Vec::new();
                let mut i: usize = 0;
                while i < args.len()
                    invariant
                        i <= args.len(),
                        self matches PrimitiveType::Con(_, a) && a == args,
                        out@.len() == i,
                        forall|j: int| 0 <= j < i ==> out@[j]@ == args@[j]@,
                    decreases args.len() - i,
                {
                    out.push(args[i].clone());
                    i += 1;
                }
                let copy = PrimitiveType::Con(name.clone(), out);
                assert(copy@->Con_1 =~= self@->Con_1);
                copy
            },
        }
    }
}

/// A binary operator.
#[derive(Debug, Clone, Copy, PartialEq, Eq)]
pub enum Op {
    Add,
    Mul,
    Sub,
    Div,
    Equal,
    Gt,
    Lt,
    And,
    Or,
}

/// The mathematical model of an expression.
pub enum Term {
    /// A number.
    Num(i32),
    /// A truth value.
    Bool(bool),
    /// A variable, by its name.
    Var(Seq<char>),
    /// A binary operator between two expressions.
    BinOp(Box<Term>, Op, Box<Term>),
    /// A function of one named parameter.
    Fun(Seq<char>, Box<Term>),
    /// A function applied to an argument.
    App(Box<Term>, Box<Term>),
    /// A name bound to a value within a body.
    Let(Seq<char>, Box<Term>, Box<Term>),
    /// A name bound to a value that may refer to itself, within a body.
    LetRec(Seq<char>, Box<Term>, Box<Term>),
    /// A choice between two expressions by a condition.
    If(Box<Term>, Box<Term>, Box<Term>),
}

/// An expression.
#[derive(Debug, PartialEq, Eq)]
pub enum Expr {
    /// A number.
    Num(i32),
    /// A truth value.
    Bool(bool),
    /// A variable, by its name.
    Var(String),
    /// A binary operator between two expressions.
    BinOp(Box<Expr>, Op, Box<Expr>),
    /// A function of one named parameter.
    Fun(String, Box<Expr>),
    /// A function applied to an argument.
    App(Box<Expr>, Box<Expr>),
    /// A name bound to a value within a body.
    Let(String, Box<Expr>, Box<Expr>),
    /// A name bound to a value that may refer to itself, within a body.
    LetRec(String, Box<Expr>, Box<Expr>),
    /// A choice between two expressions by a condition.
    If(Box<Expr>, Box<Expr>, Box<Expr>),
}

impl Expr {
    /// The mathematical model of this expression.
    pub open spec fn model(&self) -> Term
        decreases self,
    {
        match self {
            Expr::Num(n) => Term::Num(*n),
            Expr::Bool(b) => Term::Bool(*b),
            Expr::Var(name) => Term::Var(name@),
            Expr::BinOp(l, op, r) => Term::BinOp(Box::new(l.model()), *op, Box::new(r.model())),
            Expr::Fun(name, body) => Term::Fun(name@, Box::new(body.model())),
            Expr::App(f, a) => Term::App(Box::new(f.model()), Box::new(a.model())),
            Expr::Let(name, val, body) => Term::Let(
                name@,
                Box::new(val.model()),
                Box::new(body.model()),
            ),
            Expr::LetRec(name, val, body) => Term::LetRec(
                name@,
                Box::new(val.model()),
                Box::new(body.model()),
            ),
            Expr::If(p, t, e) => Term::If(
                Box::new(p.model()),
                Box::new(t.model()),
                Box::new(e.model()),
            ),
        }
    }
}

impl View for Expr {
    type V = Term;

    open spec fn view(&self) -> Term {
        self.model()
    }
}

impl Clone for Expr {
    fn clone(&self) -> (copy: Self)
        ensures
            copy@ == self@,
        decreases self,
    {
        match self {
            Expr::Num(n) => Expr::Num(*n),
            Expr::Bool(b) => Expr::Bool(*b),
            Expr::Var(name) => Expr::Var(name.clone()),
            Expr::BinOp(l, op, r) => Expr::BinOp(
                Box::new((**l).clone()),
                *op,
                Box::new((**r).clone()),
            ),
            Expr::Fun(name, body) => Expr::Fun(name.clone(), Box::new((**body).clone())),
            Expr::App(f, a) => Expr::App(Box::new((**f).clone()), Box::new((**a).clone())),
            Expr::Let(name, val, body) => Expr::Let(
                name.clone(),
                Box::new((**val).clone()),
                Box::new((**body).clone()),
            ),
            Expr::LetRec(name, val, body) => Expr::LetRec(
                name.clone(),
                Box::new((**val).clone()),
                Box::new((**body).clone()),
            ),
            Expr::If(p, t, e) => Expr::If(
                Box::new((**p).clone()),
                Box::new((**t).clone()),
                Box::new((**e).clone()),
            ),
        }
    }
}

} // verus!

//! Hindley-Milner type inference for a small functional language, verified
//! with Verus.
//!
//! The executable code lives in [`ast`], [`infer`], [`lexer`], [`parser`],
//! [`render`] and [`vars`]. Its contracts are stated over the mathematical
//! models of [`ast`] and over the theories of the other modules:
//!
//! - [`substitution`]: substitutions and their transitive application;
//! - [`unification`]: the unifier, with the proofs that it returns a most
//!   general unifier and does not depend on the order of its arguments;
//! - [`typing`]: type schemes, instantiation, generalisation and the type
//!   that inference gives to an expression;
//! - [`rules`]: the typing rules, and the soundness of inference for
//!   expressions without `let`;
//! - [`principal`]: the completeness of inference for expressions without
//!   `let`, so that the type it gives them is a most general one;
//! - [`scope`]: where the variables of a result come from;
//! - [`reach`]: which variables a substitution leads to from which;
//! - [`soundness`]: the soundness of inference for every expression, under
//!   a substitution that keeps off the variables that inference generalises;
//! - [`hygiene`]: what a step of inference adds to the substitution, it
//!   takes from what is in use;
//! - [`upkeep`]: the good order in which inference stands with respect to
//!   the variables that it has generalised;
//! - [`upheld`]: the proof that inference keeps that order, and with it the
//!   soundness of inference for every expression;
//! - [`renumber`]: inference does not depend on where the generator
//!   starts;
//! - [`laws`]: laws of inference as a whole;
//! - [`syntax`]: the grammar, and the proof that the parser decides it;
//! - [`printing`]: the proof that the text of an expression is parsed back
//!   to the expression.

pub mod ast;
pub mod hygiene;
pub mod infer;
pub mod laws;
pub mod lexer;
pub mod parser;
pub mod principal;
pub mod printing;
pub mod reach;
pub mod render;
pub mod renumber;
pub mod rules;
pub mod scope;
pub mod soundness;
pub mod substitution;
pub mod syntax;
pub mod typing;
pub mod unification;
pub mod upheld;
pub mod upkeep;
pub mod vars;

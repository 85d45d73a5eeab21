//! The grammar of the language as a relation between tokens and
//! expressions, and the proof that the parser decides it.
//!
//! ```text
//! Expr    ::= Let
//! Let     ::= "let" Id "=" Let "in" Let | "letrec" Id "=" Let "in" Let | If
//! If      ::= "if" Let "then" Let "else" Let | Lambda
//! Lambda  ::= "fun" Id "->" Expr | Logic
//! Logic   ::= Logic ("&&" | "||") Rel | Rel
//! Rel     ::= Rel (">" | "<" | "=") Add | Add
//! Add     ::= Add ("+" | "-") Factor | Factor
//! Factor  ::= Factor ("*" | "/") App | App
//! App     ::= App Term | Term
//! Term    ::= Num | Id | "true" | "false" | "(" Expr ")"
//! ```

use crate::ast::{Op, Term};
use crate::lexer::{lemma_lex_before, lex, SyntaxFailure, Tok};
use crate::parser::{
    app_rest, bare, binary_op, binary_rest, lemma_app_advances, lemma_binary_advances,
    lemma_binary_rest_advances, lemma_if_advances, lemma_lambda_advances, lemma_let_advances,
    lemma_term_advances, op_at, parse_app, parse_binary, parse_if, parse_lambda, parse_let,
    parse_term, parse_text, parse_tokens, starts_term, tok_at, tokens_left,
};
use vstd::prelude::*;

verus! {

/// The kinds of phrases of the grammar.
pub enum Kind {
    /// `Term`
    Term,
    /// `App`
    App,
    /// A chain of operators of a level of binding strength: `Factor` at
    /// the level 1, `Add` at 2, `Rel` at 3 and `Logic` at 4.
    Chain(nat),
    /// `Lambda`
    Lambda,
    /// `If`
    If,
    /// `Let` and `Expr`
    Let,
}

/// How loosely a kind of phrase binds: a phrase of a kind is also a phrase
/// of every kind that binds more loosely.
pub open spec fn rank(kind: Kind) -> nat {
    match kind {
        Kind::Term => 0,
        Kind::App => 1,
        Kind::Chain(level) => 1 + level,
        Kind::Lambda => 6,
        Kind::If => 7,
        Kind::Let => 8,
    }
}

/// The kind of the phrases of a level of binding strength: `App` at the
/// level 0, and the chains of operators above it.
pub open spec fn kind_of(level: nat) -> Kind {
    if level == 0 {
        Kind::App
    } else {
        Kind::Chain(level)
    }
}

/// Whether `i` is a place inside the tokens `w`, behind the first token.
pub open spec fn inside(w: Seq<Tok>, i: int) -> bool {
    0 < i < w.len()
}

/// The tokens of `w` from the place `from` up to the place `to`.
pub open spec fn piece(w: Seq<Tok>, from: int, to: int) -> Seq<Tok> {
    w.subrange(from, to)
}

/// The grammar: whether the tokens `w` are a phrase of the kind that stands
/// for the expression `e`.
pub open spec fn derives(kind: Kind, w: Seq<Tok>, e: Term) -> bool
    decreases w.len(), rank(kind),
{
    match kind {
        Kind::Let => {
            ||| e matches Term::Let(x, v, b) && w.len() > 3 && w[0] == Tok::Let && w[1] == Tok::Id(
                x,
            ) && w[2] == Tok::Equal && exists|i: int|
                #[trigger] inside(w, i) && 3 <= i && w[i] == Tok::In && derives(
                    Kind::Let,
                    piece(w, 3, i),
                    *v,
                ) && derives(Kind::Let, piece(w, i + 1, w.len() as int), *b)
            ||| e matches Term::LetRec(x, v, b) && w.len() > 3 && w[0] == Tok::LetRec && w[1]
                == Tok::Id(x) && w[2] == Tok::Equal && exists|i: int|
                #[trigger] inside(w, i) && 3 <= i && w[i] == Tok::In && derives(
                    Kind::Let,
                    piece(w, 3, i),
                    *v,
                ) && derives(Kind::Let, piece(w, i + 1, w.len() as int), *b)
            ||| derives(Kind::If, w, e)
        },
        Kind::If => {
            ||| e matches Term::If(p, c, f) && w.len() > 0 && w[0] == Tok::If && exists|
                i: int,
                j: int,
            |
                #[trigger] inside(w, i) && #[trigger] inside(w, j) && i < j && w[i] == Tok::Then
                    && w[j] == Tok::Else && derives(Kind::Let, piece(w, 1, i), *p) && derives(
                    Kind::Let,
                    piece(w, i + 1, j),
                    *c,
                ) && derives(Kind::Let, piece(w, j + 1, w.len() as int), *f)
            ||| derives(Kind::Lambda, w, e)
        },
        Kind::Lambda => {
            ||| e matches Term::Fun(x, b) && w.len() > 3 && w[0] == Tok::Fun && w[1] == Tok::Id(x)
                && w[2] == Tok::Arrow && derives(Kind::Let, piece(w, 3, w.len() as int), *b)
            ||| derives(Kind::Chain(4), w, e)
        },
        Kind::Chain(level) => {
            ||| e matches Term::BinOp(l, op, r) && exists|i: int|
                #[trigger] inside(w, i) && binary_op(level, w[i]) == Some(op) && derives(
                    kind,
                    piece(w, 0, i),
                    *l,
                ) && derives(kind_of((level - 1) as nat), piece(w, i + 1, w.len() as int), *r)
            ||| level > 0 && derives(kind_of((level - 1) as nat), w, e)
        },
        Kind::App => {
            ||| e matches Term::App(f, a) && exists|i: int|
                #[trigger] inside(w, i) && derives(Kind::App, piece(w, 0, i), *f) && derives(
                    Kind::Term,
                    piece(w, i, w.len() as int),
                    *a,
                )
            ||| derives(Kind::Term, w, e)
        },
        Kind::Term => {
            ||| w.len() == 1 && match w[0] {
                Tok::Num(n) => e == Term::Num(n),
                Tok::Id(x) => e == Term::Var(x),
                Tok::True => e == Term::Bool(true),
                Tok::False => e == Term::Bool(false),
                _ => false,
            }
            ||| w.len() >= 2 && w[0] == Tok::Open && w[w.len() - 1] == Tok::Close && derives(
                Kind::Let,
                piece(w, 1, w.len() - 1),
                e,
            )
        },
    }
}

/// What the parser takes for a `Let` is one by the grammar.
pub proof fn lemma_let_sound(ts: Seq<Tok>, pos: nat)
    ensures
        parse_let(ts, pos) matches Ok((e, next)) ==> pos < next <= ts.len() && derives(
            Kind::Let,
            ts.subrange(pos as int, next as int),
            e,
        ),
    decreases tokens_left(ts, pos), 10nat,
{
    lemma_let_advances(ts, pos);
    match parse_let(ts, pos) {
        Ok((e, next)) => {
            let w = ts.subrange(pos as int, next as int);
            match tok_at(ts, pos) {
                Some(Tok::Let) | Some(Tok::LetRec) => {
                    lemma_let_advances(ts, pos + 3);
                    lemma_let_sound(ts, pos + 3);
                    let end1 = parse_let(ts, pos + 3)->Ok_0.1;
                    lemma_let_advances(ts, end1 + 1);
                    lemma_let_sound(ts, end1 + 1);
                    let i = end1 - pos;
                    assert(piece(w, 3, i) =~= ts.subrange(pos as int + 3, end1 as int));
                    assert(piece(w, i + 1, w.len() as int) =~= ts.subrange(
                        end1 as int + 1,
                        next as int,
                    ));
                    assert(inside(w, i) && w[i] == Tok::In);
                },
                _ => {
                    lemma_if_sound(ts, pos);
                },
            }
        },
        Err(_) => {},
    }
}

/// What the parser takes for an `If` is one by the grammar.
pub proof fn lemma_if_sound(ts: Seq<Tok>, pos: nat)
    ensures
        parse_if(ts, pos) matches Ok((e, next)) ==> pos < next <= ts.len() && derives(
            Kind::If,
            ts.subrange(pos as int, next as int),
            e,
        ),
    decreases tokens_left(ts, pos), 9nat,
{
    lemma_if_advances(ts, pos);
    match parse_if(ts, pos) {
        Ok((e, next)) => {
            let w = ts.subrange(pos as int, next as int);
            match tok_at(ts, pos) {
                Some(Tok::If) => {
                    lemma_let_advances(ts, pos + 1);
                    lemma_let_sound(ts, pos + 1);
                    let end1 = parse_let(ts, pos + 1)->Ok_0.1;
                    lemma_let_advances(ts, end1 + 1);
                    lemma_let_sound(ts, end1 + 1);
                    let end2 = parse_let(ts, end1 + 1)->Ok_0.1;
                    lemma_let_advances(ts, end2 + 1);
                    lemma_let_sound(ts, end2 + 1);
                    let i = end1 - pos;
                    let j = end2 - pos;
                    assert(piece(w, 1, i) =~= ts.subrange(pos as int + 1, end1 as int));
                    assert(piece(w, i + 1, j) =~= ts.subrange(end1 as int + 1, end2 as int));
                    assert(piece(w, j + 1, w.len() as int) =~= ts.subrange(
                        end2 as int + 1,
                        next as int,
                    ));
                    assert(inside(w, i) && inside(w, j) && w[i] == Tok::Then && w[j] == Tok::Else);
                },
                _ => {
                    lemma_lambda_sound(ts, pos);
                },
            }
        },
        Err(_) => {},
    }
}

/// What the parser takes for a `Lambda` is one by the grammar.
pub proof fn lemma_lambda_sound(ts: Seq<Tok>, pos: nat)
    ensures
        parse_lambda(ts, pos) matches Ok((e, next)) ==> pos < next <= ts.len() && derives(
            Kind::Lambda,
            ts.subrange(pos as int, next as int),
            e,
        ),
    decreases tokens_left(ts, pos), 8nat,
{
    lemma_lambda_advances(ts, pos);
    match parse_lambda(ts, pos) {
        Ok((e, next)) => {
            let w = ts.subrange(pos as int, next as int);
            match tok_at(ts, pos) {
                Some(Tok::Fun) => {
                    lemma_let_advances(ts, pos + 3);
                    lemma_let_sound(ts, pos + 3);
                    assert(piece(w, 3, w.len() as int) =~= ts.subrange(
                        pos as int + 3,
                        next as int,
                    ));
                },
                _ => {
                    lemma_binary_sound(ts, pos, 4);
                },
            }
        },
        Err(_) => {},
    }
}

/// What the parser takes for a phrase of a level is one by the grammar.
pub proof fn lemma_binary_sound(ts: Seq<Tok>, pos: nat, level: nat)
    ensures
        parse_binary(ts, pos, level) matches Ok((e, next)) ==> pos < next <= ts.len()
            && derives(kind_of(level), ts.subrange(pos as int, next as int), e),
    decreases tokens_left(ts, pos), 3 + level,
{
    lemma_binary_advances(ts, pos, level);
    if level == 0 {
        lemma_app_sound(ts, pos);
    } else {
        let below = (level - 1) as nat;
        lemma_binary_advances(ts, pos, below);
        lemma_binary_sound(ts, pos, below);
        match parse_binary(ts, pos, below) {
            Ok((lhs, end1)) => {
                lemma_binary_rest_sound(ts, pos, end1, level, lhs);
            },
            Err(_) => {},
        }
    }
}

/// What the parser takes for the rest of a phrase of a level makes, with
/// what it took before, a phrase by the grammar.
pub proof fn lemma_binary_rest_sound(ts: Seq<Tok>, start: nat, pos: nat, level: nat, lhs: Term)
    requires
        level > 0,
        start < pos <= ts.len(),
        derives(kind_of(level), ts.subrange(start as int, pos as int), lhs),
    ensures
        binary_rest(ts, pos, level, lhs) matches Ok((e, next)) ==> pos <= next <= ts.len()
            && derives(kind_of(level), ts.subrange(start as int, next as int), e),
    decreases tokens_left(ts, pos), 0nat,
{
    lemma_binary_rest_advances(ts, pos, level, lhs);
    match op_at(ts, pos, level) {
        Some(op) => {
            let below = (level - 1) as nat;
            lemma_binary_advances(ts, pos + 1, below);
            lemma_binary_sound(ts, pos + 1, below);
            match parse_binary(ts, pos + 1, below) {
                Ok((rhs, end1)) => {
                    let both = Term::BinOp(Box::new(lhs), op, Box::new(rhs));
                    let w = ts.subrange(start as int, end1 as int);
                    let i = pos - start;
                    assert(piece(w, 0, i) =~= ts.subrange(start as int, pos as int));
                    assert(piece(w, i + 1, w.len() as int) =~= ts.subrange(
                        pos as int + 1,
                        end1 as int,
                    ));
                    assert(inside(w, i) && binary_op(level, w[i]) == Some(op));
                    assert(derives(kind_of(level), w, both));
                    lemma_binary_rest_sound(ts, start, end1, level, both);
                },
                Err(_) => {},
            }
        },
        None => {},
    }
}

/// What the parser takes for an `App` is one by the grammar.
pub proof fn lemma_app_sound(ts: Seq<Tok>, pos: nat)
    ensures
        parse_app(ts, pos) matches Ok((e, next)) ==> pos < next <= ts.len() && derives(
            Kind::App,
            ts.subrange(pos as int, next as int),
            e,
        ),
    decreases tokens_left(ts, pos), 2nat,
{
    lemma_app_advances(ts, pos);
    lemma_term_advances(ts, pos);
    lemma_term_sound(ts, pos);
    match parse_term(ts, pos) {
        Ok((f, end1)) => {
            lemma_app_rest_sound(ts, pos, end1, f);
        },
        Err(_) => {},
    }
}

/// A function and an argument make an application.
pub proof fn lemma_app_extend(ts: Seq<Tok>, start: nat, pos: nat, end1: nat, f: Term, arg: Term)
    requires
        start < pos < end1 <= ts.len(),
        derives(Kind::App, ts.subrange(start as int, pos as int), f),
        derives(Kind::Term, ts.subrange(pos as int, end1 as int), arg),
    ensures
        derives(
            Kind::App,
            ts.subrange(start as int, end1 as int),
            Term::App(Box::new(f), Box::new(arg)),
        ),
{
    let w = ts.subrange(start as int, end1 as int);
    let i = pos - start;
    assert(piece(w, 0, i) =~= ts.subrange(start as int, pos as int));
    assert(piece(w, i, w.len() as int) =~= ts.subrange(pos as int, end1 as int));
    assert(inside(w, i));
}

/// What the parser takes for the arguments of an application makes, with
/// what it took before, an `App` by the grammar.
pub proof fn lemma_app_rest_sound(ts: Seq<Tok>, start: nat, pos: nat, f: Term)
    requires
        start < pos <= ts.len(),
        derives(Kind::App, ts.subrange(start as int, pos as int), f),
    ensures
        app_rest(ts, pos, f) matches Ok((e, next)) ==> pos <= next <= ts.len() && derives(
            Kind::App,
            ts.subrange(start as int, next as int),
            e,
        ),
    decreases tokens_left(ts, pos), 1nat,
{
    match tok_at(ts, pos) {
        Some(tok) => {
            if starts_term(tok) {
                lemma_term_advances(ts, pos);
                lemma_term_sound(ts, pos);
                match parse_term(ts, pos) {
                    Ok((arg, end1)) => {
                        lemma_app_extend(ts, start, pos, end1, f, arg);
                        lemma_app_rest_sound(
                            ts,
                            start,
                            end1,
                            Term::App(Box::new(f), Box::new(arg)),
                        );
                    },
                    Err(_) => {},
                }
            }
        },
        None => {},
    }
}

/// An expression in parentheses is a `Term`.
pub proof fn lemma_paren(ts: Seq<Tok>, pos: nat, end1: nat, e: Term)
    requires
        pos + 1 < end1 < ts.len(),
        ts[pos as int] == Tok::Open,
        ts[end1 as int] == Tok::Close,
        derives(Kind::Let, ts.subrange(pos as int + 1, end1 as int), e),
    ensures
        derives(Kind::Term, ts.subrange(pos as int, end1 as int + 1), e),
{
    let w = ts.subrange(pos as int, end1 as int + 1);
    assert(piece(w, 1, w.len() - 1) =~= ts.subrange(pos as int + 1, end1 as int));
    assert(w[0] == Tok::Open && w[w.len() - 1] == Tok::Close);
}

/// A token that stands for an expression by itself is a `Term`.
pub proof fn lemma_single(ts: Seq<Tok>, pos: nat, e: Term)
    requires
        pos < ts.len(),
        match ts[pos as int] {
            Tok::Num(n) => e == Term::Num(n),
            Tok::Id(x) => e == Term::Var(x),
            Tok::True => e == Term::Bool(true),
            Tok::False => e == Term::Bool(false),
            _ => false,
        },
    ensures
        derives(Kind::Term, ts.subrange(pos as int, pos as int + 1), e),
{
    let w = ts.subrange(pos as int, pos as int + 1);
    assert(w.len() == 1 && w[0] == ts[pos as int]);
}

/// What the parser takes for a `Term` is one by the grammar.
pub proof fn lemma_term_sound(ts: Seq<Tok>, pos: nat)
    ensures
        parse_term(ts, pos) matches Ok((e, next)) ==> pos < next <= ts.len() && derives(
            Kind::Term,
            ts.subrange(pos as int, next as int),
            e,
        ),
    decreases tokens_left(ts, pos), 0nat,
{
    match tok_at(ts, pos) {
        Some(Tok::Open) => {
            lemma_let_advances(ts, pos + 1);
            lemma_let_sound(ts, pos + 1);
            match parse_let(ts, pos + 1) {
                Ok((e, end1)) => {
                    if tok_at(ts, end1) == Some(Tok::Close) {
                        lemma_paren(ts, pos, end1, e);
                    }
                },
                Err(_) => {},
            }
        },
        Some(Tok::Num(n)) => {
            lemma_single(ts, pos, Term::Num(n));
        },
        Some(Tok::Id(x)) => {
            lemma_single(ts, pos, Term::Var(x));
        },
        Some(Tok::True) => {
            lemma_single(ts, pos, Term::Bool(true));
        },
        Some(Tok::False) => {
            lemma_single(ts, pos, Term::Bool(false));
        },
        _ => {},
    }
}

/// Whether the parser, behind a phrase of a level of binding strength,
/// looks for no further operand of a lower level at the token: the token is
/// no start of a term and no operator of a lower level, or there is none.
pub open spec fn follows(level: nat, tok: Option<Tok>) -> bool {
    match tok {
        None => true,
        Some(t) => !starts_term(t) && forall|l: nat|
            l < level ==> #[trigger] binary_op(l, t) is None,
    }
}

/// A piece of a piece of the tokens is a piece of the tokens.
pub proof fn lemma_piece(ts: Seq<Tok>, pos: int, end: int, from: int, to: int)
    requires
        0 <= pos <= end <= ts.len(),
        0 <= from <= to <= end - pos,
    ensures
        piece(ts.subrange(pos, end), from, to) == ts.subrange(pos + from, pos + to),
{
    assert(piece(ts.subrange(pos, end), from, to) =~= ts.subrange(pos + from, pos + to));
}

/// A token is an operator of one level at most, and no operator starts a
/// term.
pub proof fn lemma_operator(level: nat, tok: Tok)
    requires
        binary_op(level, tok) is Some,
    ensures
        follows(level, Some(tok)),
{
}

/// A phrase has a first token: the start of a term, or the keyword of its
/// kind or of a kind that binds more tightly.
pub proof fn lemma_first(kind: Kind, w: Seq<Tok>, e: Term)
    requires
        derives(kind, w, e),
    ensures
        w.len() > 0,
        starts_term(w[0]) || (rank(kind) >= 6 && w[0] == Tok::Fun) || (rank(kind) >= 7 && w[0]
            == Tok::If) || (rank(kind) >= 8 && (w[0] == Tok::Let || w[0] == Tok::LetRec)),
    decreases w.len(), rank(kind),
{
    match kind {
        Kind::Let => {
            if derives(Kind::If, w, e) {
                lemma_first(Kind::If, w, e);
            }
        },
        Kind::If => {
            if derives(Kind::Lambda, w, e) {
                lemma_first(Kind::Lambda, w, e);
            }
        },
        Kind::Lambda => {
            if derives(Kind::Chain(4), w, e) {
                lemma_first(Kind::Chain(4), w, e);
            }
        },
        Kind::Chain(level) => {
            if level > 0 && derives(kind_of((level - 1) as nat), w, e) {
                lemma_first(kind_of((level - 1) as nat), w, e);
            } else {
                let i = choose|i: int|
                    #[trigger] inside(w, i) && binary_op(level, w[i]) == Some(e->BinOp_1)
                        && derives(kind, piece(w, 0, i), *e->BinOp_0) && derives(
                        kind_of((level - 1) as nat),
                        piece(w, i + 1, w.len() as int),
                        *e->BinOp_2,
                    );
                lemma_first(kind, piece(w, 0, i), *e->BinOp_0);
            }
        },
        Kind::App => {
            if derives(Kind::Term, w, e) {
                lemma_first(Kind::Term, w, e);
            } else {
                let i = choose|i: int|
                    #[trigger] inside(w, i) && derives(Kind::App, piece(w, 0, i), *e->App_0)
                        && derives(Kind::Term, piece(w, i, w.len() as int), *e->App_1);
                lemma_first(Kind::App, piece(w, 0, i), *e->App_0);
            }
        },
        Kind::Term => {},
    }
}

/// Behind a phrase that no operator of its level follows, the parser looks
/// for no further operand.
pub proof fn lemma_rest_stops(ts: Seq<Tok>, end: nat, level: nat, e: Term)
    requires
        follows(level + 1, tok_at(ts, end)),
    ensures
        binary_rest(ts, end, level, e) == Ok::<(Term, nat), nat>((e, end)),
{
    if level > 0 {
        match tok_at(ts, end) {
            Some(t) => {
                assert(binary_op(level, t) is None);
            },
            None => {},
        }
    }
}

/// The parser takes every `Term` of the grammar for what it stands for.
pub proof fn lemma_term_complete(ts: Seq<Tok>, pos: nat, end: nat, e: Term)
    requires
        pos <= end <= ts.len(),
        derives(Kind::Term, ts.subrange(pos as int, end as int), e),
    ensures
        parse_term(ts, pos) == Ok::<(Term, nat), nat>((e, end)),
    decreases end - pos, 0nat,
{
    let w = ts.subrange(pos as int, end as int);
    if w.len() == 1 {
        assert(w[0] == ts[pos as int]);
    } else {
        assert(w[0] == ts[pos as int]);
        assert(w[w.len() - 1] == ts[end - 1]);
        lemma_piece(ts, pos as int, end as int, 1, w.len() - 1);
        lemma_let_complete(ts, pos + 1, (end - 1) as nat, e);
    }
}

/// How the parser starts on an `App`: with a `Term`, the function.
pub proof fn lemma_app_starts(ts: Seq<Tok>, pos: nat, end: nat, f: Term)
    requires
        pos < end,
        parse_term(ts, pos) == Ok::<(Term, nat), nat>((f, end)),
    ensures
        parse_app(ts, pos) == app_rest(ts, end, f),
{
}

/// How the parser goes on behind a function: with a `Term`, the argument,
/// where a token stands that starts one.
pub proof fn lemma_app_goes_on(ts: Seq<Tok>, pos: nat, end: nat, f: Term, arg: Term)
    requires
        pos < end,
        pos < ts.len(),
        starts_term(ts[pos as int]),
        parse_term(ts, pos) == Ok::<(Term, nat), nat>((arg, end)),
    ensures
        app_rest(ts, pos, f) == app_rest(ts, end, Term::App(Box::new(f), Box::new(arg))),
{
}

/// Where a function and an argument make a phrase, the second starts
/// behind the first.
pub proof fn lemma_app_parts(ts: Seq<Tok>, pos: nat, end: nat, e: Term) -> (mid: nat)
    requires
        pos <= end <= ts.len(),
        derives(Kind::App, ts.subrange(pos as int, end as int), e),
        !derives(Kind::Term, ts.subrange(pos as int, end as int), e),
    ensures
        e is App,
        pos < mid < end,
        derives(Kind::App, ts.subrange(pos as int, mid as int), *e->App_0),
        derives(Kind::Term, ts.subrange(mid as int, end as int), *e->App_1),
{
    let w = ts.subrange(pos as int, end as int);
    let i = choose|i: int|
        #[trigger] inside(w, i) && derives(Kind::App, piece(w, 0, i), *e->App_0) && derives(
            Kind::Term,
            piece(w, i, w.len() as int),
            *e->App_1,
        );
    lemma_piece(ts, pos as int, end as int, 0, i);
    lemma_piece(ts, pos as int, end as int, i, w.len() as int);
    (pos + i) as nat
}

/// The first token of a phrase that is a piece of the tokens.
pub proof fn lemma_first_at(kind: Kind, ts: Seq<Tok>, pos: nat, end: nat, e: Term)
    requires
        pos <= end <= ts.len(),
        derives(kind, ts.subrange(pos as int, end as int), e),
    ensures
        pos < end,
        starts_term(ts[pos as int]) || (rank(kind) >= 6 && ts[pos as int] == Tok::Fun) || (rank(
            kind,
        ) >= 7 && ts[pos as int] == Tok::If) || (rank(kind) >= 8 && (ts[pos as int] == Tok::Let
            || ts[pos as int] == Tok::LetRec)),
{
    let w = ts.subrange(pos as int, end as int);
    lemma_first(kind, w, e);
    assert(w[0] == ts[pos as int]);
}

/// The parser, behind an `App` of the grammar, has it as the function and
/// goes on to look for arguments.
pub proof fn lemma_app_complete(ts: Seq<Tok>, pos: nat, end: nat, e: Term)
    requires
        pos <= end <= ts.len(),
        derives(Kind::App, ts.subrange(pos as int, end as int), e),
    ensures
        pos < end,
        parse_app(ts, pos) == app_rest(ts, end, e),
    decreases end - pos, 1nat,
{
    lemma_first_at(Kind::App, ts, pos, end, e);
    if derives(Kind::Term, ts.subrange(pos as int, end as int), e) {
        lemma_term_complete(ts, pos, end, e);
        lemma_app_starts(ts, pos, end, e);
    } else {
        let mid = lemma_app_parts(ts, pos, end, e);
        lemma_app_complete(ts, pos, mid, *e->App_0);
        lemma_first_at(Kind::Term, ts, mid, end, *e->App_1);
        lemma_term_complete(ts, mid, end, *e->App_1);
        lemma_app_goes_on(ts, mid, end, *e->App_0, *e->App_1);
    }
}

/// How the parser starts on a chain of a level: with a phrase of the
/// level below, the left operand.
pub proof fn lemma_chain_starts(ts: Seq<Tok>, pos: nat, end: nat, level: nat, lhs: Term)
    requires
        level > 0,
        pos < end,
        parse_binary(ts, pos, (level - 1) as nat) == Ok::<(Term, nat), nat>((lhs, end)),
    ensures
        parse_binary(ts, pos, level) == binary_rest(ts, end, level, lhs),
{
}

/// How the parser goes on behind a left operand: with a phrase of the level
/// below, the right operand, where an operator of the level stands.
pub proof fn lemma_chain_goes_on(
    ts: Seq<Tok>,
    pos: nat,
    end: nat,
    level: nat,
    lhs: Term,
    op: Op,
    rhs: Term,
)
    requires
        level > 0,
        pos < end,
        pos < ts.len(),
        binary_op(level, ts[pos as int]) == Some(op),
        parse_binary(ts, pos + 1, (level - 1) as nat) == Ok::<(Term, nat), nat>((rhs, end)),
    ensures
        binary_rest(ts, pos, level, lhs) == binary_rest(
            ts,
            end,
            level,
            Term::BinOp(Box::new(lhs), op, Box::new(rhs)),
        ),
{
}

/// Where two operands and an operator make a phrase, the operator stands
/// between the operands.
pub proof fn lemma_chain_parts(ts: Seq<Tok>, pos: nat, end: nat, level: nat, e: Term) -> (mid:
    nat)
    requires
        level > 0,
        pos <= end <= ts.len(),
        derives(Kind::Chain(level), ts.subrange(pos as int, end as int), e),
        !derives(kind_of((level - 1) as nat), ts.subrange(pos as int, end as int), e),
    ensures
        e is BinOp,
        pos < mid < end,
        binary_op(level, ts[mid as int]) == Some(e->BinOp_1),
        derives(Kind::Chain(level), ts.subrange(pos as int, mid as int), *e->BinOp_0),
        derives(kind_of((level - 1) as nat), ts.subrange(mid as int + 1, end as int), *e->BinOp_2),
{
    let w = ts.subrange(pos as int, end as int);
    let i = choose|i: int|
        #[trigger] inside(w, i) && binary_op(level, w[i]) == Some(e->BinOp_1) && derives(
            Kind::Chain(level),
            piece(w, 0, i),
            *e->BinOp_0,
        ) && derives(kind_of((level - 1) as nat), piece(w, i + 1, w.len() as int), *e->BinOp_2);
    assert(w[i] == ts[pos + i]);
    lemma_piece(ts, pos as int, end as int, 0, i);
    lemma_piece(ts, pos as int, end as int, i + 1, w.len() as int);
    (pos + i) as nat
}

/// The parser, behind a phrase of a level of the grammar that no operand
/// of a lower level follows, has it as the left operand and goes on to look
/// for operators of the level.
pub proof fn lemma_chain_complete(ts: Seq<Tok>, pos: nat, end: nat, level: nat, e: Term)
    requires
        pos <= end <= ts.len(),
        derives(kind_of(level), ts.subrange(pos as int, end as int), e),
        follows(level, tok_at(ts, end)),
    ensures
        pos < end,
        parse_binary(ts, pos, level) == binary_rest(ts, end, level, e),
    decreases end - pos, 2 + level,
{
    lemma_first_at(kind_of(level), ts, pos, end, e);
    if level == 0 {
        lemma_app_complete(ts, pos, end, e);
    } else {
        let below = (level - 1) as nat;
        if derives(kind_of(below), ts.subrange(pos as int, end as int), e) {
            lemma_chain_complete(ts, pos, end, below, e);
            lemma_rest_stops(ts, end, below, e);
            lemma_chain_starts(ts, pos, end, level, e);
        } else {
            let mid = lemma_chain_parts(ts, pos, end, level, e);
            lemma_operator(level, ts[mid as int]);
            lemma_chain_complete(ts, pos, mid, level, *e->BinOp_0);
            lemma_chain_complete(ts, mid + 1, end, below, *e->BinOp_2);
            lemma_rest_stops(ts, end, below, *e->BinOp_2);
            lemma_chain_goes_on(ts, mid, end, level, *e->BinOp_0, e->BinOp_1, *e->BinOp_2);
        }
    }
}

/// The parser takes every `Lambda` of the grammar that neither an operand
/// nor an operator follows for what it stands for.
pub proof fn lemma_lambda_complete(ts: Seq<Tok>, pos: nat, end: nat, e: Term)
    requires
        pos <= end <= ts.len(),
        derives(Kind::Lambda, ts.subrange(pos as int, end as int), e),
        follows(5, tok_at(ts, end)),
    ensures
        parse_lambda(ts, pos) == Ok::<(Term, nat), nat>((e, end)),
    decreases end - pos, 7nat,
{
    let w = ts.subrange(pos as int, end as int);
    if derives(Kind::Chain(4), w, e) {
        lemma_first(Kind::Chain(4), w, e);
        assert(w[0] == ts[pos as int]);
        lemma_chain_complete(ts, pos, end, 4, e);
        lemma_rest_stops(ts, end, 4, e);
    } else {
        assert(w[0] == ts[pos as int] && w[1] == ts[pos as int + 1] && w[2] == ts[pos as int + 2]);
        lemma_piece(ts, pos as int, end as int, 3, w.len() as int);
        lemma_let_complete(ts, pos + 3, end, *e->Fun_1);
    }
}

/// The parser takes every `If` of the grammar that neither an operand nor
/// an operator follows for what it stands for.
pub proof fn lemma_if_complete(ts: Seq<Tok>, pos: nat, end: nat, e: Term)
    requires
        pos <= end <= ts.len(),
        derives(Kind::If, ts.subrange(pos as int, end as int), e),
        follows(5, tok_at(ts, end)),
    ensures
        parse_if(ts, pos) == Ok::<(Term, nat), nat>((e, end)),
    decreases end - pos, 8nat,
{
    let w = ts.subrange(pos as int, end as int);
    if derives(Kind::Lambda, w, e) {
        lemma_first(Kind::Lambda, w, e);
        assert(w[0] == ts[pos as int]);
        lemma_lambda_complete(ts, pos, end, e);
    } else {
        let p = *e->If_0;
        let c = *e->If_1;
        let f = *e->If_2;
        let (i, j) = choose|i: int, j: int|
            #[trigger] inside(w, i) && #[trigger] inside(w, j) && i < j && w[i] == Tok::Then
                && w[j] == Tok::Else && derives(Kind::Let, piece(w, 1, i), p) && derives(
                Kind::Let,
                piece(w, i + 1, j),
                c,
            ) && derives(Kind::Let, piece(w, j + 1, w.len() as int), f);
        let then_at = (pos + i) as nat;
        let else_at = (pos + j) as nat;
        assert(w[0] == ts[pos as int] && w[i] == ts[then_at as int] && w[j] == ts[else_at as int]);
        lemma_piece(ts, pos as int, end as int, 1, i);
        lemma_piece(ts, pos as int, end as int, i + 1, j);
        lemma_piece(ts, pos as int, end as int, j + 1, w.len() as int);
        lemma_first(Kind::Let, ts.subrange(pos as int + 1, then_at as int), p);
        lemma_first(Kind::Let, ts.subrange(then_at as int + 1, else_at as int), c);
        lemma_let_complete(ts, pos + 1, then_at, p);
        lemma_let_complete(ts, then_at + 1, else_at, c);
        lemma_let_complete(ts, else_at + 1, end, f);
    }
}

/// The parser takes every `Let` of the grammar that neither an operand nor
/// an operator follows for what it stands for.
pub proof fn lemma_let_complete(ts: Seq<Tok>, pos: nat, end: nat, e: Term)
    requires
        pos <= end <= ts.len(),
        derives(Kind::Let, ts.subrange(pos as int, end as int), e),
        follows(5, tok_at(ts, end)),
    ensures
        parse_let(ts, pos) == Ok::<(Term, nat), nat>((e, end)),
    decreases end - pos, 9nat,
{
    let w = ts.subrange(pos as int, end as int);
    if derives(Kind::If, w, e) {
        lemma_first(Kind::If, w, e);
        assert(w[0] == ts[pos as int]);
        lemma_if_complete(ts, pos, end, e);
    } else {
        let (v, b) = if e is Let {
            (*e->Let_1, *e->Let_2)
        } else {
            (*e->LetRec_1, *e->LetRec_2)
        };
        let i = choose|i: int|
            #[trigger] inside(w, i) && 3 <= i && w[i] == Tok::In && derives(
                Kind::Let,
                piece(w, 3, i),
                v,
            ) && derives(Kind::Let, piece(w, i + 1, w.len() as int), b);
        let in_at = (pos + i) as nat;
        assert(w[0] == ts[pos as int] && w[1] == ts[pos as int + 1] && w[2] == ts[pos as int + 2]);
        assert(w[i] == ts[in_at as int]);
        lemma_piece(ts, pos as int, end as int, 3, i);
        lemma_piece(ts, pos as int, end as int, i + 1, w.len() as int);
        lemma_first(Kind::Let, ts.subrange(pos as int + 3, in_at as int), v);
        lemma_let_complete(ts, pos + 3, in_at, v);
        lemma_let_complete(ts, in_at + 1, end, b);
    }
}

/// The parser decides the grammar: it takes the tokens for an expression
/// if and only if they are, as a whole, an `Expr` of the grammar that
/// stands for that expression.
pub proof fn lemma_parser_decides(ts: Seq<Tok>, e: Term)
    ensures
        parse_tokens(ts) == Ok::<Term, nat>(e) <==> derives(Kind::Let, ts, e),
{
    assert(ts.subrange(0, ts.len() as int) =~= ts);
    if derives(Kind::Let, ts, e) {
        lemma_let_complete(ts, 0, ts.len(), e);
    }
    if parse_tokens(ts) == Ok::<Term, nat>(e) {
        lemma_let_sound(ts, 0);
        lemma_let_advances(ts, 0);
    }
}

/// The grammar is unambiguous: tokens stand for one expression at most.
pub proof fn lemma_unambiguous(ts: Seq<Tok>, e1: Term, e2: Term)
    requires
        derives(Kind::Let, ts, e1),
        derives(Kind::Let, ts, e2),
    ensures
        e1 == e2,
{
    lemma_parser_decides(ts, e1);
    lemma_parser_decides(ts, e2);
}

/// Whether a text stands for the expression `e`: its tokens are, as a
/// whole, an `Expr` of the grammar that stands for `e`.
pub open spec fn grammatical(text: Seq<char>, e: Term) -> bool {
    lex(text, 0) matches Ok(tokens) && derives(Kind::Let, bare(tokens), e)
}

/// A text is parsed to an expression if and only if it stands for that
/// expression by the grammar.
pub proof fn lemma_parse_text_decides(text: Seq<char>, e: Term)
    ensures
        parse_text(text) == Ok::<Term, SyntaxFailure>(e) <==> grammatical(text, e),
{
    lemma_lex_before(text, 0);
    match lex(text, 0) {
        Ok(tokens) => {
            lemma_parser_decides(bare(tokens), e);
        },
        Err(_) => {},
    }
}

} // verus!

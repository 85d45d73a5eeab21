//! The parser: from the tokens of a text to the expression that the grammar
//! assigns to them.
//!
//! ```text
//! Expr    ::= Let
//! Let     ::= "let" Id "=" Let "in" Let | "letrec" Id "=" Let "in" Let | If
//! If      ::= "if" Let "then" Let "else" Let | Lambda
//! Lambda  ::= "fun" Id "->" Expr | Logic
//! Logic   ::= Logic ("&&" | "||") Rel | Rel
//! Rel     ::= Rel (">" | "<" | "=") Add | Add
//! Add     ::= Add ("+" | "-") Factor | Factor
//! Factor  ::= Factor ("*" | "/") App | App
//! App     ::= App Term | Term
//! Term    ::= Num | Id | "true" | "false" | "(" Expr ")"
//! ```

use crate::ast::{Expr, Op, Term};
use crate::lexer::{
    in_bytes, lex_before, lex_failure, offset, placed, ParseError, SyntaxFailure, Tok, Token,
    tokenize, tokens_view,
};
use crate::syntax::{grammatical, lemma_parse_text_decides};
use vstd::prelude::*;

verus! {

/// The token at the place `pos`, if there is one.
pub open spec fn tok_at(ts: Seq<Tok>, pos: nat) -> Option<Tok> {
    if pos < ts.len() {
        Some(ts[pos as int])
    } else {
        None
    }
}

/// The number of tokens from the place `pos` on.
pub open spec fn tokens_left(ts: Seq<Tok>, pos: nat) -> nat {
    if pos < ts.len() {
        (ts.len() - pos) as nat
    } else {
        0
    }
}

/// A result of parsing, kept only if it ends behind the place `from`. It
/// always does (`lemma_parse_advances`): a phrase has at least one token.
pub open spec fn advanced(from: nat, r: Result<(Term, nat), nat>) -> Result<(Term, nat), nat> {
    match r {
        Ok((_, next)) => if next > from {
            r
        } else {
            Err(from)
        },
        Err(_) => r,
    }
}

/// The operator that a token stands for at a level of binding strength:
/// 4 for `&&` and `||`, 3 for the comparisons, 2 for `+` and `-`, 1 for `*`
/// and `/`.
pub open spec fn binary_op(level: nat, tok: Tok) -> Option<Op> {
    if level == 4 {
        match tok {
            Tok::And => Some(Op::And),
            Tok::Or => Some(Op::Or),
            _ => None,
        }
    } else if level == 3 {
        match tok {
            Tok::Greater => Some(Op::Gt),
            Tok::Less => Some(Op::Lt),
            Tok::Equal => Some(Op::Equal),
            _ => None,
        }
    } else if level == 2 {
        match tok {
            Tok::Plus => Some(Op::Add),
            Tok::Minus => Some(Op::Sub),
            _ => None,
        }
    } else if level == 1 {
        match tok {
            Tok::Star => Some(Op::Mul),
            Tok::Slash => Some(Op::Div),
            _ => None,
        }
    } else {
        None
    }
}

/// Whether a `Term` of the grammar can start with the token.
pub open spec fn starts_term(tok: Tok) -> bool {
    tok is Num || tok is Id || tok is True || tok is False || tok is Open
}

/// The operator at the place `pos`, if a token stands there that is an
/// operator of the level.
pub open spec fn op_at(ts: Seq<Tok>, pos: nat, level: nat) -> Option<Op> {
    match tok_at(ts, pos) {
        Some(tok) => binary_op(level, tok),
        None => None,
    }
}

/// The `Let` of the grammar that starts at the place `pos`, with the place
/// behind it; or the place of the token that cannot stand where it is.
pub open spec fn parse_let(ts: Seq<Tok>, pos: nat) -> Result<(Term, nat), nat>
    decreases tokens_left(ts, pos), 10nat,
{
    match tok_at(ts, pos) {
        Some(Tok::Let) | Some(Tok::LetRec) => match tok_at(ts, pos + 1) {
            Some(Tok::Id(x)) => if tok_at(ts, pos + 2) == Some(Tok::Equal) {
                match advanced(pos, parse_let(ts, pos + 3)) {
                    Ok((val, end1)) => if tok_at(ts, end1) == Some(Tok::In) {
                        match parse_let(ts, end1 + 1) {
                            Ok((body, end2)) => Ok(
                                (
                                    if tok_at(ts, pos) == Some(Tok::Let) {
                                        Term::Let(x, Box::new(val), Box::new(body))
                                    } else {
                                        Term::LetRec(x, Box::new(val), Box::new(body))
                                    },
                                    end2,
                                ),
                            ),
                            Err(at) => Err(at),
                        }
                    } else {
                        Err(end1)
                    },
                    Err(at) => Err(at),
                }
            } else {
                Err(pos + 2)
            },
            _ => Err(pos + 1),
        },
        _ => parse_if(ts, pos),
    }
}

/// The `If` of the grammar that starts at the place `pos`.
pub open spec fn parse_if(ts: Seq<Tok>, pos: nat) -> Result<(Term, nat), nat>
    decreases tokens_left(ts, pos), 9nat,
{
    match tok_at(ts, pos) {
        Some(Tok::If) => match advanced(pos, parse_let(ts, pos + 1)) {
            Ok((cond, end1)) => if tok_at(ts, end1) == Some(Tok::Then) {
                match advanced(pos, parse_let(ts, end1 + 1)) {
                    Ok((first, end2)) => if tok_at(ts, end2) == Some(Tok::Else) {
                        match parse_let(ts, end2 + 1) {
                            Ok((second, end3)) => Ok(
                                (Term::If(Box::new(cond), Box::new(first), Box::new(second)), end3),
                            ),
                            Err(at) => Err(at),
                        }
                    } else {
                        Err(end2)
                    },
                    Err(at) => Err(at),
                }
            } else {
                Err(end1)
            },
            Err(at) => Err(at),
        },
        _ => parse_lambda(ts, pos),
    }
}

/// The `Lambda` of the grammar that starts at the place `pos`.
pub open spec fn parse_lambda(ts: Seq<Tok>, pos: nat) -> Result<(Term, nat), nat>
    decreases tokens_left(ts, pos), 8nat,
{
    match tok_at(ts, pos) {
        Some(Tok::Fun) => match tok_at(ts, pos + 1) {
            Some(Tok::Id(x)) => if tok_at(ts, pos + 2) == Some(Tok::Arrow) {
                match parse_let(ts, pos + 3) {
                    Ok((body, end1)) => Ok((Term::Fun(x, Box::new(body)), end1)),
                    Err(at) => Err(at),
                }
            } else {
                Err(pos + 2)
            },
            _ => Err(pos + 1),
        },
        _ => parse_binary(ts, pos, 4),
    }
}

/// The chain of operands and operators of a level of binding strength that
/// starts at the place `pos`; at the level 0, the `App` of the grammar.
pub open spec fn parse_binary(ts: Seq<Tok>, pos: nat, level: nat) -> Result<(Term, nat), nat>
    decreases tokens_left(ts, pos), 3 + level,
{
    if level == 0 {
        parse_app(ts, pos)
    } else {
        match advanced(pos, parse_binary(ts, pos, (level - 1) as nat)) {
            Ok((lhs, end1)) => binary_rest(ts, end1, level, lhs),
            Err(at) => Err(at),
        }
    }
}

/// What follows the operand `lhs` in a chain of a level: an operator of the
/// level with its right operand, any number of times; the operators group to
/// the left.
pub open spec fn binary_rest(ts: Seq<Tok>, pos: nat, level: nat, lhs: Term) -> Result<
    (Term, nat),
    nat,
>
    decreases tokens_left(ts, pos), 0nat,
{
    if level == 0 {
        Ok((lhs, pos))
    } else {
        match op_at(ts, pos, level) {
            Some(op) => match advanced(pos, parse_binary(ts, pos + 1, (level - 1) as nat)) {
                Ok((rhs, end1)) => binary_rest(
                    ts,
                    end1,
                    level,
                    Term::BinOp(Box::new(lhs), op, Box::new(rhs)),
                ),
                Err(at) => Err(at),
            },
            None => Ok((lhs, pos)),
        }
    }
}

/// The `App` of the grammar that starts at the place `pos`.
pub open spec fn parse_app(ts: Seq<Tok>, pos: nat) -> Result<(Term, nat), nat>
    decreases tokens_left(ts, pos), 2nat,
{
    match advanced(pos, parse_term(ts, pos)) {
        Ok((f, end1)) => app_rest(ts, end1, f),
        Err(at) => Err(at),
    }
}

/// What follows the function `f` in an application: any number of
/// arguments, which group to the left.
pub open spec fn app_rest(ts: Seq<Tok>, pos: nat, f: Term) -> Result<(Term, nat), nat>
    decreases tokens_left(ts, pos), 1nat,
{
    match tok_at(ts, pos) {
        Some(tok) => if starts_term(tok) {
            match advanced(pos, parse_term(ts, pos)) {
                Ok((arg, end1)) => app_rest(ts, end1, Term::App(Box::new(f), Box::new(arg))),
                Err(at) => Err(at),
            }
        } else {
            Ok((f, pos))
        },
        None => Ok((f, pos)),
    }
}

/// The `Term` of the grammar that starts at the place `pos`.
pub open spec fn parse_term(ts: Seq<Tok>, pos: nat) -> Result<(Term, nat), nat>
    decreases tokens_left(ts, pos), 0nat,
{
    match tok_at(ts, pos) {
        Some(Tok::Num(n)) => Ok((Term::Num(n), pos + 1)),
        Some(Tok::Id(x)) => Ok((Term::Var(x), pos + 1)),
        Some(Tok::True) => Ok((Term::Bool(true), pos + 1)),
        Some(Tok::False) => Ok((Term::Bool(false), pos + 1)),
        Some(Tok::Open) => match parse_let(ts, pos + 1) {
            Ok((e, end1)) => if tok_at(ts, end1) == Some(Tok::Close) {
                Ok((e, end1 + 1))
            } else {
                Err(end1)
            },
            Err(at) => Err(at),
        },
        _ => Err(pos),
    }
}

/// The expression that the tokens stand for as a whole, or the place of the
/// token that cannot stand where it is (the number of tokens, where more
/// were expected).
pub open spec fn parse_tokens(ts: Seq<Tok>) -> Result<Term, nat> {
    match parse_let(ts, 0) {
        Ok((e, next)) => if next >= ts.len() {
            Ok(e)
        } else {
            Err(next)
        },
        Err(at) => Err(at),
    }
}

/// The tokens without their places.
pub open spec fn bare(tokens: Seq<(Tok, nat)>) -> Seq<Tok> {
    Seq::new(tokens.len(), |i: int| tokens[i].0)
}

/// What the end of the tokens comes to, where the parser has come to it:
/// what keeps the rest of the text from being tokens, if anything does,
/// with its place counted in bytes; otherwise `otherwise`.
pub open spec fn at_end(text: Seq<char>, otherwise: Result<Term, SyntaxFailure>) -> Result<
    Term,
    SyntaxFailure,
> {
    match lex_failure(text, 0) {
        Some(f) => Err(in_bytes(text, f)),
        None => otherwise,
    }
}

/// The expression that a text stands for, or its first syntax error, with
/// its place counted in bytes. The text is read token by token: a token
/// that cannot stand where it is comes before what follows it in the text,
/// be that a place where no token starts or a number that is too large.
pub open spec fn parse_text(text: Seq<char>) -> Result<Term, SyntaxFailure> {
    let tokens = lex_before(text, 0);
    match parse_tokens(bare(tokens)) {
        Ok(e) => at_end(text, Ok(e)),
        Err(at) => if at < tokens.len() {
            Err(SyntaxFailure::UnrecognizedToken { location: offset(text, tokens[at as int].1) })
        } else {
            at_end(text, Err(SyntaxFailure::UnexpectedEnd))
        },
    }
}

/// Whether a result of parsing ends behind the place `pos`, within the
/// tokens.
pub open spec fn ends_behind(r: Result<(Term, nat), nat>, pos: nat, len: nat) -> bool {
    r matches Ok((_, next)) ==> pos < next <= len
}

/// Whether a result of parsing ends at the place `pos` or behind it, within
/// the tokens.
pub open spec fn ends_from(r: Result<(Term, nat), nat>, pos: nat, len: nat) -> bool {
    r matches Ok((_, next)) ==> pos <= next <= len
}

/// A `Let` has at least one token and ends within the tokens.
pub proof fn lemma_let_advances(ts: Seq<Tok>, pos: nat)
    ensures
        ends_behind(parse_let(ts, pos), pos, ts.len()),
    decreases tokens_left(ts, pos), 10nat,
{
    match tok_at(ts, pos) {
        Some(Tok::Let) | Some(Tok::LetRec) => {
            lemma_let_advances(ts, pos + 3);
            match advanced(pos, parse_let(ts, pos + 3)) {
                Ok((_, end1)) => {
                    lemma_let_advances(ts, end1 + 1);
                },
                Err(_) => {},
            }
        },
        _ => {
            lemma_if_advances(ts, pos);
        },
    }
}

/// An `If` has at least one token and ends within the tokens.
pub proof fn lemma_if_advances(ts: Seq<Tok>, pos: nat)
    ensures
        ends_behind(parse_if(ts, pos), pos, ts.len()),
    decreases tokens_left(ts, pos), 9nat,
{
    match tok_at(ts, pos) {
        Some(Tok::If) => {
            lemma_let_advances(ts, pos + 1);
            match advanced(pos, parse_let(ts, pos + 1)) {
                Ok((_, end1)) => {
                    lemma_let_advances(ts, end1 + 1);
                    match advanced(pos, parse_let(ts, end1 + 1)) {
                        Ok((_, end2)) => {
                            lemma_let_advances(ts, end2 + 1);
                        },
                        Err(_) => {},
                    }
                },
                Err(_) => {},
            }
        },
        _ => {
            lemma_lambda_advances(ts, pos);
        },
    }
}

/// A `Lambda` has at least one token and ends within the tokens.
pub proof fn lemma_lambda_advances(ts: Seq<Tok>, pos: nat)
    ensures
        ends_behind(parse_lambda(ts, pos), pos, ts.len()),
    decreases tokens_left(ts, pos), 8nat,
{
    match tok_at(ts, pos) {
        Some(Tok::Fun) => {
            lemma_let_advances(ts, pos + 3);
        },
        _ => {
            lemma_binary_advances(ts, pos, 4);
        },
    }
}

/// A chain of operands has at least one token and ends within the tokens.
pub proof fn lemma_binary_advances(ts: Seq<Tok>, pos: nat, level: nat)
    ensures
        ends_behind(parse_binary(ts, pos, level), pos, ts.len()),
    decreases tokens_left(ts, pos), 3 + level,
{
    if level == 0 {
        lemma_app_advances(ts, pos);
    } else {
        lemma_binary_advances(ts, pos, (level - 1) as nat);
        match advanced(pos, parse_binary(ts, pos, (level - 1) as nat)) {
            Ok((lhs, end1)) => {
                lemma_binary_rest_advances(ts, end1, level, lhs);
            },
            Err(_) => {},
        }
    }
}

/// What follows an operand ends within the tokens.
pub proof fn lemma_binary_rest_advances(ts: Seq<Tok>, pos: nat, level: nat, lhs: Term)
    requires
        pos <= ts.len(),
    ensures
        ends_from(binary_rest(ts, pos, level, lhs), pos, ts.len()),
    decreases tokens_left(ts, pos), 0nat,
{
    if level != 0 {
        match op_at(ts, pos, level) {
            Some(op) => {
                lemma_binary_advances(ts, pos + 1, (level - 1) as nat);
                match advanced(pos, parse_binary(ts, pos + 1, (level - 1) as nat)) {
                    Ok((rhs, end1)) => {
                        lemma_binary_rest_advances(
                            ts,
                            end1,
                            level,
                            Term::BinOp(Box::new(lhs), op, Box::new(rhs)),
                        );
                    },
                    Err(_) => {},
                }
            },
            None => {},
        }
    }
}

/// An `App` has at least one token and ends within the tokens.
pub proof fn lemma_app_advances(ts: Seq<Tok>, pos: nat)
    ensures
        ends_behind(parse_app(ts, pos), pos, ts.len()),
    decreases tokens_left(ts, pos), 2nat,
{
    lemma_term_advances(ts, pos);
    match advanced(pos, parse_term(ts, pos)) {
        Ok((f, end1)) => {
            lemma_app_rest_advances(ts, end1, f);
        },
        Err(_) => {},
    }
}

/// The arguments of an application end within the tokens.
pub proof fn lemma_app_rest_advances(ts: Seq<Tok>, pos: nat, f: Term)
    requires
        pos <= ts.len(),
    ensures
        ends_from(app_rest(ts, pos, f), pos, ts.len()),
    decreases tokens_left(ts, pos), 1nat,
{
    match tok_at(ts, pos) {
        Some(tok) => {
            if starts_term(tok) {
                lemma_term_advances(ts, pos);
                match advanced(pos, parse_term(ts, pos)) {
                    Ok((arg, end1)) => {
                        lemma_app_rest_advances(ts, end1, Term::App(Box::new(f), Box::new(arg)));
                    },
                    Err(_) => {},
                }
            }
        },
        None => {},
    }
}

/// A `Term` has at least one token and ends within the tokens.
pub proof fn lemma_term_advances(ts: Seq<Tok>, pos: nat)
    ensures
        ends_behind(parse_term(ts, pos), pos, ts.len()),
    decreases tokens_left(ts, pos), 0nat,
{
    if tok_at(ts, pos) == Some(Tok::Open) {
        lemma_let_advances(ts, pos + 1);
    }
}

/// The tokens that a list of tokens with their places stands for.
pub open spec fn toks(tokens: Seq<(Token, usize)>) -> Seq<Tok> {
    Seq::new(tokens.len(), |i: int| tokens[i].0@)
}

/// Whether a result of the parser is the one that the grammar gives.
pub open spec fn parsed(r: Result<(Box<Expr>, usize), usize>, model: Result<(Term, nat), nat>)
    -> bool {
    match model {
        Ok((e, next)) => r matches Ok((found, p)) && found@ == e && p == next,
        Err(at) => r matches Err(i) && i == at,
    }
}

/// The token at the place `pos`, if there is one.
pub fn peek(tokens: &Vec<(Token, usize)>, pos: usize) -> (found: Option<&Token>)
    ensures
        match tok_at(toks(tokens@), pos as nat) {
            Some(tok) => found matches Some(token) && token@ == tok && pos < tokens.len(),
            None => found is None && pos >= tokens.len(),
        },
{
    if pos < tokens.len() {
        Some(&tokens[pos].0)
    } else {
        None
    }
}

/// The operator that a token stands for at a level of binding strength.
pub fn operator_of(level: u8, token: &Token) -> (op: Option<Op>)
    ensures
        op == binary_op(level as nat, token@),
{
    if level == 4 {
        match token {
            Token::And => Some(Op::And),
            Token::Or => Some(Op::Or),
            _ => None,
        }
    } else if level == 3 {
        match token {
            Token::Greater => Some(Op::Gt),
            Token::Less => Some(Op::Lt),
            Token::Equal => Some(Op::Equal),
            _ => None,
        }
    } else if level == 2 {
        match token {
            Token::Plus => Some(Op::Add),
            Token::Minus => Some(Op::Sub),
            _ => None,
        }
    } else if level == 1 {
        match token {
            Token::Star => Some(Op::Mul),
            Token::Slash => Some(Op::Div),
            _ => None,
        }
    } else {
        None
    }
}

/// The name at the place `pos`, if an identifier stands there.
pub fn name_at(tokens: &Vec<(Token, usize)>, pos: usize) -> (name: Option<String>)
    ensures
        match tok_at(toks(tokens@), pos as nat) {
            Some(Tok::Id(x)) => name matches Some(n) && n@ == x && pos < tokens.len(),
            _ => name is None,
        },
{
    match peek(tokens, pos) {
        Some(Token::Id(x)) => Some(x.clone()),
        _ => None,
    }
}

/// Whether the token at the place `pos` is `expected`, which is a token
/// without a value.
pub(crate) fn is_at(tokens: &Vec<(Token, usize)>, pos: usize, expected: &Token) -> (b: bool)
    requires
        !(expected@ is Num),
        !(expected@ is Id),
    ensures
        b == (tok_at(toks(tokens@), pos as nat) == Some(expected@)),
        b ==> pos < tokens.len(),
{
    match peek(tokens, pos) {
        Some(token) => same_kind(token, expected),
        None => false,
    }
}

/// Whether two tokens are the same, where the second is a token without a
/// value.
pub(crate) fn same_kind(token: &Token, expected: &Token) -> (b: bool)
    requires
        !(expected@ is Num),
        !(expected@ is Id),
    ensures
        b == (token@ == expected@),
{
    match (token, expected) {
        (Token::True, Token::True) => true,
        (Token::False, Token::False) => true,
        (Token::Let, Token::Let) => true,
        (Token::LetRec, Token::LetRec) => true,
        (Token::In, Token::In) => true,
        (Token::If, Token::If) => true,
        (Token::Then, Token::Then) => true,
        (Token::Else, Token::Else) => true,
        (Token::Fun, Token::Fun) => true,
        (Token::Arrow, Token::Arrow) => true,
        (Token::Open, Token::Open) => true,
        (Token::Close, Token::Close) => true,
        (Token::Equal, Token::Equal) => true,
        (Token::Less, Token::Less) => true,
        (Token::Greater, Token::Greater) => true,
        (Token::Plus, Token::Plus) => true,
        (Token::Minus, Token::Minus) => true,
        (Token::Star, Token::Star) => true,
        (Token::Slash, Token::Slash) => true,
        (Token::And, Token::And) => true,
        (Token::Or, Token::Or) => true,
        _ => false,
    }
}

/// The `Let` of the grammar that starts at the place `pos`.
pub fn let_at(tokens: &Vec<(Token, usize)>, pos: usize) -> (r: Result<(Box<Expr>, usize), usize>)
    ensures
        parsed(r, parse_let(toks(tokens@), pos as nat)),
        r matches Ok((_, next)) ==> pos < next <= tokens.len(),
    decreases tokens_left(toks(tokens@), pos as nat), 10nat,
{
    let ghost ts = toks(tokens@);
    proof {
        lemma_let_advances(ts, pos as nat);
    }
    let recursive = if is_at(tokens, pos, &Token::Let) {
        false
    } else if is_at(tokens, pos, &Token::LetRec) {
        true
    } else {
        return if_at(tokens, pos);
    };
    let name = match name_at(tokens, pos + 1) {
        Some(name) => name,
        None => {
            return Err(pos + 1);
        },
    };
    if !is_at(tokens, pos + 2, &Token::Equal) {
        return Err(pos + 2);
    }
    let (val, end1) = let_at(tokens, pos + 3)?;
    if !is_at(tokens, end1, &Token::In) {
        return Err(end1);
    }
    let (body, end2) = let_at(tokens, end1 + 1)?;
    if recursive {
        Ok((Box::new(Expr::LetRec(name, val, body)), end2))
    } else {
        Ok((Box::new(Expr::Let(name, val, body)), end2))
    }
}

/// The `If` of the grammar that starts at the place `pos`.
pub fn if_at(tokens: &Vec<(Token, usize)>, pos: usize) -> (r: Result<(Box<Expr>, usize), usize>)
    ensures
        parsed(r, parse_if(toks(tokens@), pos as nat)),
        r matches Ok((_, next)) ==> pos < next <= tokens.len(),
    decreases tokens_left(toks(tokens@), pos as nat), 9nat,
{
    let ghost ts = toks(tokens@);
    proof {
        lemma_if_advances(ts, pos as nat);
    }
    if !is_at(tokens, pos, &Token::If) {
        return lambda_at(tokens, pos);
    }
    let (cond, end1) = let_at(tokens, pos + 1)?;
    if !is_at(tokens, end1, &Token::Then) {
        return Err(end1);
    }
    let (first, end2) = let_at(tokens, end1 + 1)?;
    if !is_at(tokens, end2, &Token::Else) {
        return Err(end2);
    }
    let (second, end3) = let_at(tokens, end2 + 1)?;
    Ok((Box::new(Expr::If(cond, first, second)), end3))
}

/// The `Lambda` of the grammar that starts at the place `pos`.
pub fn lambda_at(tokens: &Vec<(Token, usize)>, pos: usize) -> (r: Result<
    (Box<Expr>, usize),
    usize,
>)
    ensures
        parsed(r, parse_lambda(toks(tokens@), pos as nat)),
        r matches Ok((_, next)) ==> pos < next <= tokens.len(),
    decreases tokens_left(toks(tokens@), pos as nat), 8nat,
{
    let ghost ts = toks(tokens@);
    proof {
        lemma_lambda_advances(ts, pos as nat);
    }
    if !is_at(tokens, pos, &Token::Fun) {
        return binary_at(tokens, pos, 4);
    }
    let name = match name_at(tokens, pos + 1) {
        Some(name) => name,
        None => {
            return Err(pos + 1);
        },
    };
    if !is_at(tokens, pos + 2, &Token::Arrow) {
        return Err(pos + 2);
    }
    let (body, end1) = let_at(tokens, pos + 3)?;
    Ok((Box::new(Expr::Fun(name, body)), end1))
}

/// The operator at the place `pos`, if a token stands there that is an
/// operator of the level.
pub fn operator_at(tokens: &Vec<(Token, usize)>, pos: usize, level: u8) -> (op: Option<Op>)
    ensures
        op == op_at(toks(tokens@), pos as nat, level as nat),
        op is Some ==> pos < tokens.len(),
{
    match peek(tokens, pos) {
        Some(token) => operator_of(level, token),
        None => None,
    }
}

/// The chain of operands and operators of a level of binding strength that
/// starts at the place `pos`; at the level 0, the `App` of the grammar.
pub fn binary_at(tokens: &Vec<(Token, usize)>, pos: usize, level: u8) -> (r: Result<
    (Box<Expr>, usize),
    usize,
>)
    ensures
        parsed(r, parse_binary(toks(tokens@), pos as nat, level as nat)),
        r matches Ok((_, next)) ==> pos < next <= tokens.len(),
    decreases tokens_left(toks(tokens@), pos as nat), 3 + level,
{
    let ghost ts = toks(tokens@);
    proof {
        lemma_binary_advances(ts, pos as nat, level as nat);
    }
    if level == 0 {
        return app_at(tokens, pos);
    }
    let (first, end1) = binary_at(tokens, pos, level - 1)?;
    let mut lhs = first;
    let mut cur = end1;
    loop
        invariant
            level > 0,
            ts == toks(tokens@),
            pos < cur <= tokens.len(),
            parse_binary(ts, pos as nat, level as nat) == binary_rest(
                ts,
                cur as nat,
                level as nat,
                lhs@,
            ),
        decreases tokens_left(ts, cur as nat),
    {
        match operator_at(tokens, cur, level) {
            None => {
                return Ok((lhs, cur));
            },
            Some(op) => {
                proof {
                    lemma_binary_advances(ts, (cur + 1) as nat, (level - 1) as nat);
                }
                let (rhs, next) = binary_at(tokens, cur + 1, level - 1)?;
                lhs = Box::new(Expr::BinOp(lhs, op, rhs));
                cur = next;
            },
        }
    }
}

/// Whether a `Term` of the grammar can start with the token.
pub fn can_start_term(token: &Token) -> (b: bool)
    ensures
        b == starts_term(token@),
{
    match token {
        Token::Num(_) => true,
        Token::Id(_) => true,
        Token::True => true,
        Token::False => true,
        Token::Open => true,
        _ => false,
    }
}

/// The `App` of the grammar that starts at the place `pos`.
pub fn app_at(tokens: &Vec<(Token, usize)>, pos: usize) -> (r: Result<(Box<Expr>, usize), usize>)
    ensures
        parsed(r, parse_app(toks(tokens@), pos as nat)),
        r matches Ok((_, next)) ==> pos < next <= tokens.len(),
    decreases tokens_left(toks(tokens@), pos as nat), 2nat,
{
    let ghost ts = toks(tokens@);
    proof {
        lemma_app_advances(ts, pos as nat);
    }
    let (first, end1) = term_at(tokens, pos)?;
    let mut f = first;
    let mut cur = end1;
    loop
        invariant
            ts == toks(tokens@),
            pos < cur <= tokens.len(),
            parse_app(ts, pos as nat) == app_rest(ts, cur as nat, f@),
        decreases tokens_left(ts, cur as nat),
    {
        let more = match peek(tokens, cur) {
            Some(token) => can_start_term(token),
            None => false,
        };
        if !more {
            return Ok((f, cur));
        }
        proof {
            lemma_term_advances(ts, cur as nat);
        }
        let (arg, next) = term_at(tokens, cur)?;
        f = Box::new(Expr::App(f, arg));
        cur = next;
    }
}

/// The `Term` of the grammar that starts at the place `pos`.
pub fn term_at(tokens: &Vec<(Token, usize)>, pos: usize) -> (r: Result<(Box<Expr>, usize), usize>)
    ensures
        parsed(r, parse_term(toks(tokens@), pos as nat)),
        r matches Ok((_, next)) ==> pos < next <= tokens.len(),
    decreases tokens_left(toks(tokens@), pos as nat), 0nat,
{
    let ghost ts = toks(tokens@);
    proof {
        lemma_term_advances(ts, pos as nat);
    }
    match peek(tokens, pos) {
        Some(Token::Num(n)) => Ok((Box::new(Expr::Num(*n)), pos + 1)),
        Some(Token::Id(x)) => Ok((Box::new(Expr::Var(x.clone())), pos + 1)),
        Some(Token::True) => Ok((Box::new(Expr::Bool(true)), pos + 1)),
        Some(Token::False) => Ok((Box::new(Expr::Bool(false)), pos + 1)),
        Some(Token::Open) => {
            let (e, end1) = let_at(tokens, pos + 1)?;
            if is_at(tokens, end1, &Token::Close) {
                Ok((e, end1 + 1))
            } else {
                Err(end1)
            }
        },
        _ => Err(pos),
    }
}

/// Whether a result of the parser is the expression of the text, or its
/// first syntax error.
pub open spec fn parsed_text(r: Result<Box<Expr>, ParseError>, model: Result<Term, SyntaxFailure>)
    -> bool {
    match model {
        Ok(e) => r matches Ok(found) && found@ == e,
        Err(f) => r matches Err(e) && e@ == f,
    }
}

/// The expression that a text stands for by the grammar, or its first
/// syntax error where it stands for none.
#[allow(non_snake_case)]
pub fn parse_Expr(input: &str) -> (r: Result<Box<Expr>, ParseError>)
    ensures
        parsed_text(r, parse_text(input@)),
        r matches Ok(found) ==> grammatical(input@, found@),
        r is Err ==> forall|e: Term| !grammatical(input@, e),
{
    proof {
        assert forall|e: Term| #[trigger]
            grammatical(input@, e) <==> parse_text(input@) == Ok::<Term, SyntaxFailure>(e) by {
            lemma_parse_text_decides(input@, e);
        }
    }
    let (tokens, failure) = tokenize(input);
    proof {
        let lexed = lex_before(input@, 0);
        assert(tokens_view(tokens@).len() == lexed.len());
        assert forall|i: int| 0 <= i < lexed.len() implies tokens@[i].0@ == lexed[i].0
            && tokens@[i].1 == offset(input@, lexed[i].1) by {
            assert(tokens_view(tokens@)[i] == placed(input@, lexed)[i]);
        }
        assert(toks(tokens@) =~= bare(lexed));
    }
    let at = match let_at(&tokens, 0) {
        Ok((e, next)) => {
            if next >= tokens.len() {
                return match failure {
                    Some(f) => Err(f),
                    None => Ok(e),
                };
            }
            next
        },
        Err(at) => at,
    };
    if at < tokens.len() {
        Err(ParseError::UnrecognizedToken { location: tokens[at].1 })
    } else {
        match failure {
            Some(f) => Err(f),
            None => Err(ParseError::UnexpectedEnd),
        }
    }
}

} // verus!

//! Printing and parsing: the text of an expression is parsed back to the
//! expression.

use crate::ast::{Op, Term};
use crate::lexer::{
    CharClass, in_class, is_digit, is_space, is_word_start, lemma_lex_before, lex, number_value,
    run, symbol_at, SyntaxFailure, Tok, token_at, word_token,
};
use crate::parser::{bare, binary_op, parse_text, parse_tokens};
use crate::render::{decimal, render_op, render_term};
use crate::syntax::{derives, inside, Kind, kind_of, lemma_parser_decides, piece, rank};
use vstd::prelude::*;

verus! {

/// The token of an operator.
pub open spec fn op_token(op: Op) -> Tok {
    match op {
        Op::Add => Tok::Plus,
        Op::Mul => Tok::Star,
        Op::Sub => Tok::Minus,
        Op::Div => Tok::Slash,
        Op::Equal => Tok::Equal,
        Op::Gt => Tok::Greater,
        Op::Lt => Tok::Less,
        Op::And => Tok::And,
        Op::Or => Tok::Or,
    }
}

/// The level of binding strength of an operator.
pub open spec fn op_level(op: Op) -> nat {
    match op {
        Op::Mul | Op::Div => 1,
        Op::Add | Op::Sub => 2,
        Op::Equal | Op::Gt | Op::Lt => 3,
        Op::And | Op::Or => 4,
    }
}

/// The tokens of the text of an expression, in which every compound
/// expression stands in parentheses.
pub open spec fn term_tokens(e: Term) -> Seq<Tok>
    decreases e, 1nat,
{
    match e {
        Term::Num(n) => seq![Tok::Num(n)],
        Term::Bool(b) => if b {
            seq![Tok::True]
        } else {
            seq![Tok::False]
        },
        Term::Var(x) => seq![Tok::Id(x)],
        Term::BinOp(l, op, r) => seq![Tok::Open] + group(e) + seq![Tok::Close],
        Term::Fun(x, body) => seq![Tok::Open] + group(e) + seq![Tok::Close],
        Term::App(f, a) => seq![Tok::Open] + group(e) + seq![Tok::Close],
        Term::Let(x, v, b) => seq![Tok::Open] + group(e) + seq![Tok::Close],
        Term::LetRec(x, v, b) => seq![Tok::Open] + group(e) + seq![Tok::Close],
        Term::If(p, c, f) => seq![Tok::Open] + group(e) + seq![Tok::Close],
    }
}

/// The tokens between the parentheses of a compound expression.
pub open spec fn group(e: Term) -> Seq<Tok>
    decreases e, 0nat,
{
    match e {
        Term::BinOp(l, op, r) => term_tokens(*l) + seq![op_token(op)] + term_tokens(*r),
        Term::Fun(x, body) => seq![Tok::Fun, Tok::Id(x), Tok::Arrow] + term_tokens(*body),
        Term::App(f, a) => term_tokens(*f) + term_tokens(*a),
        Term::Let(x, v, b) => seq![Tok::Let, Tok::Id(x), Tok::Equal] + term_tokens(*v) + seq![
            Tok::In,
        ] + term_tokens(*b),
        Term::LetRec(x, v, b) => seq![Tok::LetRec, Tok::Id(x), Tok::Equal] + term_tokens(*v)
            + seq![Tok::In] + term_tokens(*b),
        Term::If(p, c, f) => seq![Tok::If] + term_tokens(*p) + seq![Tok::Then] + term_tokens(*c)
            + seq![Tok::Else] + term_tokens(*f),
        _ => Seq::empty(),
    }
}

/// Whether the kind is one of the grammar: a chain has a level from 1 to 4.
pub open spec fn proper(kind: Kind) -> bool {
    kind matches Kind::Chain(level) ==> 1 <= level <= 4
}

/// A phrase of a kind is a phrase of every kind that binds more loosely.
pub proof fn lemma_raise(from: Kind, to: Kind, w: Seq<Tok>, e: Term)
    requires
        proper(from),
        proper(to),
        rank(from) <= rank(to),
        derives(from, w, e),
    ensures
        derives(to, w, e),
    decreases rank(to),
{
    if rank(from) < rank(to) {
        match to {
            Kind::Let => {
                lemma_raise(from, Kind::If, w, e);
            },
            Kind::If => {
                lemma_raise(from, Kind::Lambda, w, e);
            },
            Kind::Lambda => {
                lemma_raise(from, Kind::Chain(4), w, e);
            },
            Kind::Chain(level) => {
                lemma_raise(from, kind_of((level - 1) as nat), w, e);
            },
            Kind::App => {
                lemma_raise(from, Kind::Term, w, e);
            },
            Kind::Term => {},
        }
    }
}

/// An operator is the operator of its token at its level.
pub proof fn lemma_op_token(op: Op)
    ensures
        1 <= op_level(op) <= 4,
        binary_op(op_level(op), op_token(op)) == Some(op),
{
}

/// A phrase in parentheses is a `Term`.
pub proof fn lemma_in_parentheses(w: Seq<Tok>, e: Term)
    requires
        derives(Kind::Let, w, e),
    ensures
        derives(Kind::Term, seq![Tok::Open] + w + seq![Tok::Close], e),
{
    let all = seq![Tok::Open] + w + seq![Tok::Close];
    assert(piece(all, 1, all.len() - 1) =~= w);
    assert(all[0] == Tok::Open && all[all.len() - 1] == Tok::Close);
}

/// Two operands with an operator between them are a chain of the level of
/// the operator.
pub proof fn lemma_join_operands(l: Term, op: Op, r: Term, wl: Seq<Tok>, wr: Seq<Tok>)
    requires
        derives(Kind::Term, wl, l),
        derives(Kind::Term, wr, r),
        wl.len() > 0,
    ensures
        derives(
            Kind::Let,
            wl + seq![op_token(op)] + wr,
            Term::BinOp(Box::new(l), op, Box::new(r)),
        ),
{
    let w = wl + seq![op_token(op)] + wr;
    let level = op_level(op);
    let i = wl.len() as int;
    lemma_op_token(op);
    lemma_raise(Kind::Term, Kind::Chain(level), wl, l);
    lemma_raise(Kind::Term, kind_of((level - 1) as nat), wr, r);
    assert(piece(w, 0, i) =~= wl);
    assert(piece(w, i + 1, w.len() as int) =~= wr);
    assert(inside(w, i) && w[i] == op_token(op));
    assert(derives(Kind::Chain(level), w, Term::BinOp(Box::new(l), op, Box::new(r))));
    lemma_raise(Kind::Chain(level), Kind::Let, w, Term::BinOp(Box::new(l), op, Box::new(r)));
}

/// A function and an argument side by side are an application.
pub proof fn lemma_join_application(f: Term, a: Term, wf: Seq<Tok>, wa: Seq<Tok>)
    requires
        derives(Kind::Term, wf, f),
        derives(Kind::Term, wa, a),
        wf.len() > 0,
        wa.len() > 0,
    ensures
        derives(Kind::Let, wf + wa, Term::App(Box::new(f), Box::new(a))),
{
    let w = wf + wa;
    let i = wf.len() as int;
    lemma_raise(Kind::Term, Kind::App, wf, f);
    assert(piece(w, 0, i) =~= wf);
    assert(piece(w, i, w.len() as int) =~= wa);
    assert(inside(w, i));
    assert(derives(Kind::App, w, Term::App(Box::new(f), Box::new(a))));
    lemma_raise(Kind::App, Kind::Let, w, Term::App(Box::new(f), Box::new(a)));
}

/// The keyword `fun`, a name, an arrow and a body are a function.
pub proof fn lemma_join_function(x: Seq<char>, body: Term, wb: Seq<Tok>)
    requires
        derives(Kind::Term, wb, body),
        wb.len() > 0,
    ensures
        derives(
            Kind::Let,
            seq![Tok::Fun, Tok::Id(x), Tok::Arrow] + wb,
            Term::Fun(x, Box::new(body)),
        ),
{
    let w = seq![Tok::Fun, Tok::Id(x), Tok::Arrow] + wb;
    lemma_raise(Kind::Term, Kind::Let, wb, body);
    assert(piece(w, 3, w.len() as int) =~= wb);
    assert(w[0] == Tok::Fun && w[1] == Tok::Id(x) && w[2] == Tok::Arrow);
    assert(derives(Kind::Lambda, w, Term::Fun(x, Box::new(body))));
    lemma_raise(Kind::Lambda, Kind::Let, w, Term::Fun(x, Box::new(body)));
}

/// A keyword `let` or `letrec`, a name, an equals sign, a value, the
/// keyword `in` and a body are a binding.
pub proof fn lemma_join_binding(
    recursive: bool,
    x: Seq<char>,
    v: Term,
    b: Term,
    wv: Seq<Tok>,
    wb: Seq<Tok>,
)
    requires
        derives(Kind::Term, wv, v),
        derives(Kind::Term, wb, b),
    ensures
        recursive ==> derives(
            Kind::Let,
            seq![Tok::LetRec, Tok::Id(x), Tok::Equal] + wv + seq![Tok::In] + wb,
            Term::LetRec(x, Box::new(v), Box::new(b)),
        ),
        !recursive ==> derives(
            Kind::Let,
            seq![Tok::Let, Tok::Id(x), Tok::Equal] + wv + seq![Tok::In] + wb,
            Term::Let(x, Box::new(v), Box::new(b)),
        ),
{
    let key = if recursive {
        Tok::LetRec
    } else {
        Tok::Let
    };
    let w = seq![key, Tok::Id(x), Tok::Equal] + wv + seq![Tok::In] + wb;
    let i = 3 + wv.len() as int;
    lemma_raise(Kind::Term, Kind::Let, wv, v);
    lemma_raise(Kind::Term, Kind::Let, wb, b);
    assert(piece(w, 3, i) =~= wv);
    assert(piece(w, i + 1, w.len() as int) =~= wb);
    assert(w[0] == key && w[1] == Tok::Id(x) && w[2] == Tok::Equal);
    assert(inside(w, i) && w[i] == Tok::In);
}

/// The keyword `if`, a condition, the keyword `then`, a branch, the
/// keyword `else` and another branch are a conditional.
pub proof fn lemma_join_conditional(
    p: Term,
    c: Term,
    f: Term,
    wp: Seq<Tok>,
    wc: Seq<Tok>,
    wf: Seq<Tok>,
)
    requires
        derives(Kind::Term, wp, p),
        derives(Kind::Term, wc, c),
        derives(Kind::Term, wf, f),
    ensures
        derives(
            Kind::Let,
            seq![Tok::If] + wp + seq![Tok::Then] + wc + seq![Tok::Else] + wf,
            Term::If(Box::new(p), Box::new(c), Box::new(f)),
        ),
{
    let e = Term::If(Box::new(p), Box::new(c), Box::new(f));
    let w = seq![Tok::If] + wp + seq![Tok::Then] + wc + seq![Tok::Else] + wf;
    let i = 1 + wp.len() as int;
    let j = i + 1 + wc.len() as int;
    lemma_raise(Kind::Term, Kind::Let, wp, p);
    lemma_raise(Kind::Term, Kind::Let, wc, c);
    lemma_raise(Kind::Term, Kind::Let, wf, f);
    assert(piece(w, 1, i) =~= wp);
    assert(piece(w, i + 1, j) =~= wc);
    assert(piece(w, j + 1, w.len() as int) =~= wf);
    assert(w[0] == Tok::If);
    assert(inside(w, i) && inside(w, j) && w[i] == Tok::Then && w[j] == Tok::Else);
    assert(derives(Kind::If, w, e));
    lemma_raise(Kind::If, Kind::Let, w, e);
}

/// The tokens of the text of an expression are a `Term` of the grammar
/// that stands for the expression.
pub proof fn lemma_tokens_derive(e: Term)
    ensures
        term_tokens(e).len() > 0,
        derives(Kind::Term, term_tokens(e), e),
    decreases e,
{
    match e {
        Term::Num(n) => {},
        Term::Bool(b) => {},
        Term::Var(x) => {},
        Term::BinOp(l, op, r) => {
            lemma_tokens_derive(*l);
            lemma_tokens_derive(*r);
            lemma_join_operands(*l, op, *r, term_tokens(*l), term_tokens(*r));
            lemma_in_parentheses(group(e), e);
        },
        Term::Fun(x, body) => {
            lemma_tokens_derive(*body);
            lemma_join_function(x, *body, term_tokens(*body));
            lemma_in_parentheses(group(e), e);
        },
        Term::App(f, a) => {
            lemma_tokens_derive(*f);
            lemma_tokens_derive(*a);
            lemma_join_application(*f, *a, term_tokens(*f), term_tokens(*a));
            lemma_in_parentheses(group(e), e);
        },
        Term::Let(x, v, b) => {
            lemma_tokens_derive(*v);
            lemma_tokens_derive(*b);
            lemma_join_binding(false, x, *v, *b, term_tokens(*v), term_tokens(*b));
            lemma_in_parentheses(group(e), e);
        },
        Term::LetRec(x, v, b) => {
            lemma_tokens_derive(*v);
            lemma_tokens_derive(*b);
            lemma_join_binding(true, x, *v, *b, term_tokens(*v), term_tokens(*b));
            lemma_in_parentheses(group(e), e);
        },
        Term::If(p, c, f) => {
            lemma_tokens_derive(*p);
            lemma_tokens_derive(*c);
            lemma_tokens_derive(*f);
            lemma_join_conditional(
                *p,
                *c,
                *f,
                term_tokens(*p),
                term_tokens(*c),
                term_tokens(*f),
            );
            lemma_in_parentheses(group(e), e);
        },
    }
}

/// The tokens of the text of an expression are parsed back to the
/// expression.
pub proof fn lemma_tokens_parse_back(e: Term)
    ensures
        parse_tokens(term_tokens(e)) == Ok::<Term, nat>(e),
{
    lemma_tokens_derive(e);
    lemma_raise(Kind::Term, Kind::Let, term_tokens(e), e);
    lemma_parser_decides(term_tokens(e), e);
}

/// Whether the characters `s` stand at the place `pos` of the text.
#[verifier::opaque]
pub open spec fn at(text: Seq<char>, pos: nat, s: Seq<char>) -> bool {
    pos + s.len() <= text.len() && text.subrange(pos as int, (pos + s.len()) as int) == s
}

/// Whether a word or a number that ends before the place `pos` of the text
/// ends there for the lexer too: the text ends there, or goes on with a
/// space or a closing parenthesis.
pub open spec fn ends_at(text: Seq<char>, pos: nat) -> bool {
    pos >= text.len() || text[pos as int] == ' ' || text[pos as int] == ')'
}

/// The tokens of the text from the place `pos` on, without their places.
pub open spec fn scan(text: Seq<char>, pos: nat) -> Result<Seq<Tok>, SyntaxFailure> {
    match lex(text, pos) {
        Ok(tokens) => Ok(bare(tokens)),
        Err(f) => Err(f),
    }
}

/// The tokens `ts` in front of a result of the lexer.
pub open spec fn before(ts: Seq<Tok>, r: Result<Seq<Tok>, SyntaxFailure>) -> Result<
    Seq<Tok>,
    SyntaxFailure,
> {
    match r {
        Ok(rest) => Ok(ts + rest),
        Err(f) => Err(f),
    }
}

/// Characters that stand at a place, one after the other.
pub proof fn lemma_at_both(text: Seq<char>, pos: nat, a: Seq<char>, b: Seq<char>)
    requires
        at(text, pos, a + b),
    ensures
        at(text, pos, a),
        at(text, pos + a.len(), b),
{
    reveal(at);
    let whole = text.subrange(pos as int, (pos + (a + b).len()) as int);
    assert(text.subrange(pos as int, (pos + a.len()) as int) =~= whole.subrange(
        0,
        a.len() as int,
    ));
    assert(whole.subrange(0, a.len() as int) =~= a);
    assert(text.subrange((pos + a.len()) as int, (pos + a.len() + b.len()) as int)
        =~= whole.subrange(
        a.len() as int,
        whole.len() as int,
    ));
    assert(whole.subrange(a.len() as int, whole.len() as int) =~= b);
}

/// A character that stands at a place of the text.
pub proof fn lemma_at_char(text: Seq<char>, pos: nat, s: Seq<char>, i: int)
    requires
        at(text, pos, s),
        0 <= i < s.len(),
    ensures
        pos + i < text.len(),
        text[pos + i] == s[i],
{
    reveal(at);
    assert(text.subrange(pos as int, (pos + s.len()) as int)[i] == text[pos + i]);
}

/// Tokens in front of tokens in front of a result.
pub proof fn lemma_before_twice(a: Seq<Tok>, b: Seq<Tok>, r: Result<Seq<Tok>, SyntaxFailure>)
    ensures
        before(a, before(b, r)) == before(a + b, r),
{
    match r {
        Ok(rest) => {
            assert(a + (b + rest) =~= (a + b) + rest);
        },
        Err(_) => {},
    }
}

/// A run of exactly `n` characters of a class.
pub proof fn lemma_run_exact(text: Seq<char>, pos: nat, class: CharClass, n: nat)
    requires
        pos + n <= text.len(),
        forall|i: int| pos <= i < pos + n ==> in_class(class, #[trigger] text[i]),
        pos + n < text.len() ==> !in_class(class, text[(pos + n) as int]),
    ensures
        run(text, pos, class) == n,
    decreases n,
{
    if n > 0 {
        assert(in_class(class, text[pos as int]));
        lemma_run_exact(text, pos + 1, class, (n - 1) as nat);
    }
}

/// The lexer skips a space.
pub proof fn lemma_scan_space(text: Seq<char>, pos: nat)
    requires
        pos < text.len(),
        text[pos as int] == ' ',
    ensures
        scan(text, pos) == scan(text, pos + 1),
{
    assert(run(text, pos, CharClass::Space) == 1 + run(text, pos + 1, CharClass::Space));
}

/// The lexer takes the token that stands at a place.
pub proof fn lemma_scan_token(text: Seq<char>, pos: nat, tok: Tok, n: nat)
    requires
        pos < text.len(),
        !is_space(text[pos as int]),
        token_at(text, pos) == Ok::<(Tok, nat), SyntaxFailure>((tok, n)),
    ensures
        scan(text, pos) == before(seq![tok], scan(text, pos + n)),
{
    assert(run(text, pos, CharClass::Space) == 0);
    match lex(text, pos + n) {
        Ok(rest) => {
            assert(bare(seq![(tok, pos)] + rest) =~= seq![tok] + bare(rest));
        },
        Err(_) => {},
    }
}

/// The digits of a number are digits.
pub proof fn lemma_decimal_digits(n: nat, i: int)
    requires
        0 <= i < decimal(n).len(),
    ensures
        is_digit(decimal(n)[i]),
    decreases n,
{
    if n >= 10 {
        if i < decimal(n / 10).len() {
            lemma_decimal_digits(n / 10, i);
        }
    }
}

/// The digits of a number stand for the number.
pub proof fn lemma_decimal_value(n: nat)
    ensures
        decimal(n).len() > 0,
        number_value(decimal(n)) == n,
    decreases n,
{
    if n < 10 {
        assert(decimal(n).drop_last() =~= Seq::<char>::empty());
        assert(number_value(decimal(n).drop_last()) == 0);
    } else {
        lemma_decimal_value(n / 10);
        assert(decimal(n).drop_last() =~= decimal(n / 10));
    }
}

/// Whether the characters are a word for the lexer: a letter or an
/// underscore, and then letters, digits and underscores.
pub open spec fn is_word(word: Seq<char>) -> bool {
    word.len() > 0 && is_word_start(word[0]) && forall|i: int|
        0 <= i < word.len() ==> in_class(CharClass::Word, #[trigger] word[i])
}

/// Whether the characters are a name: a word that is no keyword.
pub open spec fn is_name(word: Seq<char>) -> bool {
    is_word(word) && word_token(word) == Tok::Id(word)
}

/// The lexer takes the token of punctuation that stands at a place.
pub proof fn lemma_scan_symbol(text: Seq<char>, pos: nat, tok: Tok, n: nat)
    requires
        symbol_at(text, pos) == Some((tok, n)),
    ensures
        scan(text, pos) == before(seq![tok], scan(text, pos + n)),
{
    lemma_scan_token(text, pos, tok, n);
}

/// The lexer takes the word that stands at a place and ends there.
pub proof fn lemma_scan_word(text: Seq<char>, pos: nat, word: Seq<char>)
    requires
        is_word(word),
        at(text, pos, word),
        ends_at(text, pos + word.len()),
    ensures
        scan(text, pos) == before(seq![word_token(word)], scan(text, pos + word.len())),
{
    let n = word.len();
    reveal(at);
    lemma_at_char(text, pos, word, 0);
    assert forall|i: int| pos <= i < pos + n implies in_class(
        CharClass::Word,
        #[trigger] text[i],
    ) by {
        lemma_at_char(text, pos, word, i - pos);
        assert(in_class(CharClass::Word, word[i - pos]));
    }
    lemma_run_exact(text, pos, CharClass::Word, n);
    lemma_scan_token(text, pos, word_token(word), n);
}

/// The lexer takes the number whose digits stand at a place and end there.
pub proof fn lemma_scan_number(text: Seq<char>, pos: nat, n: nat)
    requires
        n <= i32::MAX,
        at(text, pos, decimal(n)),
        ends_at(text, pos + decimal(n).len()),
    ensures
        scan(text, pos) == before(seq![Tok::Num(n as i32)], scan(text, pos + decimal(n).len())),
{
    let digits = decimal(n);
    reveal(at);
    lemma_decimal_value(n);
    lemma_at_char(text, pos, digits, 0);
    lemma_decimal_digits(n, 0);
    assert forall|i: int| pos <= i < pos + digits.len() implies in_class(
        CharClass::Digit,
        #[trigger] text[i],
    ) by {
        lemma_at_char(text, pos, digits, i - pos);
        lemma_decimal_digits(n, i - pos);
    }
    lemma_run_exact(text, pos, CharClass::Digit, digits.len());
    lemma_scan_token(text, pos, Tok::Num(n as i32), digits.len());
}

/// The keywords are words, and each stands for its own token.
pub proof fn lemma_keywords()
    ensures
        is_word("else"@) && word_token("else"@) == Tok::Else,
        is_word("false"@) && word_token("false"@) == Tok::False,
        is_word("fun"@) && word_token("fun"@) == Tok::Fun,
        is_word("if"@) && word_token("if"@) == Tok::If,
        is_word("in"@) && word_token("in"@) == Tok::In,
        is_word("let"@) && word_token("let"@) == Tok::Let,
        is_word("letrec"@) && word_token("letrec"@) == Tok::LetRec,
        is_word("then"@) && word_token("then"@) == Tok::Then,
        is_word("true"@) && word_token("true"@) == Tok::True,
{
    reveal_strlit("else");
    reveal_strlit("false");
    reveal_strlit("fun");
    reveal_strlit("if");
    reveal_strlit("in");
    reveal_strlit("let");
    reveal_strlit("letrec");
    reveal_strlit("then");
    reveal_strlit("true");
    assert("else"@[0] == 'e' && "false"@[0] == 'f' && "fun"@[0] == 'f' && "if"@[0] == 'i');
    assert("in"@[0] == 'i' && "let"@[0] == 'l' && "letrec"@[0] == 'l' && "then"@[0] == 't');
    assert("true"@[0] == 't');
    assert("false"@[1] == 'a' && "fun"@[1] == 'u' && "if"@[1] == 'f' && "in"@[1] == 'n');
    assert("then"@[1] == 'h' && "true"@[1] == 'r');
}

/// The lexer takes an opening parenthesis.
pub proof fn lemma_scan_open(text: Seq<char>, pos: nat)
    requires
        at(text, pos, "("@),
    ensures
        scan(text, pos) == before(seq![Tok::Open], scan(text, pos + 1)),
        "("@.len() == 1,
{
    reveal_strlit("(");
    lemma_at_char(text, pos, "("@, 0);
    lemma_scan_symbol(text, pos, Tok::Open, 1);
}

/// The lexer takes a closing parenthesis.
pub proof fn lemma_scan_close(text: Seq<char>, pos: nat)
    requires
        at(text, pos, ")"@),
    ensures
        scan(text, pos) == before(seq![Tok::Close], scan(text, pos + 1)),
        ")"@.len() == 1,
        text[pos as int] == ')',
{
    reveal_strlit(")");
    lemma_at_char(text, pos, ")"@, 0);
    lemma_scan_symbol(text, pos, Tok::Close, 1);
}

/// The lexer skips the space between a function and its argument.
pub proof fn lemma_scan_gap(text: Seq<char>, pos: nat)
    requires
        at(text, pos, " "@),
    ensures
        scan(text, pos) == scan(text, pos + 1),
        " "@.len() == 1,
        text[pos as int] == ' ',
{
    reveal_strlit(" ");
    lemma_at_char(text, pos, " "@, 0);
    lemma_scan_space(text, pos);
}

/// The lexer takes an opening parenthesis and the keyword behind it.
pub proof fn lemma_scan_head(text: Seq<char>, pos: nat, head: Seq<char>, key: Seq<char>)
    requires
        at(text, pos, head),
        head == seq!['('] + key + seq![' '],
        is_word(key),
    ensures
        scan(text, pos) == before(
            seq![Tok::Open, word_token(key)],
            scan(text, pos + head.len()),
        ),
{
    let n = key.len();
    lemma_at_both(text, pos, seq!['('] + key, seq![' ']);
    lemma_at_both(text, pos, seq!['('], key);
    lemma_at_char(text, pos, seq!['('], 0);
    lemma_at_char(text, pos + 1 + n, seq![' '], 0);
    lemma_scan_symbol(text, pos, Tok::Open, 1);
    lemma_scan_word(text, pos + 1, key);
    lemma_scan_space(text, pos + 1 + n);
    lemma_before_twice(seq![Tok::Open], seq![word_token(key)], scan(text, pos + head.len()));
    assert(seq![Tok::Open] + seq![word_token(key)] =~= seq![Tok::Open, word_token(key)]);
}

/// The lexer takes a keyword between two spaces.
pub proof fn lemma_scan_link(text: Seq<char>, pos: nat, link: Seq<char>, key: Seq<char>)
    requires
        at(text, pos, link),
        link == seq![' '] + key + seq![' '],
        is_word(key),
    ensures
        scan(text, pos) == before(seq![word_token(key)], scan(text, pos + link.len())),
        text[pos as int] == ' ',
{
    let n = key.len();
    lemma_at_both(text, pos, seq![' '] + key, seq![' ']);
    lemma_at_both(text, pos, seq![' '], key);
    lemma_at_char(text, pos, seq![' '], 0);
    lemma_at_char(text, pos + 1 + n, seq![' '], 0);
    lemma_scan_space(text, pos);
    lemma_scan_word(text, pos + 1, key);
    lemma_scan_space(text, pos + 1 + n);
}

/// The lexer takes a token of punctuation between two spaces.
pub proof fn lemma_scan_sign(text: Seq<char>, pos: nat, link: Seq<char>, sign: Seq<char>, tok: Tok)
    requires
        at(text, pos, link),
        link == seq![' '] + sign + seq![' '],
        sign.len() > 0,
        symbol_at(seq![' '] + sign + seq![' '], 1) == Some((tok, sign.len())),
    ensures
        scan(text, pos) == before(seq![tok], scan(text, pos + link.len())),
        text[pos as int] == ' ',
{
    let n = sign.len();
    lemma_at_char(text, pos, link, 0);
    lemma_at_char(text, pos, link, 1);
    lemma_at_char(text, pos, link, 2);
    lemma_at_char(text, pos, link, n as int + 1);
    lemma_scan_space(text, pos);
    assert(symbol_at(text, pos + 1) == Some((tok, n)));
    lemma_scan_symbol(text, pos + 1, tok, n);
    lemma_scan_space(text, pos + 1 + n);
}

/// The lexer takes an operator between two spaces.
pub proof fn lemma_scan_operator(text: Seq<char>, pos: nat, op: Op)
    requires
        at(text, pos, " "@ + render_op(op) + " "@),
    ensures
        scan(text, pos) == before(
            seq![op_token(op)],
            scan(text, pos + (" "@ + render_op(op) + " "@).len()),
        ),
        text[pos as int] == ' ',
{
    reveal_strlit(" ");
    reveal_strlit("+");
    reveal_strlit("*");
    reveal_strlit(">");
    reveal_strlit("<");
    reveal_strlit("&&");
    reveal_strlit("||");
    reveal_strlit("-");
    reveal_strlit("/");
    reveal_strlit("=");
    let sign = render_op(op);
    let link = " "@ + sign + " "@;
    assert(link =~= seq![' '] + sign + seq![' ']);
    assert(link[1] == sign[0]);
    if sign.len() == 2 {
        assert(link[2] == sign[1]);
    } else {
        assert(link[2] == ' ');
    }
    lemma_scan_sign(text, pos, link, sign, op_token(op));
}

/// Whether the text of an expression can be parsed back: its numbers are
/// not negative, and its names are words that are no keywords.
pub open spec fn printable(e: Term) -> bool
    decreases e,
{
    match e {
        Term::Num(n) => n >= 0,
        Term::Bool(_) => true,
        Term::Var(x) => is_name(x),
        Term::BinOp(l, _, r) => printable(*l) && printable(*r),
        Term::Fun(x, body) => is_name(x) && printable(*body),
        Term::App(f, a) => printable(*f) && printable(*a),
        Term::Let(x, v, b) => is_name(x) && printable(*v) && printable(*b),
        Term::LetRec(x, v, b) => is_name(x) && printable(*v) && printable(*b),
        Term::If(p, c, f) => printable(*p) && printable(*c) && printable(*f),
    }
}

/// Two steps of the lexer make one.
pub proof fn lemma_steps(
    text: Seq<char>,
    from: nat,
    mid: nat,
    to: nat,
    first: Seq<Tok>,
    second: Seq<Tok>,
)
    requires
        scan(text, from) == before(first, scan(text, mid)),
        scan(text, mid) == before(second, scan(text, to)),
    ensures
        scan(text, from) == before(first + second, scan(text, to)),
{
    lemma_before_twice(first, second, scan(text, to));
}

/// The lexer cuts the text of an expression into the tokens of the
/// expression, where the text stands at a place and ends there.
pub proof fn lemma_scan_term(e: Term, text: Seq<char>, pos: nat)
    requires
        printable(e),
        at(text, pos, render_term(e)),
        ends_at(text, pos + render_term(e).len()),
    ensures
        scan(text, pos) == before(term_tokens(e), scan(text, pos + render_term(e).len())),
    decreases e, 1nat,
{
    match e {
        Term::Num(n) => {
            lemma_scan_number(text, pos, n as nat);
        },
        Term::Bool(b) => {
            lemma_keywords();
            lemma_scan_word(text, pos, render_term(e));
        },
        Term::Var(x) => {
            lemma_scan_word(text, pos, x);
        },
        Term::BinOp(_, _, _) => {
            lemma_scan_binop(e, text, pos);
        },
        Term::Fun(_, _) => {
            lemma_scan_fun(e, text, pos);
        },
        Term::App(_, _) => {
            lemma_scan_app(e, text, pos);
        },
        Term::Let(_, _, _) => {
            lemma_scan_let(e, text, pos);
        },
        Term::LetRec(_, _, _) => {
            lemma_scan_let(e, text, pos);
        },
        Term::If(_, _, _) => {
            lemma_scan_if(e, text, pos);
        },
    }
}

/// Where the parts of the text of a binary operator stand.
pub proof fn lemma_binop_layout(e: Term, text: Seq<char>, pos: nat)
    requires
        e is BinOp,
        at(text, pos, render_term(e)),
    ensures
        ({
            let rl = render_term(*e->BinOp_0);
            let rr = render_term(*e->BinOp_2);
            let link = " "@ + render_op(e->BinOp_1) + " "@;
            &&& render_term(e).len() == 1 + rl.len() + link.len() + rr.len() + 1
            &&& at(text, pos, "("@)
            &&& at(text, pos + 1, rl)
            &&& at(text, pos + 1 + rl.len(), link)
            &&& at(text, pos + 1 + rl.len() + link.len(), rr)
            &&& at(text, pos + 1 + rl.len() + link.len() + rr.len(), ")"@)
        }),
{
    reveal_strlit("(");
    reveal_strlit(")");
    let rl = render_term(*e->BinOp_0);
    let rr = render_term(*e->BinOp_2);
    let link = " "@ + render_op(e->BinOp_1) + " "@;
    let tail3 = rr + ")"@;
    let tail2 = link + tail3;
    let tail1 = rl + tail2;
    assert(render_term(e) =~= "("@ + tail1);
    lemma_at_both(text, pos, "("@, tail1);
    lemma_at_both(text, pos + 1, rl, tail2);
    lemma_at_both(text, pos + 1 + rl.len(), link, tail3);
    lemma_at_both(text, pos + 1 + rl.len() + link.len(), rr, ")"@);
}

/// The tokens of the parts of a binary operator make its tokens.
pub proof fn lemma_binop_tokens(
    e: Term,
    text: Seq<char>,
    m0: nat,
    m1: nat,
    m2: nat,
    m3: nat,
    m4: nat,
    m5: nat,
)
    requires
        e is BinOp,
        scan(text, m0) == before(seq![Tok::Open], scan(text, m1)),
        scan(text, m1) == before(term_tokens(*e->BinOp_0), scan(text, m2)),
        scan(text, m2) == before(seq![op_token(e->BinOp_1)], scan(text, m3)),
        scan(text, m3) == before(term_tokens(*e->BinOp_2), scan(text, m4)),
        scan(text, m4) == before(seq![Tok::Close], scan(text, m5)),
    ensures
        scan(text, m0) == before(term_tokens(e), scan(text, m5)),
{
    let tl = term_tokens(*e->BinOp_0);
    let tr = term_tokens(*e->BinOp_2);
    let op = seq![op_token(e->BinOp_1)];
    lemma_steps(text, m3, m4, m5, tr, seq![Tok::Close]);
    lemma_steps(text, m2, m3, m5, op, tr + seq![Tok::Close]);
    lemma_steps(text, m1, m2, m5, tl, op + (tr + seq![Tok::Close]));
    lemma_steps(text, m0, m1, m5, seq![Tok::Open], tl + (op + (tr + seq![Tok::Close])));
    assert(term_tokens(e) =~= seq![Tok::Open] + (tl + (op + (tr + seq![Tok::Close]))));
}

/// `lemma_scan_term` for a binary operator.
pub proof fn lemma_scan_binop(e: Term, text: Seq<char>, pos: nat)
    requires
        e is BinOp,
        printable(e),
        at(text, pos, render_term(e)),
        ends_at(text, pos + render_term(e).len()),
    ensures
        scan(text, pos) == before(term_tokens(e), scan(text, pos + render_term(e).len())),
    decreases e, 0nat,
{
    let l = *e->BinOp_0;
    let op = e->BinOp_1;
    let r = *e->BinOp_2;
    let link = " "@ + render_op(op) + " "@;
    lemma_binop_layout(e, text, pos);
    let m1 = pos + 1;
    let m2 = m1 + render_term(l).len();
    let m3 = m2 + link.len();
    let m4 = m3 + render_term(r).len();
    let m5 = m4 + 1;
    lemma_scan_open(text, pos);
    lemma_scan_operator(text, m2, op);
    lemma_scan_close(text, m4);
    lemma_scan_term(l, text, m1);
    lemma_scan_term(r, text, m3);
    lemma_binop_tokens(e, text, pos, m1, m2, m3, m4, m5);
}

/// `lemma_scan_term` for an application.
pub proof fn lemma_scan_app(e: Term, text: Seq<char>, pos: nat)
    requires
        e is App,
        printable(e),
        at(text, pos, render_term(e)),
        ends_at(text, pos + render_term(e).len()),
    ensures
        scan(text, pos) == before(term_tokens(e), scan(text, pos + render_term(e).len())),
    decreases e, 0nat,
{
    let f = *e->App_0;
    let a = *e->App_1;
    let rf = render_term(f);
    let ra = render_term(a);
    let tail3 = ra + ")"@;
    let tail2 = " "@ + tail3;
    let tail1 = rf + tail2;
    assert(render_term(e) =~= "("@ + tail1);
    lemma_at_both(text, pos, "("@, tail1);
    lemma_scan_open(text, pos);
    let m1 = pos + 1;
    lemma_at_both(text, m1, rf, tail2);
    let m2 = m1 + rf.len();
    lemma_at_both(text, m2, " "@, tail3);
    lemma_scan_gap(text, m2);
    let m3 = m2 + 1;
    lemma_at_both(text, m3, ra, ")"@);
    let m4 = m3 + ra.len();
    let m5 = m4 + 1;
    lemma_scan_close(text, m4);
    lemma_scan_term(f, text, m1);
    lemma_scan_term(a, text, m3);
    lemma_steps(text, m3, m4, m5, term_tokens(a), seq![Tok::Close]);
    lemma_steps(text, m1, m2, m5, term_tokens(f), term_tokens(a) + seq![Tok::Close]);
    lemma_steps(
        text,
        pos,
        m1,
        m5,
        seq![Tok::Open],
        term_tokens(f) + (term_tokens(a) + seq![Tok::Close]),
    );
    assert(term_tokens(e) =~= seq![Tok::Open] + (term_tokens(f) + (term_tokens(a) + seq![
        Tok::Close,
    ])));
}

/// `lemma_scan_term` for a function.
pub proof fn lemma_scan_fun(e: Term, text: Seq<char>, pos: nat)
    requires
        e is Fun,
        printable(e),
        at(text, pos, render_term(e)),
        ends_at(text, pos + render_term(e).len()),
    ensures
        scan(text, pos) == before(term_tokens(e), scan(text, pos + render_term(e).len())),
    decreases e, 0nat,
{
    let x = e->Fun_0;
    let body = *e->Fun_1;
    let rb = render_term(body);
    let tail3 = rb + ")"@;
    let tail2 = " -> "@ + tail3;
    let tail1 = x + tail2;
    reveal_strlit("(fun ");
    reveal_strlit("fun");
    reveal_strlit(" -> ");
    lemma_keywords();
    assert(render_term(e) =~= "(fun "@ + tail1);
    assert("(fun "@ =~= seq!['('] + "fun"@ + seq![' ']);
    assert(" -> "@ =~= seq![' '] + seq!['-', '>'] + seq![' ']);
    lemma_at_both(text, pos, "(fun "@, tail1);
    lemma_scan_head(text, pos, "(fun "@, "fun"@);
    let m1 = pos + 5;
    lemma_at_both(text, m1, x, tail2);
    let m2 = m1 + x.len();
    lemma_at_both(text, m2, " -> "@, tail3);
    lemma_scan_sign(text, m2, " -> "@, seq!['-', '>'], Tok::Arrow);
    let m3 = m2 + 4;
    lemma_at_both(text, m3, rb, ")"@);
    let m4 = m3 + rb.len();
    let m5 = m4 + 1;
    lemma_scan_close(text, m4);
    lemma_scan_word(text, m1, x);
    lemma_scan_term(body, text, m3);
    lemma_steps(text, m3, m4, m5, term_tokens(body), seq![Tok::Close]);
    lemma_steps(text, m2, m3, m5, seq![Tok::Arrow], term_tokens(body) + seq![Tok::Close]);
    lemma_steps(
        text,
        m1,
        m2,
        m5,
        seq![Tok::Id(x)],
        seq![Tok::Arrow] + (term_tokens(body) + seq![Tok::Close]),
    );
    lemma_steps(
        text,
        pos,
        m1,
        m5,
        seq![Tok::Open, Tok::Fun],
        seq![Tok::Id(x)] + (seq![Tok::Arrow] + (term_tokens(body) + seq![Tok::Close])),
    );
    assert(term_tokens(e) =~= seq![Tok::Open, Tok::Fun] + (seq![Tok::Id(x)] + (seq![Tok::Arrow]
        + (term_tokens(body) + seq![Tok::Close]))));
}

/// The name, the value and the body of a `let` or a `letrec`.
pub open spec fn binding_parts(e: Term) -> (Seq<char>, Term, Term) {
    match e {
        Term::Let(x, v, b) => (x, *v, *b),
        Term::LetRec(x, v, b) => (x, *v, *b),
        _ => (Seq::empty(), e, e),
    }
}

/// The text with which a `let` or a `letrec` starts.
pub open spec fn binding_head(e: Term) -> Seq<char> {
    if e is Let {
        "(let "@
    } else {
        "(letrec "@
    }
}

/// The keyword of a `let` or a `letrec`.
pub open spec fn binding_key(e: Term) -> Seq<char> {
    if e is Let {
        "let"@
    } else {
        "letrec"@
    }
}

/// Where the parts of the text of a `let` or a `letrec` stand.
pub proof fn lemma_let_layout(e: Term, text: Seq<char>, pos: nat)
    requires
        e is Let || e is LetRec,
        at(text, pos, render_term(e)),
    ensures
        ({
            let (x, v, b) = binding_parts(e);
            let head = binding_head(e);
            let rv = render_term(v);
            let rb = render_term(b);
            let m1 = pos + head.len();
            let m2 = m1 + x.len();
            let m3 = m2 + 3;
            let m4 = m3 + rv.len();
            let m5 = m4 + 4;
            let m6 = m5 + rb.len();
            &&& render_term(e).len() == m6 + 1 - pos
            &&& " = "@.len() == 3 && " in "@.len() == 4
            &&& head == seq!['('] + binding_key(e) + seq![' ']
            &&& " = "@ == seq![' '] + seq!['='] + seq![' ']
            &&& " in "@ == seq![' '] + "in"@ + seq![' ']
            &&& at(text, pos, head)
            &&& at(text, m1, x)
            &&& at(text, m2, " = "@)
            &&& at(text, m3, rv)
            &&& at(text, m4, " in "@)
            &&& at(text, m5, rb)
            &&& at(text, m6, ")"@)
        }),
{
    let (x, v, b) = binding_parts(e);
    let head = binding_head(e);
    let rv = render_term(v);
    let rb = render_term(b);
    let tail5 = rb + ")"@;
    let tail4 = " in "@ + tail5;
    let tail3 = rv + tail4;
    let tail2 = " = "@ + tail3;
    let tail1 = x + tail2;
    reveal_strlit("(let ");
    reveal_strlit("(letrec ");
    reveal_strlit("let");
    reveal_strlit("letrec");
    reveal_strlit(" = ");
    reveal_strlit(" in ");
    reveal_strlit("in");
    reveal_strlit(")");
    assert(render_term(e) =~= head + tail1);
    assert(head =~= seq!['('] + binding_key(e) + seq![' ']);
    assert(" = "@ =~= seq![' '] + seq!['='] + seq![' ']);
    assert(" in "@ =~= seq![' '] + "in"@ + seq![' ']);
    let m1 = pos + head.len();
    let m2 = m1 + x.len();
    let m3 = m2 + 3;
    let m4 = m3 + rv.len();
    let m5 = m4 + 4;
    lemma_at_both(text, pos, head, tail1);
    lemma_at_both(text, m1, x, tail2);
    lemma_at_both(text, m2, " = "@, tail3);
    lemma_at_both(text, m3, rv, tail4);
    lemma_at_both(text, m4, " in "@, tail5);
    lemma_at_both(text, m5, rb, ")"@);
}

/// The tokens of the parts of a `let` or a `letrec` make its tokens.
pub proof fn lemma_let_tokens(
    e: Term,
    text: Seq<char>,
    m0: nat,
    m1: nat,
    m2: nat,
    m3: nat,
    m4: nat,
    m5: nat,
    m6: nat,
    m7: nat,
)
    requires
        e is Let || e is LetRec,
        scan(text, m0) == before(
            seq![Tok::Open, word_token(binding_key(e))],
            scan(text, m1),
        ),
        scan(text, m1) == before(seq![Tok::Id(binding_parts(e).0)], scan(text, m2)),
        scan(text, m2) == before(seq![Tok::Equal], scan(text, m3)),
        scan(text, m3) == before(term_tokens(binding_parts(e).1), scan(text, m4)),
        scan(text, m4) == before(seq![Tok::In], scan(text, m5)),
        scan(text, m5) == before(term_tokens(binding_parts(e).2), scan(text, m6)),
        scan(text, m6) == before(seq![Tok::Close], scan(text, m7)),
    ensures
        scan(text, m0) == before(term_tokens(e), scan(text, m7)),
{
    lemma_keywords();
    let (x, v, b) = binding_parts(e);
    let key_tok = word_token(binding_key(e));
    let t5 = term_tokens(b) + seq![Tok::Close];
    let t4 = seq![Tok::In] + t5;
    let t3 = term_tokens(v) + t4;
    let t2 = seq![Tok::Equal] + t3;
    let t1 = seq![Tok::Id(x)] + t2;
    lemma_steps(text, m5, m6, m7, term_tokens(b), seq![Tok::Close]);
    lemma_steps(text, m4, m5, m7, seq![Tok::In], t5);
    lemma_steps(text, m3, m4, m7, term_tokens(v), t4);
    lemma_steps(text, m2, m3, m7, seq![Tok::Equal], t3);
    lemma_steps(text, m1, m2, m7, seq![Tok::Id(x)], t2);
    lemma_steps(text, m0, m1, m7, seq![Tok::Open, key_tok], t1);
    assert(term_tokens(e) =~= seq![Tok::Open, key_tok] + t1);
}

/// `lemma_scan_term` for `let` and `letrec`.
pub proof fn lemma_scan_let(e: Term, text: Seq<char>, pos: nat)
    requires
        e is Let || e is LetRec,
        printable(e),
        at(text, pos, render_term(e)),
        ends_at(text, pos + render_term(e).len()),
    ensures
        scan(text, pos) == before(term_tokens(e), scan(text, pos + render_term(e).len())),
    decreases e, 0nat,
{
    let (x, v, b) = binding_parts(e);
    let head = binding_head(e);
    let m1 = pos + head.len();
    let m2 = m1 + x.len();
    let m3 = m2 + 3;
    let m4 = m3 + render_term(v).len();
    let m5 = m4 + 4;
    let m6 = m5 + render_term(b).len();
    let m7 = m6 + 1;
    lemma_let_layout(e, text, pos);
    lemma_keywords();
    lemma_scan_head(text, pos, head, binding_key(e));
    lemma_scan_sign(text, m2, " = "@, seq!['='], Tok::Equal);
    lemma_scan_link(text, m4, " in "@, "in"@);
    lemma_scan_close(text, m6);
    lemma_scan_word(text, m1, x);
    lemma_scan_term(v, text, m3);
    lemma_scan_term(b, text, m5);
    lemma_let_tokens(e, text, pos, m1, m2, m3, m4, m5, m6, m7);
}

/// Where the parts of the text of a conditional stand.
pub proof fn lemma_if_layout(e: Term, text: Seq<char>, pos: nat)
    requires
        e is If,
        at(text, pos, render_term(e)),
    ensures
        ({
            let rp = render_term(*e->If_0);
            let rc = render_term(*e->If_1);
            let rf = render_term(*e->If_2);
            let q1 = pos + 4;
            let q2 = q1 + rp.len();
            let q3 = q2 + 6;
            let q4 = q3 + rc.len();
            let q5 = q4 + 6;
            let q6 = q5 + rf.len();
            &&& render_term(e).len() == q6 + 1 - pos
            &&& "(if "@.len() == 4 && " then "@.len() == 6 && " else "@.len() == 6
            &&& "(if "@ == seq!['('] + "if"@ + seq![' ']
            &&& " then "@ == seq![' '] + "then"@ + seq![' ']
            &&& " else "@ == seq![' '] + "else"@ + seq![' ']
            &&& at(text, pos, "(if "@)
            &&& at(text, q1, rp)
            &&& at(text, q2, " then "@)
            &&& at(text, q3, rc)
            &&& at(text, q4, " else "@)
            &&& at(text, q5, rf)
            &&& at(text, q6, ")"@)
        }),
{
    let rp = render_term(*e->If_0);
    let rc = render_term(*e->If_1);
    let rf = render_term(*e->If_2);
    let tail5 = rf + ")"@;
    let tail4 = " else "@ + tail5;
    let tail3 = rc + tail4;
    let tail2 = " then "@ + tail3;
    let tail1 = rp + tail2;
    reveal_strlit("(if ");
    reveal_strlit("if");
    reveal_strlit(" then ");
    reveal_strlit("then");
    reveal_strlit(" else ");
    reveal_strlit("else");
    reveal_strlit(")");
    assert(render_term(e) =~= "(if "@ + tail1);
    assert("(if "@ =~= seq!['('] + "if"@ + seq![' ']);
    assert(" then "@ =~= seq![' '] + "then"@ + seq![' ']);
    assert(" else "@ =~= seq![' '] + "else"@ + seq![' ']);
    let q1 = pos + 4;
    let q2 = q1 + rp.len();
    let q3 = q2 + 6;
    let q4 = q3 + rc.len();
    let q5 = q4 + 6;
    lemma_at_both(text, pos, "(if "@, tail1);
    lemma_at_both(text, q1, rp, tail2);
    lemma_at_both(text, q2, " then "@, tail3);
    lemma_at_both(text, q3, rc, tail4);
    lemma_at_both(text, q4, " else "@, tail5);
    lemma_at_both(text, q5, rf, ")"@);
}

/// The tokens of the parts of a conditional make its tokens.
pub proof fn lemma_if_tokens(
    e: Term,
    text: Seq<char>,
    q0: nat,
    q1: nat,
    q2: nat,
    q3: nat,
    q4: nat,
    q5: nat,
    q6: nat,
    q7: nat,
)
    requires
        e is If,
        scan(text, q0) == before(seq![Tok::Open, Tok::If], scan(text, q1)),
        scan(text, q1) == before(term_tokens(*e->If_0), scan(text, q2)),
        scan(text, q2) == before(seq![Tok::Then], scan(text, q3)),
        scan(text, q3) == before(term_tokens(*e->If_1), scan(text, q4)),
        scan(text, q4) == before(seq![Tok::Else], scan(text, q5)),
        scan(text, q5) == before(term_tokens(*e->If_2), scan(text, q6)),
        scan(text, q6) == before(seq![Tok::Close], scan(text, q7)),
    ensures
        scan(text, q0) == before(term_tokens(e), scan(text, q7)),
{
    let t5 = term_tokens(*e->If_2) + seq![Tok::Close];
    let t4 = seq![Tok::Else] + t5;
    let t3 = term_tokens(*e->If_1) + t4;
    let t2 = seq![Tok::Then] + t3;
    let t1 = term_tokens(*e->If_0) + t2;
    lemma_steps(text, q5, q6, q7, term_tokens(*e->If_2), seq![Tok::Close]);
    lemma_steps(text, q4, q5, q7, seq![Tok::Else], t5);
    lemma_steps(text, q3, q4, q7, term_tokens(*e->If_1), t4);
    lemma_steps(text, q2, q3, q7, seq![Tok::Then], t3);
    lemma_steps(text, q1, q2, q7, term_tokens(*e->If_0), t2);
    lemma_steps(text, q0, q1, q7, seq![Tok::Open, Tok::If], t1);
    assert(term_tokens(e) =~= seq![Tok::Open, Tok::If] + t1);
}

/// `lemma_scan_term` for a conditional.
pub proof fn lemma_scan_if(e: Term, text: Seq<char>, pos: nat)
    requires
        e is If,
        printable(e),
        at(text, pos, render_term(e)),
        ends_at(text, pos + render_term(e).len()),
    ensures
        scan(text, pos) == before(term_tokens(e), scan(text, pos + render_term(e).len())),
    decreases e, 0nat,
{
    let p = *e->If_0;
    let c = *e->If_1;
    let f = *e->If_2;
    let q1 = pos + 4;
    let q2 = q1 + render_term(p).len();
    let q3 = q2 + 6;
    let q4 = q3 + render_term(c).len();
    let q5 = q4 + 6;
    let q6 = q5 + render_term(f).len();
    let q7 = q6 + 1;
    lemma_if_layout(e, text, pos);
    lemma_keywords();
    lemma_scan_head(text, pos, "(if "@, "if"@);
    lemma_scan_link(text, q2, " then "@, "then"@);
    lemma_scan_link(text, q4, " else "@, "else"@);
    lemma_scan_close(text, q6);
    lemma_scan_term(p, text, q1);
    lemma_scan_term(c, text, q3);
    lemma_scan_term(f, text, q5);
    lemma_if_tokens(e, text, pos, q1, q2, q3, q4, q5, q6, q7);
}

/// The text of an expression is parsed back to the expression, if its
/// numbers are not negative and its names are words that are no keywords.
pub proof fn lemma_print_parse(e: Term)
    requires
        printable(e),
    ensures
        parse_text(render_term(e)) == Ok::<Term, SyntaxFailure>(e),
{
    let text = render_term(e);
    assert(at(text, 0, text)) by {
        reveal(at);
        assert(text.subrange(0, text.len() as int) =~= text);
    }
    lemma_scan_term(e, text, 0);
    assert(run(text, text.len(), CharClass::Space) == 0);
    assert(lex(text, text.len()) == Ok::<Seq<(Tok, nat)>, SyntaxFailure>(Seq::empty()));
    assert(bare(Seq::<(Tok, nat)>::empty()) =~= Seq::<Tok>::empty());
    assert(term_tokens(e) + Seq::<Tok>::empty() =~= term_tokens(e));
    lemma_tokens_parse_back(e);
    lemma_lex_before(text, 0);
}

} // verus!

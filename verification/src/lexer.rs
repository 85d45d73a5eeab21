//! The tokens of the language and the lexer that cuts a text into them.

use vstd::prelude::*;
use vstd::string::StrSliceExecFns;
use vstd::utf8::{char_is_scalar, encode_scalar, encode_utf8};

verus! {

/// The mathematical model of a token.
pub enum Tok {
    /// A number.
    Num(i32),
    /// An identifier that is no keyword.
    Id(Seq<char>),
    True,
    False,
    Let,
    LetRec,
    In,
    If,
    Then,
    Else,
    Fun,
    /// `->`
    Arrow,
    /// `(`
    Open,
    /// `)`
    Close,
    /// `=`
    Equal,
    /// `<`
    Less,
    /// `>`
    Greater,
    /// `+`
    Plus,
    /// `-`
    Minus,
    /// `*`
    Star,
    /// `/`
    Slash,
    /// `&&`
    And,
    /// `||`
    Or,
}

/// A token.
#[derive(Debug, PartialEq, Eq)]
pub enum Token {
    /// A number.
    Num(i32),
    /// An identifier that is no keyword.
    Id(String),
    True,
    False,
    Let,
    LetRec,
    In,
    If,
    Then,
    Else,
    Fun,
    /// `->`
    Arrow,
    /// `(`
    Open,
    /// `)`
    Close,
    /// `=`
    Equal,
    /// `<`
    Less,
    /// `>`
    Greater,
    /// `+`
    Plus,
    /// `-`
    Minus,
    /// `*`
    Star,
    /// `/`
    Slash,
    /// `&&`
    And,
    /// `||`
    Or,
}

impl View for Token {
    type V = Tok;

    open spec fn view(&self) -> Tok {
        match self {
            Token::Num(n) => Tok::Num(*n),
            Token::Id(name) => Tok::Id(name@),
            Token::True => Tok::True,
            Token::False => Tok::False,
            Token::Let => Tok::Let,
            Token::LetRec => Tok::LetRec,
            Token::In => Tok::In,
            Token::If => Tok::If,
            Token::Then => Tok::Then,
            Token::Else => Tok::Else,
            Token::Fun => Tok::Fun,
            Token::Arrow => Tok::Arrow,
            Token::Open => Tok::Open,
            Token::Close => Tok::Close,
            Token::Equal => Tok::Equal,
            Token::Less => Tok::Less,
            Token::Greater => Tok::Greater,
            Token::Plus => Tok::Plus,
            Token::Minus => Tok::Minus,
            Token::Star => Tok::Star,
            Token::Slash => Tok::Slash,
            Token::And => Tok::And,
            Token::Or => Tok::Or,
        }
    }
}

/// The mathematical model of a syntax error. Where it speaks of the text
/// as a sequence of characters, a place is a number of characters; where it
/// stands for a `ParseError`, a place is a number of bytes.
pub enum SyntaxFailure {
    /// No token starts at this place of the text.
    InvalidToken { location: nat },
    /// The number that starts at this place is too large.
    NumberTooLarge { location: nat },
    /// The token that starts at this place cannot stand there.
    UnrecognizedToken { location: nat },
    /// The text ends where the expression cannot end.
    UnexpectedEnd,
}

/// A syntax error. A place is the number of bytes of the text, in UTF-8,
/// that stand before it.
#[derive(Debug, Clone, Copy, PartialEq, Eq)]
pub enum ParseError {
    /// No token starts at this place of the text.
    InvalidToken { location: usize },
    /// The number that starts at this place is too large.
    NumberTooLarge { location: usize },
    /// The token that starts at this place cannot stand there.
    UnrecognizedToken { location: usize },
    /// The text ends where the expression cannot end.
    UnexpectedEnd,
}

impl View for ParseError {
    type V = SyntaxFailure;

    open spec fn view(&self) -> SyntaxFailure {
        match self {
            ParseError::InvalidToken { location } => SyntaxFailure::InvalidToken {
                location: *location as nat,
            },
            ParseError::NumberTooLarge { location } => SyntaxFailure::NumberTooLarge {
                location: *location as nat,
            },
            ParseError::UnrecognizedToken { location } => SyntaxFailure::UnrecognizedToken {
                location: *location as nat,
            },
            ParseError::UnexpectedEnd => SyntaxFailure::UnexpectedEnd,
        }
    }
}

/// The classes of characters that the lexer takes in runs.
#[derive(Debug, Clone, Copy, PartialEq, Eq)]
pub enum CharClass {
    /// White space.
    Space,
    /// The decimal digits.
    Digit,
    /// The letters, the digits and the underscore.
    Word,
}

/// Whether `c` is white space.
pub open spec fn is_space(c: char) -> bool {
    ||| c == ' '
    ||| '\u{9}' <= c <= '\u{d}'
    ||| c == '\u{85}'
    ||| c == '\u{a0}'
    ||| c == '\u{1680}'
    ||| '\u{2000}' <= c <= '\u{200a}'
    ||| c == '\u{2028}'
    ||| c == '\u{2029}'
    ||| c == '\u{202f}'
    ||| c == '\u{205f}'
    ||| c == '\u{3000}'
}

/// Whether `c` is a decimal digit.
pub open spec fn is_digit(c: char) -> bool {
    '0' <= c <= '9'
}

/// Whether an identifier can start with `c`.
pub open spec fn is_word_start(c: char) -> bool {
    'a' <= c <= 'z' || 'A' <= c <= 'Z' || c == '_'
}

/// Whether `c` belongs to the class.
pub open spec fn in_class(class: CharClass, c: char) -> bool {
    match class {
        CharClass::Space => is_space(c),
        CharClass::Digit => is_digit(c),
        CharClass::Word => is_word_start(c) || is_digit(c),
    }
}

/// The number of characters of the class that follow one another from the
/// place `pos` of the text.
pub open spec fn run(text: Seq<char>, pos: nat, class: CharClass) -> nat
    decreases text.len() - pos,
{
    if pos < text.len() && in_class(class, text[pos as int]) {
        1 + run(text, pos + 1, class)
    } else {
        0
    }
}

/// The number that a sequence of decimal digits stands for.
pub open spec fn number_value(digits: Seq<char>) -> nat
    decreases digits.len(),
{
    if digits.len() == 0 {
        0
    } else {
        number_value(digits.drop_last()) * 10 + (digits.last() as nat - '0' as nat) as nat
    }
}

/// The token that a word stands for: a keyword, or else an identifier.
pub open spec fn word_token(word: Seq<char>) -> Tok {
    if word == "else"@ {
        Tok::Else
    } else if word == "false"@ {
        Tok::False
    } else if word == "fun"@ {
        Tok::Fun
    } else if word == "if"@ {
        Tok::If
    } else if word == "in"@ {
        Tok::In
    } else if word == "let"@ {
        Tok::Let
    } else if word == "letrec"@ {
        Tok::LetRec
    } else if word == "then"@ {
        Tok::Then
    } else if word == "true"@ {
        Tok::True
    } else {
        Tok::Id(word)
    }
}

/// The character at the place `pos` of the text, if the text is that long.
pub open spec fn char_at(text: Seq<char>, pos: nat) -> Option<char> {
    if pos < text.len() {
        Some(text[pos as int])
    } else {
        None
    }
}

/// The token of punctuation that starts at the place `pos` of the text,
/// with its length; the longest one where two start there.
pub open spec fn symbol_at(text: Seq<char>, pos: nat) -> Option<(Tok, nat)> {
    match char_at(text, pos) {
        Some('(') => Some((Tok::Open, 1)),
        Some(')') => Some((Tok::Close, 1)),
        Some('*') => Some((Tok::Star, 1)),
        Some('+') => Some((Tok::Plus, 1)),
        Some('/') => Some((Tok::Slash, 1)),
        Some('<') => Some((Tok::Less, 1)),
        Some('=') => Some((Tok::Equal, 1)),
        Some('>') => Some((Tok::Greater, 1)),
        Some('-') => if char_at(text, pos + 1) == Some('>') {
            Some((Tok::Arrow, 2))
        } else {
            Some((Tok::Minus, 1))
        },
        Some('&') => if char_at(text, pos + 1) == Some('&') {
            Some((Tok::And, 2))
        } else {
            None
        },
        Some('|') => if char_at(text, pos + 1) == Some('|') {
            Some((Tok::Or, 2))
        } else {
            None
        },
        _ => None,
    }
}

/// The token that starts at the place `pos` of the text, with its length:
/// the longest run of digits, the longest run of word characters, or a token
/// of punctuation.
pub open spec fn token_at(text: Seq<char>, pos: nat) -> Result<(Tok, nat), SyntaxFailure> {
    match char_at(text, pos) {
        None => Err(SyntaxFailure::InvalidToken { location: pos }),
        Some(c) => if is_digit(c) {
            let n = run(text, pos, CharClass::Digit);
            let value = number_value(text.subrange(pos as int, (pos + n) as int));
            if value > i32::MAX {
                Err(SyntaxFailure::NumberTooLarge { location: pos })
            } else {
                Ok((Tok::Num(value as i32), n))
            }
        } else if is_word_start(c) {
            let n = run(text, pos, CharClass::Word);
            Ok((word_token(text.subrange(pos as int, (pos + n) as int)), n))
        } else {
            match symbol_at(text, pos) {
                Some(found) => Ok(found),
                None => Err(SyntaxFailure::InvalidToken { location: pos }),
            }
        },
    }
}

/// The tokens of the text from the place `pos` on, each with the place
/// where it starts; white space between them is skipped. The places are
/// counted in characters.
pub open spec fn lex(text: Seq<char>, pos: nat) -> Result<Seq<(Tok, nat)>, SyntaxFailure>
    decreases text.len() - pos,
    via lex_decreases
{
    let start = pos + run(text, pos, CharClass::Space);
    if start >= text.len() {
        Ok(Seq::empty())
    } else {
        match token_at(text, start) {
            Err(f) => Err(f),
            Ok((tok, n)) => match lex(text, start + n) {
                Err(f) => Err(f),
                Ok(rest) => Ok(seq![(tok, start)] + rest),
            },
        }
    }
}

#[via_fn]
proof fn lex_decreases(text: Seq<char>, pos: nat) {
    let start = pos + run(text, pos, CharClass::Space);
    if start < text.len() {
        lemma_token_len(text, start);
    }
}

/// The tokens of the text from the place `pos` on, as far as there are
/// tokens: all of them, or those before the place where no token starts or
/// a number is too large. The places are counted in characters.
pub open spec fn lex_before(text: Seq<char>, pos: nat) -> Seq<(Tok, nat)>
    decreases text.len() - pos,
    via lex_before_decreases
{
    let start = pos + run(text, pos, CharClass::Space);
    if start >= text.len() {
        Seq::empty()
    } else {
        match token_at(text, start) {
            Err(_) => Seq::empty(),
            Ok((tok, n)) => seq![(tok, start)] + lex_before(text, start + n),
        }
    }
}

#[via_fn]
proof fn lex_before_decreases(text: Seq<char>, pos: nat) {
    let start = pos + run(text, pos, CharClass::Space);
    if start < text.len() {
        lemma_token_len(text, start);
    }
}

/// What keeps the text from the place `pos` on from being tokens, if
/// anything does.
pub open spec fn lex_failure(text: Seq<char>, pos: nat) -> Option<SyntaxFailure> {
    match lex(text, pos) {
        Ok(_) => None,
        Err(f) => Some(f),
    }
}

/// The number of bytes, in UTF-8, of the first `pos` characters of the
/// text.
pub open spec fn offset(text: Seq<char>, pos: nat) -> nat {
    encode_utf8(text.take(pos as int)).len()
}

/// The tokens with their places counted in bytes, for tokens of the text
/// with their places counted in characters.
pub open spec fn placed(text: Seq<char>, tokens: Seq<(Tok, nat)>) -> Seq<(Tok, nat)> {
    Seq::new(tokens.len(), |i: int| (tokens[i].0, offset(text, tokens[i].1)))
}

/// The syntax error with its place counted in bytes, for a syntax error of
/// the text with its place counted in characters.
pub open spec fn in_bytes(text: Seq<char>, f: SyntaxFailure) -> SyntaxFailure {
    match f {
        SyntaxFailure::InvalidToken { location } => SyntaxFailure::InvalidToken {
            location: offset(text, location),
        },
        SyntaxFailure::NumberTooLarge { location } => SyntaxFailure::NumberTooLarge {
            location: offset(text, location),
        },
        SyntaxFailure::UnrecognizedToken { location } => SyntaxFailure::UnrecognizedToken {
            location: offset(text, location),
        },
        SyntaxFailure::UnexpectedEnd => SyntaxFailure::UnexpectedEnd,
    }
}

/// Where a text is tokens from a place on, the tokens as far as there are
/// tokens are all of them.
pub proof fn lemma_lex_before(text: Seq<char>, pos: nat)
    ensures
        lex(text, pos) matches Ok(tokens) ==> lex_before(text, pos) == tokens,
    decreases text.len() - pos,
{
    let start = pos + run(text, pos, CharClass::Space);
    if start < text.len() {
        lemma_token_len(text, start);
        if let Ok((_, n)) = token_at(text, start) {
            lemma_lex_before(text, start + n);
        }
    }
}

/// The bytes of a text with one more character are the bytes of the text
/// and then those of the character.
pub proof fn lemma_encode_push(chars: Seq<char>, c: char)
    ensures
        encode_utf8(chars.push(c)) == encode_utf8(chars) + encode_scalar(c as u32),
    decreases chars.len(),
{
    let longer = chars.push(c);
    let none = Seq::<char>::empty();
    assert(encode_utf8(none) =~= Seq::<u8>::empty());
    assert(encode_utf8(longer) == encode_scalar(longer[0] as u32) + encode_utf8(
        longer.drop_first(),
    ));
    if chars.len() == 0 {
        assert(chars =~= none);
        assert(longer.drop_first() =~= none);
        assert(encode_utf8(longer) =~= encode_utf8(chars) + encode_scalar(c as u32));
    } else {
        assert(longer.drop_first() =~= chars.drop_first().push(c));
        lemma_encode_push(chars.drop_first(), c);
        assert(encode_utf8(chars) == encode_scalar(chars[0] as u32) + encode_utf8(
            chars.drop_first(),
        ));
        assert(encode_utf8(longer) =~= encode_utf8(chars) + encode_scalar(c as u32));
    }
}

/// The bytes before a place and those of the character at the place are
/// the bytes before the next place.
pub proof fn lemma_offset_step(text: Seq<char>, pos: nat)
    requires
        pos < text.len(),
    ensures
        offset(text, pos + 1) == offset(text, pos) + encode_scalar(text[pos as int] as u32).len(),
{
    assert(text.take((pos + 1) as int) =~= text.take(pos as int).push(text[pos as int]));
    lemma_encode_push(text.take(pos as int), text[pos as int]);
}

/// No more bytes stand before a place than before a later one.
pub proof fn lemma_offset_grows(text: Seq<char>, pos: nat, later: nat)
    requires
        pos <= later <= text.len(),
    ensures
        offset(text, pos) <= offset(text, later),
    decreases later - pos,
{
    if pos < later {
        lemma_offset_step(text, pos);
        lemma_offset_grows(text, pos + 1, later);
    }
}

/// The number of bytes of a character in UTF-8.
pub fn char_width(c: char) -> (w: usize)
    ensures
        w == encode_scalar(c as u32).len(),
        1 <= w <= 4,
{
    proof {
        char_is_scalar(c);
    }
    let v = c as u32;
    if v < 0x80 {
        1
    } else if v < 0x800 {
        2
    } else if v < 0x10000 {
        3
    } else {
        4
    }
}

/// For each place of the text, and for its end, the number of bytes that
/// stand before it.
pub fn offsets_of(input: &str, text: &Vec<char>) -> (table: Vec<usize>)
    requires
        text@ == input@,
    ensures
        table.len() == text.len() + 1,
        forall|i: int| 0 <= i <= text.len() ==> #[trigger] table@[i] == offset(text@, i as nat),
{
    let total = input.as_bytes().len();
    assert(text@.take(text.len() as int) =~= text@);
    assert(offset(text@, text.len() as nat) == total);
    assert(text@.take(0) =~= Seq::<char>::empty());
    let mut table: Vec<usize> = Vec::new();
    let mut at: usize = 0;
    let mut i: usize = 0;
    table.push(at);
    while i < text.len()
        invariant
            i <= text.len(),
            offset(text@, text.len() as nat) == total,
            at == offset(text@, i as nat),
            table.len() == i + 1,
            forall|j: int| 0 <= j <= i ==> #[trigger] table@[j] == offset(text@, j as nat),
        decreases text.len() - i,
    {
        proof {
            lemma_offset_step(text@, i as nat);
            lemma_offset_grows(text@, (i + 1) as nat, text.len() as nat);
        }
        at = at + char_width(text[i]);
        i += 1;
        table.push(at);
    }
    table
}

/// A run ends within the text.
pub proof fn lemma_run_bound(text: Seq<char>, pos: nat, class: CharClass)
    requires
        pos <= text.len(),
    ensures
        pos + run(text, pos, class) <= text.len(),
    decreases text.len() - pos,
{
    if pos < text.len() && in_class(class, text[pos as int]) {
        lemma_run_bound(text, pos + 1, class);
    }
}

/// A token has at least one character and ends within the text.
pub proof fn lemma_token_len(text: Seq<char>, pos: nat)
    requires
        pos < text.len(),
    ensures
        token_at(text, pos) matches Ok((_, n)) ==> 1 <= n && pos + n <= text.len(),
{
    lemma_run_bound(text, pos, CharClass::Digit);
    lemma_run_bound(text, pos, CharClass::Word);
}

/// A number grows with each digit that is added to it.
pub proof fn lemma_number_grows(text: Seq<char>, pos: int, i: int, n: int)
    requires
        0 <= pos,
        0 <= i <= n,
        pos + n <= text.len(),
    ensures
        number_value(text.subrange(pos, pos + i)) <= number_value(text.subrange(pos, pos + n)),
    decreases n - i,
{
    if i < n {
        lemma_number_grows(text, pos, i + 1, n);
        assert(text.subrange(pos, pos + i + 1).drop_last() =~= text.subrange(pos, pos + i));
    }
}

/// The characters of a text.
pub fn chars_of(input: &str) -> (text: Vec<char>)
    ensures
        text@ == input@,
{
    let mut text: Vec<char> = Vec::new();
    for c in it: input.chars()
        invariant
            it.seq() == input@,
            text@ == it.seq().take(it.index()),
            it.index() == it.seq().len() ==> text@ == input@,
    {
        text.push(c);
        assert(text@ =~= it.seq().take(it.index() + 1));
        assert(it.index() + 1 == it.seq().len() ==> text@ =~= input@);
    }
    text
}

/// Whether `c` belongs to the class.
pub fn classify(class: CharClass, c: char) -> (b: bool)
    ensures
        b == in_class(class, c),
{
    match class {
        CharClass::Space => c == ' ' || (c >= '\u{9}' && c <= '\u{d}') || c == '\u{85}' || c
            == '\u{a0}' || c == '\u{1680}' || (c >= '\u{2000}' && c <= '\u{200a}') || c
            == '\u{2028}' || c == '\u{2029}' || c == '\u{202f}' || c == '\u{205f}' || c
            == '\u{3000}',
        CharClass::Digit => c >= '0' && c <= '9',
        CharClass::Word => (c >= 'a' && c <= 'z') || (c >= 'A' && c <= 'Z') || c == '_' || (c
            >= '0' && c <= '9'),
    }
}

/// The number of characters of the class that follow one another from the
/// place `pos` of the text.
pub(crate) fn scan_run(text: &Vec<char>, pos: usize, class: CharClass) -> (n: usize)
    requires
        pos <= text.len(),
    ensures
        n == run(text@, pos as nat, class),
        pos + n <= text.len(),
{
    let mut n: usize = 0;
    while pos + n < text.len() && classify(class, text[pos + n])
        invariant
            pos + n <= text.len(),
            run(text@, pos as nat, class) == n + run(text@, (pos + n) as nat, class),
        decreases text.len() - pos - n,
    {
        n += 1;
    }
    n
}

/// The number that the `n` digits from the place `pos` of the text stand
/// for, if it is no larger than the largest `i32`.
pub(crate) fn scan_number(text: &Vec<char>, pos: usize, n: usize) -> (value: Option<i32>)
    requires
        pos + n <= text.len(),
        forall|i: int| pos <= i < pos + n ==> is_digit(#[trigger] text@[i]),
    ensures
        match value {
            Some(v) => v == number_value(text@.subrange(pos as int, pos + n)),
            None => number_value(text@.subrange(pos as int, pos + n)) > i32::MAX,
        },
{
    let mut acc: u32 = 0;
    let mut i: usize = 0;
    while i < n
        invariant
            i <= n,
            pos + n <= text.len(),
            forall|i: int| pos <= i < pos + n ==> is_digit(#[trigger] text@[i]),
            acc == number_value(text@.subrange(pos as int, pos + i)),
            acc <= i32::MAX,
        decreases n - i,
    {
        let c = text[pos + i];
        assert(is_digit(text@[pos + i]));
        let d = c as u32 - '0' as u32;
        proof {
            let next = text@.subrange(pos as int, pos + i + 1);
            assert(next.drop_last() =~= text@.subrange(pos as int, pos + i));
            assert(next.last() == c);
        }
        if acc > (i32::MAX as u32 - d) / 10 {
            proof {
                lemma_number_grows(text@, pos as int, i + 1, n as int);
            }
            return None;
        }
        acc = acc * 10 + d;
        i += 1;
    }
    Some(acc as i32)
}

/// The token that a word stands for: a keyword, or else an identifier.
pub fn keyword_or_id(word: String) -> (token: Token)
    ensures
        token@ == word_token(word@),
{
    if word == "else".to_owned() {
        Token::Else
    } else if word == "false".to_owned() {
        Token::False
    } else if word == "fun".to_owned() {
        Token::Fun
    } else if word == "if".to_owned() {
        Token::If
    } else if word == "in".to_owned() {
        Token::In
    } else if word == "let".to_owned() {
        Token::Let
    } else if word == "letrec".to_owned() {
        Token::LetRec
    } else if word == "then".to_owned() {
        Token::Then
    } else if word == "true".to_owned() {
        Token::True
    } else {
        Token::Id(word)
    }
}

/// Whether the character `c` stands at the place `pos` of the text.
pub fn has_char(text: &Vec<char>, pos: usize, c: char) -> (b: bool)
    ensures
        b == (char_at(text@, pos as nat) == Some(c)),
{
    pos < text.len() && text[pos] == c
}

/// The token of punctuation that starts at the place `pos` of the text,
/// with its length.
pub(crate) fn scan_symbol(text: &Vec<char>, pos: usize) -> (found: Option<(Token, usize)>)
    requires
        pos < text.len(),
    ensures
        match symbol_at(text@, pos as nat) {
            Some((tok, n)) => found matches Some((token, len)) && token@ == tok && len == n,
            None => found is None,
        },
{
    let c = text[pos];
    if c == '(' {
        Some((Token::Open, 1))
    } else if c == ')' {
        Some((Token::Close, 1))
    } else if c == '*' {
        Some((Token::Star, 1))
    } else if c == '+' {
        Some((Token::Plus, 1))
    } else if c == '/' {
        Some((Token::Slash, 1))
    } else if c == '<' {
        Some((Token::Less, 1))
    } else if c == '=' {
        Some((Token::Equal, 1))
    } else if c == '>' {
        Some((Token::Greater, 1))
    } else if c == '-' {
        if has_char(text, pos + 1, '>') {
            Some((Token::Arrow, 2))
        } else {
            Some((Token::Minus, 1))
        }
    } else if c == '&' {
        if has_char(text, pos + 1, '&') {
            Some((Token::And, 2))
        } else {
            None
        }
    } else if c == '|' {
        if has_char(text, pos + 1, '|') {
            Some((Token::Or, 2))
        } else {
            None
        }
    } else {
        None
    }
}

/// Every character of a run belongs to its class.
pub proof fn lemma_run_members(text: Seq<char>, pos: nat, class: CharClass, i: int)
    requires
        pos <= i < pos + run(text, pos, class),
    ensures
        i < text.len(),
        in_class(class, text[i]),
    decreases i - pos,
{
    if i > pos {
        lemma_run_members(text, pos + 1, class, i);
    }
}

/// The token that starts at the place `pos` of the text, with its length
/// in characters; `place` is the number of bytes before it.
pub(crate) fn scan_token(input: &str, text: &Vec<char>, pos: usize, place: usize) -> (found:
    Result<(Token, usize), ParseError>)
    requires
        text@ == input@,
        pos < text.len(),
        place == offset(text@, pos as nat),
    ensures
        match token_at(text@, pos as nat) {
            Ok((tok, n)) => found matches Ok((token, len)) && token@ == tok && len == n && 1 <= n
                && pos + n <= text.len(),
            Err(f) => found matches Err(e) && e@ == in_bytes(text@, f),
        },
{
    proof {
        lemma_token_len(text@, pos as nat);
    }
    let c = text[pos];
    if classify(CharClass::Digit, c) {
        let n = scan_run(text, pos, CharClass::Digit);
        assert forall|i: int| pos <= i < pos + n implies is_digit(#[trigger] text@[i]) by {
            lemma_run_members(text@, pos as nat, CharClass::Digit, i);
        }
        match scan_number(text, pos, n) {
            Some(v) => Ok((Token::Num(v), n)),
            None => Err(ParseError::NumberTooLarge { location: place }),
        }
    } else if classify(CharClass::Word, c) {
        let n = scan_run(text, pos, CharClass::Word);
        let word = input.substring_char(pos, pos + n).to_owned();
        Ok((keyword_or_id(word), n))
    } else {
        match scan_symbol(text, pos) {
            Some(found) => Ok(found),
            None => Err(ParseError::InvalidToken { location: place }),
        }
    }
}

/// The tokens with their places that a list of tokens with their places
/// stands for.
pub open spec fn tokens_view(tokens: Seq<(Token, usize)>) -> Seq<(Tok, nat)> {
    Seq::new(tokens.len(), |i: int| (tokens[i].0@, tokens[i].1 as nat))
}

/// The tokens of the text as far as there are tokens, each with the place
/// where it starts, and what keeps the rest of the text from being tokens,
/// if anything does.
pub fn tokenize(input: &str) -> (r: (Vec<(Token, usize)>, Option<ParseError>))
    ensures
        tokens_view(r.0@) == placed(input@, lex_before(input@, 0)),
        match lex_failure(input@, 0) {
            None => r.1 is None,
            Some(f) => r.1 matches Some(e) && e@ == in_bytes(input@, f),
        },
{
    let text = chars_of(input);
    let table = offsets_of(input, &text);
    let mut found: Vec<(Token, usize)> = Vec::new();
    let mut pos: usize = 0;
    let ghost mut done: Seq<(Tok, nat)> = Seq::empty();
    assert(tokens_view(found@) =~= placed(text@, done));
    assert(done + lex_before(text@, 0) =~= lex_before(text@, 0));
    loop
        invariant
            pos <= text.len(),
            text@ == input@,
            table.len() == text.len() + 1,
            forall|i: int| 0 <= i <= text.len() ==> #[trigger] table@[i] == offset(text@, i as nat),
            tokens_view(found@) == placed(text@, done),
            lex_before(text@, 0) == done + lex_before(text@, pos as nat),
            lex_failure(text@, 0) == lex_failure(text@, pos as nat),
        decreases text.len() - pos,
    {
        let start = pos + scan_run(&text, pos, CharClass::Space);
        if start >= text.len() {
            assert(done + Seq::<(Tok, nat)>::empty() =~= done);
            return (found, None);
        }
        match scan_token(input, &text, start, table[start]) {
            Err(e) => {
                assert(done + Seq::<(Tok, nat)>::empty() =~= done);
                return (found, Some(e));
            },
            Ok((token, n)) => {
                let ghost before = done;
                let ghost earlier = found@;
                let ghost tok = token@;
                found.push((token, table[start]));
                proof {
                    done = before.push((tok, start as nat));
                    assert(tokens_view(earlier).len() == before.len());
                    assert forall|i: int| 0 <= i < done.len() implies tokens_view(found@)[i]
                        == placed(text@, done)[i] by {
                        if i < before.len() {
                            assert(tokens_view(earlier)[i] == placed(text@, before)[i]);
                            assert(found@[i] == earlier[i]);
                            assert(done[i] == before[i]);
                        }
                    }
                    assert(tokens_view(found@) =~= placed(text@, done));
                    assert(before + (seq![(tok, start as nat)] + lex_before(
                        text@,
                        (start + n) as nat,
                    )) =~= done + lex_before(text@, (start + n) as nat));
                }
                pos = start + n;
            },
        }
    }
}

} // verus!

//! The lexer: source text to tokens.
//!
//! [`Lexer::tokenize`] turns a string into the token sequence given by the
//! specification function [`spec_tokenize`], which works over the string's
//! characters.  Character classification relies on the standard library;
//! what it returns is named by the `char_is_*` specification functions,
//! pinned down exactly on the ASCII range.

use vstd::prelude::*;
use vstd::std_specs::iter::IteratorSpec;
use vstd::string::StringExecFns;

verus! {

broadcast use vstd::string::group_string_axioms;

/// One token of the language.
#[derive(Debug, PartialEq, Eq)]
pub enum Token {
    Id(String),
    Int(i32),
    Equals,
    LessThan,
    GreaterThan,
    Keyword(String),
    Plus,
    Minus,
    Mult,
    Div,
    Mod,
    Semicolon,
    LParen,
    RParen,
    LBrace,
    RBrace,
}

impl Clone for Token {
    /// A copy that is equal (as a value) to the original.
    fn clone(&self) -> (res: Self)
        ensures
            res == *self,
    {
        match self {
            Token::Id(s) => Token::Id(s.clone()),
            Token::Int(n) => Token::Int(*n),
            Token::Equals => Token::Equals,
            Token::LessThan => Token::LessThan,
            Token::GreaterThan => Token::GreaterThan,
            Token::Keyword(s) => Token::Keyword(s.clone()),
            Token::Plus => Token::Plus,
            Token::Minus => Token::Minus,
            Token::Mult => Token::Mult,
            Token::Div => Token::Div,
            Token::Mod => Token::Mod,
            Token::Semicolon => Token::Semicolon,
            Token::LParen => Token::LParen,
            Token::RParen => Token::RParen,
            Token::LBrace => Token::LBrace,
            Token::RBrace => Token::RBrace,
        }
    }
}

/// The specification-level content of a token: identifiers and keywords are
/// reduced to their character sequences.
pub enum TokenView {
    IdV(Seq<char>),
    IntV(i32),
    EqualsV,
    LessThanV,
    GreaterThanV,
    KeywordV(Seq<char>),
    PlusV,
    MinusV,
    MultV,
    DivV,
    ModV,
    SemicolonV,
    LParenV,
    RParenV,
    LBraceV,
    RBraceV,
}

/// The content of a token.
pub open spec fn token_view(t: Token) -> TokenView {
    match t {
        Token::Id(s) => TokenView::IdV(s@),
        Token::Int(n) => TokenView::IntV(n),
        Token::Equals => TokenView::EqualsV,
        Token::LessThan => TokenView::LessThanV,
        Token::GreaterThan => TokenView::GreaterThanV,
        Token::Keyword(s) => TokenView::KeywordV(s@),
        Token::Plus => TokenView::PlusV,
        Token::Minus => TokenView::MinusV,
        Token::Mult => TokenView::MultV,
        Token::Div => TokenView::DivV,
        Token::Mod => TokenView::ModV,
        Token::Semicolon => TokenView::SemicolonV,
        Token::LParen => TokenView::LParenV,
        Token::RParen => TokenView::RParenV,
        Token::LBrace => TokenView::LBraceV,
        Token::RBrace => TokenView::RBraceV,
    }
}

/// The contents of a token sequence.
pub open spec fn tokens_view(ts: Seq<Token>) -> Seq<TokenView> {
    Seq::new(ts.len(), |i: int| token_view(ts[i]))
}

/// The content of an optional token.
pub open spec fn opt_token_view(t: Option<Token>) -> Option<TokenView> {
    match t {
        Some(t) => Some(token_view(t)),
        None => None,
    }
}

/// What `char::is_whitespace` returns; a function of the character alone.
pub uninterp spec fn char_is_whitespace(c: char) -> bool;

/// What `char::is_alphabetic` returns; a function of the character alone.
pub uninterp spec fn char_is_alphabetic(c: char) -> bool;

/// What `char::is_numeric` returns; a function of the character alone.
pub uninterp spec fn char_is_numeric(c: char) -> bool;

/// Whitespace within the ASCII range: U+0009 to U+000D and the space.
pub open spec fn ascii_ws(c: char) -> bool {
    c == ' ' || c == '\t' || c == '\n' || c == '\r' || c == '\u{b}' || c == '\u{c}'
}

/// A letter within the ASCII range.
pub open spec fn ascii_alpha(c: char) -> bool {
    ('a' as int) <= (c as int) && (c as int) <= ('z' as int) || ('A' as int) <= (c as int) && (
    c as int) <= ('Z' as int)
}

/// The value of an ASCII digit character, or -1 for any other character.
pub open spec fn digit_val(c: char) -> int {
    if c == '0' {
        0
    } else if c == '1' {
        1
    } else if c == '2' {
        2
    } else if c == '3' {
        3
    } else if c == '4' {
        4
    } else if c == '5' {
        5
    } else if c == '6' {
        6
    } else if c == '7' {
        7
    } else if c == '8' {
        8
    } else if c == '9' {
        9
    } else {
        -1
    }
}

/// A digit within the ASCII range.
pub open spec fn ascii_digit(c: char) -> bool {
    digit_val(c) >= 0
}

/// The value of an ASCII digit character, when it is one.
fn digit_of(c: char) -> (r: Option<u64>)
    ensures
        r is Some <==> ascii_digit(c),
        r is Some ==> r->0 == digit_val(c),
{
    if c == '0' {
        Some(0)
    } else if c == '1' {
        Some(1)
    } else if c == '2' {
        Some(2)
    } else if c == '3' {
        Some(3)
    } else if c == '4' {
        Some(4)
    } else if c == '5' {
        Some(5)
    } else if c == '6' {
        Some(6)
    } else if c == '7' {
        Some(7)
    } else if c == '8' {
        Some(8)
    } else if c == '9' {
        Some(9)
    } else {
        None
    }
}

/// Relies on `char::is_whitespace`.  On the ASCII range it holds exactly
/// for the characters U+0009 to U+000D and the space.
#[verifier::external_body]
fn is_whitespace_char(c: char) -> (r: bool)
    ensures
        r == char_is_whitespace(c),
        (c as int) < 128 ==> r == ascii_ws(c),
{
    c.is_whitespace()
}

/// Relies on `char::is_alphabetic`.  On the ASCII range it holds exactly
/// for the letters `a`-`z` and `A`-`Z`.
#[verifier::external_body]
fn is_alphabetic_char(c: char) -> (r: bool)
    ensures
        r == char_is_alphabetic(c),
        (c as int) < 128 ==> r == ascii_alpha(c),
{
    c.is_alphabetic()
}

/// Relies on `char::is_numeric`.  On the ASCII range it holds exactly for
/// the digits `0`-`9`.
#[verifier::external_body]
fn is_numeric_char(c: char) -> (r: bool)
    ensures
        r == char_is_numeric(c),
        (c as int) < 128 ==> r == ascii_digit(c),
{
    c.is_numeric()
}

/// Relies on `char::is_alphanumeric`, which holds exactly when
/// `char::is_alphabetic` or `char::is_numeric` does.
#[verifier::external_body]
fn is_alphanumeric_char(c: char) -> (r: bool)
    ensures
        r == (char_is_alphabetic(c) || char_is_numeric(c)),
{
    c.is_alphanumeric()
}

/// Relies on `String::from_iter` over characters: the string holds exactly
/// the given characters.
#[verifier::external_body]
pub(crate) fn chars_to_string(cs: &Vec<char>) -> (r: String)
    ensures
        r@ == cs@,
{
    cs.iter().collect()
}

/// The token a single delimiter or operator character denotes, if any.
pub open spec fn spec_char_token(c: char) -> Option<TokenView> {
    if c == ';' {
        Some(TokenView::SemicolonV)
    } else if c == '=' {
        Some(TokenView::EqualsV)
    } else if c == '+' {
        Some(TokenView::PlusV)
    } else if c == '-' {
        Some(TokenView::MinusV)
    } else if c == '*' {
        Some(TokenView::MultV)
    } else if c == '/' {
        Some(TokenView::DivV)
    } else if c == '%' {
        Some(TokenView::ModV)
    } else if c == '(' {
        Some(TokenView::LParenV)
    } else if c == ')' {
        Some(TokenView::RParenV)
    } else if c == '<' {
        Some(TokenView::LessThanV)
    } else if c == '{' {
        Some(TokenView::LBraceV)
    } else if c == '}' {
        Some(TokenView::RBraceV)
    } else {
        None
    }
}

/// The token a word denotes: one of the five keywords, or an identifier.
pub open spec fn spec_word_token(w: Seq<char>) -> TokenView {
    if w == "if"@ || w == "return"@ || w == "while"@ || w == "break"@ || w == "do"@ {
        TokenView::KeywordV(w)
    } else {
        TokenView::IdV(w)
    }
}

fn char_to_token(c: char) -> (r: Option<Token>)
    ensures
        opt_token_view(r) == spec_char_token(c),
{
    match c {
        ';' => Some(Token::Semicolon),
        '=' => Some(Token::Equals),
        '+' => Some(Token::Plus),
        '-' => Some(Token::Minus),
        '*' => Some(Token::Mult),
        '/' => Some(Token::Div),
        '%' => Some(Token::Mod),
        '(' => Some(Token::LParen),
        ')' => Some(Token::RParen),
        '<' => Some(Token::LessThan),
        '{' => Some(Token::LBrace),
        '}' => Some(Token::RBrace),
        _ => None,
    }
}

fn string_to_token(s: &str) -> (r: Option<Token>)
    ensures
        opt_token_view(r) == Some(spec_word_token(s@)),
{
    let w = s.to_owned();
    if w.eq(&String::from_str("if")) || w.eq(&String::from_str("return")) || w.eq(
        &String::from_str("while"),
    ) || w.eq(&String::from_str("break")) || w.eq(&String::from_str("do")) {
        Some(Token::Keyword(w))
    } else {
        Some(Token::Id(w))
    }
}

/// The characters with every leading whitespace character removed.
pub open spec fn spec_skip_ws(cs: Seq<char>) -> Seq<char>
    decreases cs.len(),
{
    if cs.len() == 0 {
        cs
    } else if char_is_whitespace(cs[0]) {
        spec_skip_ws(cs.drop_first())
    } else {
        cs
    }
}

/// The length of the maximal numeric prefix.
pub open spec fn numeric_prefix_len(cs: Seq<char>) -> nat
    decreases cs.len(),
{
    if cs.len() == 0 || !char_is_numeric(cs[0]) {
        0
    } else {
        1 + numeric_prefix_len(cs.drop_first())
    }
}

/// The length of the maximal alphanumeric prefix.
pub open spec fn alnum_prefix_len(cs: Seq<char>) -> nat
    decreases cs.len(),
{
    if cs.len() == 0 || !(char_is_alphabetic(cs[0]) || char_is_numeric(cs[0])) {
        0
    } else {
        1 + alnum_prefix_len(cs.drop_first())
    }
}

/// Whether every character is an ASCII digit.
pub open spec fn all_ascii_digits(ds: Seq<char>) -> bool {
    forall|i: int| 0 <= i < ds.len() ==> ascii_digit(#[trigger] ds[i])
}

/// The value of a sequence of ASCII digits.
pub open spec fn digits_value(ds: Seq<char>) -> int
    decreases ds.len(),
{
    if ds.len() == 0 {
        0
    } else {
        digits_value(ds.drop_last()) * 10 + digit_val(ds.last())
    }
}

/// What parsing a collected digit word as an `i32` yields: the decimal
/// value when the word is one or more ASCII digits and the value fits,
/// nothing otherwise.
pub open spec fn spec_parse_i32(ds: Seq<char>) -> Option<i32> {
    if ds.len() == 0 || !all_ascii_digits(ds) {
        None
    } else if digits_value(ds) <= i32::MAX as int {
        Some(digits_value(ds) as i32)
    } else {
        None
    }
}

/// The next token of a character sequence and the characters left after
/// it: leading whitespace is dropped; a leading letter starts a keyword or
/// identifier, a leading numeric character an integer literal, and any
/// other non-alphanumeric character is a delimiter or operator (or nothing,
/// on foreign characters, which ends the token stream).
pub open spec fn spec_next_token(cs: Seq<char>) -> (Option<TokenView>, Seq<char>) {
    let t = spec_skip_ws(cs);
    if t.len() == 0 {
        (None, t)
    } else if char_is_alphabetic(t[0]) {
        let p = alnum_prefix_len(t) as int;
        (Some(spec_word_token(t.take(p))), t.skip(p))
    } else if char_is_numeric(t[0]) {
        let p = numeric_prefix_len(t) as int;
        (
            match spec_parse_i32(t.take(p)) {
                Some(v) => Some(TokenView::IntV(v)),
                None => None,
            },
            t.skip(p),
        )
    } else {
        (spec_char_token(t[0]), t.drop_first())
    }
}

/// The token sequence of a character sequence: tokens are taken until
/// [`spec_next_token`] yields nothing.
pub open spec fn spec_tokenize(cs: Seq<char>) -> Seq<TokenView>
    decreases cs.len(),
{
    let (tv, rest) = spec_next_token(cs);
    match tv {
        None => seq![],
        Some(tv0) => if rest.len() < cs.len() {
            seq![tv0] + spec_tokenize(rest)
        } else {
            seq![tv0]
        },
    }
}

/// Skipping whitespace never lengthens the sequence, and the result is a
/// suffix whose head, if any, is not whitespace.
proof fn lemma_skip_ws(cs: Seq<char>)
    ensures
        spec_skip_ws(cs).len() <= cs.len(),
        spec_skip_ws(cs).len() > 0 ==> !char_is_whitespace(spec_skip_ws(cs)[0]),
    decreases cs.len(),
{
    if cs.len() > 0 && char_is_whitespace(cs[0]) {
        lemma_skip_ws(cs.drop_first());
    }
}

/// A maximal prefix is never longer than the whole.
proof fn lemma_prefix_len_bounds(cs: Seq<char>)
    ensures
        numeric_prefix_len(cs) <= cs.len(),
        alnum_prefix_len(cs) <= cs.len(),
    decreases cs.len(),
{
    if cs.len() > 0 {
        lemma_prefix_len_bounds(cs.drop_first());
    }
}

/// A produced token consumes at least one character.
proof fn lemma_next_token_shrinks(cs: Seq<char>)
    requires
        spec_next_token(cs).0 is Some,
    ensures
        spec_next_token(cs).1.len() < cs.len(),
{
    lemma_skip_ws(cs);
    lemma_prefix_len_bounds(spec_skip_ws(cs));
    let t = spec_skip_ws(cs);
    if char_is_alphabetic(t[0]) {
        assert(alnum_prefix_len(t) >= 1);
    } else if char_is_numeric(t[0]) {
        assert(numeric_prefix_len(t) >= 1);
    }
}

/// The whole is at least as large as any of its digit prefixes, and digit
/// values are never negative.
proof fn lemma_digits_value_monotone(ds: Seq<char>, k: int)
    requires
        all_ascii_digits(ds),
        0 <= k <= ds.len(),
    ensures
        digits_value(ds.take(k)) >= 0,
        digits_value(ds) >= digits_value(ds.take(k)),
    decreases ds.len() - k,
{
    assert(all_ascii_digits(ds.take(k))) by {
        assert forall|i: int| 0 <= i < k implies ascii_digit(#[trigger] ds.take(k)[i]) by {
            assert(ascii_digit(ds[i]));
        };
    };
    lemma_digits_value_nonneg(ds.take(k));
    if k < ds.len() {
        lemma_digits_value_monotone(ds, k + 1);
        assert(ds.take(k + 1).drop_last() =~= ds.take(k));
        assert(ds.take(k + 1).last() == ds[k]);
        assert(ascii_digit(ds[k]));
        assert(digits_value(ds.take(k + 1)) == digits_value(ds.take(k)) * 10 + digit_val(ds[k]));
        assert(digits_value(ds.take(k)) * 10 >= digits_value(ds.take(k))) by (nonlinear_arith)
            requires
                digits_value(ds.take(k)) >= 0,
        ;
    } else {
        assert(ds.take(k) =~= ds);
    }
}

/// The value of a digit sequence is never negative.
proof fn lemma_digits_value_nonneg(ds: Seq<char>)
    requires
        all_ascii_digits(ds),
    ensures
        digits_value(ds) >= 0,
    decreases ds.len(),
{
    if ds.len() > 0 {
        assert(all_ascii_digits(ds.drop_last())) by {
            assert forall|i: int| 0 <= i < ds.len() - 1 implies ascii_digit(
                #[trigger] ds.drop_last()[i],
            ) by {
                assert(ascii_digit(ds[i]));
            };
        };
        lemma_digits_value_nonneg(ds.drop_last());
        assert(ascii_digit(ds.last()));
        assert(digits_value(ds.drop_last()) * 10 >= 0) by (nonlinear_arith)
            requires
                digits_value(ds.drop_last()) >= 0,
        ;
    }
}

/// Parses a collected digit word as an `i32`, exactly as
/// [`spec_parse_i32`] describes.
#[verifier::loop_isolation(false)]
fn parse_i32_chars(ds: &Vec<char>) -> (r: Option<i32>)
    ensures
        r == spec_parse_i32(ds@),
{
    if ds.len() == 0 {
        return None;
    }
    let mut acc: u64 = 0;
    let mut i: usize = 0;
    proof {
        assert(ds@.take(0) =~= Seq::<char>::empty());
    }
    while i < ds.len()
        invariant
            i <= ds@.len(),
            all_ascii_digits(ds@.take(i as int)),
            acc == digits_value(ds@.take(i as int)),
            acc <= i32::MAX as u64,
        decreases ds@.len() - i,
    {
        let dig = digit_of(ds[i]);
        let d: u64;
        match dig {
            Some(d0) => {
                d = d0;
            },
            None => {
                proof {
                    assert(!ascii_digit(ds@[i as int]));
                    assert(!all_ascii_digits(ds@));
                }
                return None;
            },
        }
        let next = acc * 10 + d;
        proof {
            assert(ds@.take(i as int + 1).drop_last() =~= ds@.take(i as int));
            assert(ds@.take(i as int + 1).last() == ds@[i as int]);
            assert(all_ascii_digits(ds@.take(i as int + 1))) by {
                assert forall|q: int| 0 <= q < i + 1 implies ascii_digit(
                    #[trigger] ds@.take(i as int + 1)[q],
                ) by {
                    if q < i {
                        assert(ascii_digit(ds@.take(i as int)[q]));
                    }
                };
            };
            assert(next == digits_value(ds@.take(i as int + 1)));
        }
        if next > i32::MAX as u64 {
            proof {
                if all_ascii_digits(ds@) {
                    lemma_digits_value_monotone(ds@, i as int + 1);
                    assert(digits_value(ds@) > i32::MAX as int);
                }
            }
            return None;
        }
        acc = next;
        i += 1;
    }
    proof {
        assert(ds@.take(ds@.len() as int) =~= ds@);
        assert(acc == digits_value(ds@));
    }
    Some(acc as i32)
}

/// The characters of a string, in order.
fn str_chars(s: &str) -> (r: Vec<char>)
    ensures
        r@ == s@,
{
    let mut r: Vec<char> = Vec::new();
    let mut it = s.chars();
    loop
        invariant
            r@ + it.remaining() =~= s@,
        decreases s@.len() - r@.len(),
    {
        let ghost pre = it.remaining();
        match it.next() {
            Some(c) => {
                r.push(c);
                proof {
                    assert(r@ + it.remaining() =~= s@);
                }
            },
            None => {
                proof {
                    assert(pre.len() == 0);
                    assert(r@ =~= s@);
                }
                return r;
            },
        }
    }
}

/// The lexer: the characters of the input and the position of the current
/// one.
pub struct Lexer {
    pub chars: Vec<char>,
    pub pos: usize,
}

impl Lexer {
    /// The characters not yet consumed, the current one first.
    pub open spec fn pending(&self) -> Seq<char> {
        self.chars@.skip(self.pos as int)
    }

    /// The position never passes the end of the input.
    pub open spec fn wf(&self) -> bool {
        self.pos <= self.chars@.len()
    }

    /// A lexer over the given text, positioned on its first character.
    pub fn new(input: &str) -> (lx: Self)
        ensures
            lx.wf(),
            lx.pending() == input@,
    {
        let chars = str_chars(input);
        let lx = Lexer { chars, pos: 0 };
        proof {
            assert(lx.pending() =~= input@);
        }
        lx
    }

    /// Steps past the current character (no change at the end of the
    /// input).
    pub fn advance(&mut self)
        requires
            old(self).wf(),
        ensures
            final(self).wf(),
            final(self).chars == old(self).chars,
            old(self).pending().len() > 0 ==> final(self).pending() == old(
                self,
            ).pending().drop_first(),
            old(self).pending().len() == 0 ==> final(self).pending() == old(self).pending(),
    {
        if self.pos < self.chars.len() {
            self.pos = self.pos + 1;
            proof {
                assert(self.pending() =~= old(self).pending().drop_first());
            }
        }
    }

    /// The current character, or nothing at the end of the input.
    pub fn get_current(&mut self) -> (r: Option<char>)
        requires
            old(self).wf(),
        ensures
            *final(self) == *old(self),
            r == (if old(self).pending().len() > 0 {
                Some(old(self).pending()[0])
            } else {
                None::<char>
            }),
    {
        if self.pos < self.chars.len() {
            Some(self.chars[self.pos])
        } else {
            None
        }
    }

    /// Collects the maximal run of numeric characters and parses it as an
    /// integer literal.
    #[verifier::loop_isolation(false)]
    fn consume_numeric(&mut self) -> (r: Option<Token>)
        requires
            old(self).wf(),
        ensures
            final(self).wf(),
            final(self).chars == old(self).chars,
            final(self).pending() == old(self).pending().skip(
                numeric_prefix_len(old(self).pending()) as int,
            ),
            opt_token_view(r) == (match spec_parse_i32(
                old(self).pending().take(numeric_prefix_len(old(self).pending()) as int),
            ) {
                Some(v) => Some(TokenView::IntV(v)),
                None => None::<TokenView>,
            }),
    {
        let ghost p0 = old(self).pending();
        proof {
            lemma_prefix_len_bounds(p0);
        }
        let mut digits: Vec<char> = Vec::new();
        proof {
            assert(digits@ =~= p0.take(0));
            assert(self.pending() =~= p0.skip(0));
        }
        loop
            invariant
                self.wf(),
                self.chars == old(self).chars,
                digits@.len() <= p0.len(),
                digits@ == p0.take(digits@.len() as int),
                self.pending() == p0.skip(digits@.len() as int),
                numeric_prefix_len(p0) == digits@.len() + numeric_prefix_len(self.pending()),
            decreases self.pending().len(),
        {
            let ghost k = digits@.len() as int;
            let cur = self.get_current();
            let mut done = true;
            match cur {
                Some(c) => {
                    if is_numeric_char(c) {
                        done = false;
                        digits.push(c);
                        self.advance();
                        proof {
                            assert(p0.skip(k)[0] == p0[k]);
                            assert(digits@ =~= p0.take(k + 1));
                            assert(self.pending() =~= p0.skip(k + 1));
                            assert(numeric_prefix_len(p0.skip(k)) == 1 + numeric_prefix_len(
                                p0.skip(k + 1),
                            )) by {
                                assert(p0.skip(k).drop_first() =~= p0.skip(k + 1));
                            };
                        }
                    }
                },
                None => {},
            }
            if done {
                proof {
                    assert(numeric_prefix_len(self.pending()) == 0);
                    assert(digits@ == p0.take(numeric_prefix_len(p0) as int));
                }
                let v = parse_i32_chars(&digits);
                match v {
                    Some(n) => {
                        return Some(Token::Int(n));
                    },
                    None => {
                        return None;
                    },
                }
            }
        }
    }

    /// Collects the maximal run of alphanumeric characters and classifies
    /// it as a keyword or identifier.
    #[verifier::loop_isolation(false)]
    fn consume_keyword_or_id(&mut self) -> (r: Option<Token>)
        requires
            old(self).wf(),
        ensures
            final(self).wf(),
            final(self).chars == old(self).chars,
            final(self).pending() == old(self).pending().skip(
                alnum_prefix_len(old(self).pending()) as int,
            ),
            opt_token_view(r) == Some(
                spec_word_token(
                    old(self).pending().take(alnum_prefix_len(old(self).pending()) as int),
                ),
            ),
    {
        let ghost p0 = old(self).pending();
        proof {
            lemma_prefix_len_bounds(p0);
        }
        let mut word: Vec<char> = Vec::new();
        proof {
            assert(word@ =~= p0.take(0));
            assert(self.pending() =~= p0.skip(0));
        }
        loop
            invariant
                self.wf(),
                self.chars == old(self).chars,
                word@.len() <= p0.len(),
                word@ == p0.take(word@.len() as int),
                self.pending() == p0.skip(word@.len() as int),
                alnum_prefix_len(p0) == word@.len() + alnum_prefix_len(self.pending()),
            decreases self.pending().len(),
        {
            let ghost k = word@.len() as int;
            let cur = self.get_current();
            let mut done = true;
            match cur {
                Some(c) => {
                    if is_alphanumeric_char(c) {
                        done = false;
                        word.push(c);
                        self.advance();
                        proof {
                            assert(p0.skip(k)[0] == p0[k]);
                            assert(word@ =~= p0.take(k + 1));
                            assert(self.pending() =~= p0.skip(k + 1));
                            assert(alnum_prefix_len(p0.skip(k)) == 1 + alnum_prefix_len(
                                p0.skip(k + 1),
                            )) by {
                                assert(p0.skip(k).drop_first() =~= p0.skip(k + 1));
                            };
                        }
                    }
                },
                None => {},
            }
            if done {
                proof {
                    assert(alnum_prefix_len(self.pending()) == 0);
                    assert(word@ == p0.take(alnum_prefix_len(p0) as int));
                }
                let w = chars_to_string(&word);
                let r = string_to_token(w.as_str());
                return r;
            }
        }
    }

    /// The next token, if any: whitespace is skipped, then the token is
    /// read as [`spec_next_token`] describes.
    #[verifier::loop_isolation(false)]
    fn next_token(&mut self) -> (r: Option<Token>)
        requires
            old(self).wf(),
        ensures
            final(self).wf(),
            final(self).chars == old(self).chars,
            opt_token_view(r) == spec_next_token(old(self).pending()).0,
            final(self).pending() == spec_next_token(old(self).pending()).1,
    {
        loop
            invariant
                self.wf(),
                self.chars == old(self).chars,
                spec_skip_ws(self.pending()) == spec_skip_ws(old(self).pending()),
            decreases self.pending().len(),
        {
            let ghost pend = self.pending();
            let cur = self.get_current();
            match cur {
                None => {
                    proof {
                        assert(spec_skip_ws(pend) == pend);
                        assert(self.pending() =~= spec_next_token(old(self).pending()).1);
                    }
                    return None;
                },
                Some(c) => {
                    if is_whitespace_char(c) {
                        self.advance();
                        proof {
                            assert(pend.drop_first() =~= self.pending());
                            assert(spec_skip_ws(pend) == spec_skip_ws(self.pending()));
                        }
                    } else {
                        proof {
                            assert(spec_skip_ws(pend) == pend);
                        }
                        if is_alphabetic_char(c) {
                            let r = self.consume_keyword_or_id();
                            return r;
                        } else if is_numeric_char(c) {
                            let r = self.consume_numeric();
                            return r;
                        } else if !is_alphanumeric_char(c) {
                            self.advance();
                            let r = char_to_token(c);
                            proof {
                                assert(pend.drop_first() =~= self.pending());
                            }
                            return r;
                        } else {
                            proof {
                                assert(false);
                            }
                            return None;
                        }
                    }
                },
            }
        }
    }

    /// All tokens of the input, in order, as [`spec_tokenize`] describes:
    /// lexing stops at the first character run that forms no token.
    #[verifier::loop_isolation(false)]
    pub fn tokenize(self) -> (r: Vec<Token>)
        ensures
            self.wf() ==> tokens_view(r@) == spec_tokenize(self.pending()),
    {
        let wf0 = self.pos <= self.chars.len();
        let mut lx = self;
        let mut res: Vec<Token> = Vec::new();
        if !wf0 {
            return res;
        }
        loop
            invariant
                lx.wf(),
                tokens_view(res@) + spec_tokenize(lx.pending()) =~= spec_tokenize(self.pending()),
            decreases lx.pending().len(),
        {
            let ghost pend = lx.pending();
            let t = lx.next_token();
            match t {
                Some(t0) => {
                    proof {
                        lemma_next_token_shrinks(pend);
                    }
                    let ghost pre = res@;
                    res.push(t0);
                    proof {
                        assert(tokens_view(res@) =~= tokens_view(pre).push(token_view(t0)));
                        assert(spec_tokenize(pend) == seq![token_view(t0)] + spec_tokenize(
                            lx.pending(),
                        ));
                        assert(tokens_view(res@) + spec_tokenize(lx.pending()) =~= spec_tokenize(
                            self.pending(),
                        ));
                    }
                },
                None => {
                    proof {
                        assert(spec_tokenize(pend) =~= Seq::<TokenView>::empty());
                        assert(tokens_view(res@) =~= spec_tokenize(self.pending()));
                    }
                    return res;
                },
            }
        }
    }
}

} // verus!

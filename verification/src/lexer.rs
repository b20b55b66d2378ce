use vstd::prelude::*;
use vstd::string::StringExecFns;

use crate::error::Error;

verus! {

/// One lexical token of the surface language.
///
/// Tokens are plain values with structural equality.  A numeric literal
/// carries its exact source text (digits with an optional `.`); turning that
/// text into a machine float is the backend driver's concern, so the verified
/// core never holds a float.
#[derive(Debug)]
pub enum Token {
    Eof,
    // Commands.
    Def,
    Extern,
    // Primary.
    Identifier(String),
    Number(String),
    // Operators.
    LessThan,
    Minus,
    Plus,
    Star,
    // Other.
    SemiColon,
    OpenParen,
    CloseParen,
    Comma,
}

/// The mathematical model of a token: the same variants, with the carried
/// text abstracted to its character sequence.
pub enum TokenView {
    Eof,
    Def,
    Extern,
    Identifier(Seq<char>),
    Number(Seq<char>),
    LessThan,
    Minus,
    Plus,
    Star,
    SemiColon,
    OpenParen,
    CloseParen,
    Comma,
}

impl View for Token {
    type V = TokenView;

    open spec fn view(&self) -> TokenView {
        match self {
            Token::Eof => TokenView::Eof,
            Token::Def => TokenView::Def,
            Token::Extern => TokenView::Extern,
            Token::Identifier(s) => TokenView::Identifier(s@),
            Token::Number(s) => TokenView::Number(s@),
            Token::LessThan => TokenView::LessThan,
            Token::Minus => TokenView::Minus,
            Token::Plus => TokenView::Plus,
            Token::Star => TokenView::Star,
            Token::SemiColon => TokenView::SemiColon,
            Token::OpenParen => TokenView::OpenParen,
            Token::CloseParen => TokenView::CloseParen,
            Token::Comma => TokenView::Comma,
        }
    }
}

impl Clone for Token {
    fn clone(&self) -> (r: Self)
        ensures
            r == *self,
    {
        match self {
            Token::Eof => Token::Eof,
            Token::Def => Token::Def,
            Token::Extern => Token::Extern,
            Token::Identifier(s) => Token::Identifier(s.clone()),
            Token::Number(s) => Token::Number(s.clone()),
            Token::LessThan => Token::LessThan,
            Token::Minus => Token::Minus,
            Token::Plus => Token::Plus,
            Token::Star => Token::Star,
            Token::SemiColon => Token::SemiColon,
            Token::OpenParen => Token::OpenParen,
            Token::CloseParen => Token::CloseParen,
            Token::Comma => Token::Comma,
        }
    }
}

impl PartialEq for Token {
    fn eq(&self, other: &Token) -> (r: bool) {
        match (self, other) {
            (Token::Eof, Token::Eof) => true,
            (Token::Def, Token::Def) => true,
            (Token::Extern, Token::Extern) => true,
            (Token::Identifier(a), Token::Identifier(b)) => a.eq(b),
            (Token::Number(a), Token::Number(b)) => a.eq(b),
            (Token::LessThan, Token::LessThan) => true,
            (Token::Minus, Token::Minus) => true,
            (Token::Plus, Token::Plus) => true,
            (Token::Star, Token::Star) => true,
            (Token::SemiColon, Token::SemiColon) => true,
            (Token::OpenParen, Token::OpenParen) => true,
            (Token::CloseParen, Token::CloseParen) => true,
            (Token::Comma, Token::Comma) => true,
            _ => false,
        }
    }
}

impl vstd::std_specs::cmp::PartialEqSpecImpl for Token {
    open spec fn obeys_eq_spec() -> bool {
        true
    }

    open spec fn eq_spec(&self, other: &Token) -> bool {
        self@ == other@
    }
}

/// Relies on `alloc::string::String::push`: appends the given character to
/// the end of the string.
pub assume_specification[ String::push ](s: &mut String, ch: char)
    ensures
        final(s)@ == old(s)@.push(ch),
;

// ---------------------------------------------------------------------------
// Byte classes of the lexical grammar.
// ---------------------------------------------------------------------------

pub open spec fn is_space(b: u8) -> bool {
    b == 32 || b == 9 || b == 13 || b == 10
}

pub open spec fn is_digit(b: u8) -> bool {
    48 <= b && b <= 57
}

pub open spec fn is_alpha(b: u8) -> bool {
    (65 <= b && b <= 90) || (97 <= b && b <= 122)
}

pub open spec fn is_alnum(b: u8) -> bool {
    is_alpha(b) || is_digit(b)
}

/// The bytes of the input, read as the characters they stand for.
pub open spec fn chars_of(s: Seq<u8>) -> Seq<char> {
    s.map_values(|b: u8| b as char)
}

/// Length of the longest prefix of `s` whose bytes all satisfy `p`.
pub open spec fn run_len(s: Seq<u8>, p: spec_fn(u8) -> bool) -> nat
    decreases s.len(),
{
    if s.len() == 0 || !p(s[0]) {
        0
    } else {
        1 + run_len(s.subrange(1, s.len() as int), p)
    }
}

/// An identifier's text is a keyword marker or a plain identifier token.
pub open spec fn ident_view(text: Seq<char>) -> TokenView {
    if text == "def"@ {
        TokenView::Def
    } else if text == "extern"@ {
        TokenView::Extern
    } else {
        TokenView::Identifier(text)
    }
}

/// What scanning one token from the start of `s` yields, and how many bytes
/// it consumes.  This is the specification the executable tokenizer is held
/// to: whitespace is skipped, `#` comments run to the next newline, keywords
/// and identifiers are maximal alphanumeric runs starting with a letter,
/// numeric literals are digit runs with one optional `.`, and the single
/// punctuation bytes map to their markers.  End of input yields `Eof`.
pub open spec fn lex(s: Seq<u8>) -> (Result<TokenView, Error>, nat)
    decreases s.len(),
{
    if s.len() == 0 {
        (Ok(TokenView::Eof), 0 as nat)
    } else {
        let b = s[0];
        if is_space(b) {
            let r = lex(s.subrange(1, s.len() as int));
            (r.0, (r.1 + 1) as nat)
        } else if is_alpha(b) {
            let n = run_len(s, (|c: u8| is_alnum(c)));
            (Ok(ident_view(chars_of(s.subrange(0, n as int)))), n)
        } else if is_digit(b) || b == 46 {
            let d1 = run_len(s, (|c: u8| is_digit(c)));
            if d1 < s.len() && s[d1 as int] == 46 {
                let d2 = run_len(s.subrange(d1 as int + 1, s.len() as int), (|c: u8| is_digit(c)));
                if d1 == 0 && d2 == 0 {
                    (Err(Error::ParseFloat), (d1 + 1 + d2) as nat)
                } else {
                    (
                        Ok(TokenView::Number(
                            chars_of(s.subrange(0, d1 as int)) + seq!['.'] + chars_of(
                                s.subrange(d1 as int + 1, d1 as int + 1 + d2),
                            ),
                        )),
                        (d1 + 1 + d2) as nat,
                    )
                }
            } else {
                (Ok(TokenView::Number(chars_of(s.subrange(0, d1 as int)))), d1)
            }
        } else if b == 35 {
            let k = run_len(s, (|c: u8| c != 10));
            if k >= s.len() {
                (Ok(TokenView::Eof), s.len())
            } else {
                let r = lex(s.subrange(k as int + 1, s.len() as int));
                (r.0, (r.1 + k + 1) as nat)
            }
        } else if b == 60 {
            (Ok(TokenView::LessThan), 1 as nat)
        } else if b == 43 {
            (Ok(TokenView::Plus), 1 as nat)
        } else if b == 45 {
            (Ok(TokenView::Minus), 1 as nat)
        } else if b == 42 {
            (Ok(TokenView::Star), 1 as nat)
        } else if b == 59 {
            (Ok(TokenView::SemiColon), 1 as nat)
        } else if b == 44 {
            (Ok(TokenView::Comma), 1 as nat)
        } else if b == 40 {
            (Ok(TokenView::OpenParen), 1 as nat)
        } else if b == 41 {
            (Ok(TokenView::CloseParen), 1 as nat)
        } else {
            (Err(Error::UnknownChar(b as char)), 1 as nat)
        }
    }
}

/// A run stops exactly where its predicate first fails.
pub proof fn lemma_run_len_at(s: Seq<u8>, p: spec_fn(u8) -> bool, i: int)
    requires
        0 <= i <= s.len(),
        forall|j: int| 0 <= j < i ==> p(s[j]),
        i == s.len() || !p(s[i]),
    ensures
        run_len(s, p) == i,
    decreases i,
{
    if i == 0 {
    } else {
        let s1 = s.subrange(1, s.len() as int);
        lemma_run_len_at(s1, p, i - 1);
    }
}

/// A run never runs past the end of the input.
pub proof fn lemma_run_len_le(s: Seq<u8>, p: spec_fn(u8) -> bool)
    ensures
        run_len(s, p) <= s.len(),
    decreases s.len(),
{
    if s.len() == 0 || !p(s[0]) {
    } else {
        lemma_run_len_le(s.subrange(1, s.len() as int), p);
    }
}

/// Scanning consumes no more bytes than the input holds, and any token other
/// than `Eof` consumes at least one byte.
pub proof fn lemma_lex_consumed(s: Seq<u8>)
    ensures
        lex(s).1 <= s.len(),
        (lex(s).0 matches Ok(tv) && !(tv is Eof)) ==> lex(s).1 >= 1,
        lex(s).0 matches Err(_) ==> lex(s).1 >= 1,
        (lex(s).0 matches Ok(tv) && tv is Eof) ==> lex(s).1 == s.len(),
    decreases s.len(),
{
    if s.len() == 0 {
    } else {
        let b = s[0];
        if is_space(b) {
            lemma_lex_consumed(s.subrange(1, s.len() as int));
        } else if is_alpha(b) {
            lemma_run_len_le(s, (|c: u8| is_alnum(c)));
            assert(run_len(s, (|c: u8| is_alnum(c))) >= 1);
        } else if is_digit(b) || b == 46 {
            lemma_run_len_le(s, (|c: u8| is_digit(c)));
            let d1 = run_len(s, (|c: u8| is_digit(c)));
            if d1 < s.len() && s[d1 as int] == 46 {
                lemma_run_len_le(s.subrange(d1 as int + 1, s.len() as int), (|c: u8| is_digit(c)));
            } else {
                assert(d1 >= 1);
            }
        } else if b == 35 {
            let k = run_len(s, (|c: u8| c != 10));
            lemma_run_len_le(s, (|c: u8| c != 10));
            if k < s.len() {
                lemma_lex_consumed(s.subrange(k as int + 1, s.len() as int));
            }
        } else {
        }
    }
}

/// A well-formed numeric literal: a digit run, optionally `.` and a second
/// digit run, with at least one digit in all.
pub open spec fn valid_number_literal(s: Seq<u8>) -> bool {
    let d1 = run_len(s, (|c: u8| is_digit(c)));
    ||| (d1 == s.len() && s.len() >= 1)
    ||| (d1 < s.len() && s[d1 as int] == 46 && run_len(
        s.subrange(d1 as int + 1, s.len() as int),
        (|c: u8| is_digit(c)),
    ) == s.len() - d1 - 1 && s.len() >= 2)
}

/// Tokenizing exactly a well-formed numeric literal yields a `Number` token
/// carrying that very text, the whole input consumed, no error: the token's
/// value is the float reading of the literal itself.
pub proof fn lemma_number_literal(s: Seq<u8>)
    requires
        valid_number_literal(s),
    ensures
        lex(s).0 == Ok::<TokenView, Error>(TokenView::Number(chars_of(s))),
        lex(s).1 == s.len(),
{
    let dp = (|c: u8| is_digit(c));
    let d1 = run_len(s, dp);
    lemma_run_len_le(s, dp);
    if d1 == s.len() && s.len() >= 1 {
        if !is_digit(s[0]) {
            assert(run_len(s, dp) == 0);
        }
        assert(s.subrange(0, d1 as int) =~= s);
    } else {
        let d2 = run_len(s.subrange(d1 as int + 1, s.len() as int), dp);
        if d1 > 0 && !is_digit(s[0]) {
            assert(run_len(s, dp) == 0);
        }
        assert(chars_of(s.subrange(0, d1 as int)) + seq!['.'] + chars_of(
            s.subrange(d1 as int + 1, d1 as int + 1 + d2),
        ) =~= chars_of(s));
    }
}

/// Every byte inside a run satisfies the predicate, and the byte after a
/// run that stops early does not.
pub proof fn lemma_run_len_members(s: Seq<u8>, p: spec_fn(u8) -> bool)
    ensures
        forall|j: int| 0 <= j < run_len(s, p) ==> p(#[trigger] s[j]),
        run_len(s, p) < s.len() ==> !p(s[run_len(s, p) as int]),
    decreases s.len(),
{
    lemma_run_len_le(s, p);
    if s.len() == 0 || !p(s[0]) {
    } else {
        let s1 = s.subrange(1, s.len() as int);
        lemma_run_len_members(s1, p);
        assert(forall|j: int| 1 <= j < run_len(s, p) ==> p(#[trigger] s[j])) by {
            assert(forall|j: int| 0 <= j < run_len(s1, p) ==> p(#[trigger] s1[j]));
            assert(forall|j: int| 1 <= j < run_len(s, p) ==> s[j] == s1[j - 1]);
        }
    }
}

/// The maximal-prefix form: a well-formed numeric literal followed by a byte
/// that can continue no literal tokenizes to a `Number` carrying exactly the
/// literal's text, consuming exactly the literal's bytes.
pub proof fn lemma_number_literal_prefix(s: Seq<u8>, k: int)
    requires
        0 <= k <= s.len(),
        valid_number_literal(s.subrange(0, k)),
        k == s.len() || (!is_digit(s[k]) && s[k] != 46),
    ensures
        lex(s).0 == Ok::<TokenView, Error>(TokenView::Number(chars_of(s.subrange(0, k)))),
        lex(s).1 == k,
{
    let dp = (|c: u8| is_digit(c));
    let p = s.subrange(0, k);
    let d1p = run_len(p, dp);
    lemma_run_len_le(p, dp);
    lemma_run_len_members(p, dp);
    if d1p == p.len() && p.len() >= 1 {
        assert(forall|j: int| 0 <= j < k ==> is_digit(#[trigger] s[j])) by {
            assert(forall|j: int| 0 <= j < k ==> s[j] == p[j]);
        }
        lemma_run_len_at(s, dp, k);
        assert(s.subrange(0, k) =~= p);
    } else {
        let d2p = run_len(p.subrange(d1p as int + 1, p.len() as int), dp);
        lemma_run_len_le(p.subrange(d1p as int + 1, p.len() as int), dp);
        lemma_run_len_members(p.subrange(d1p as int + 1, p.len() as int), dp);
        assert(forall|j: int| 0 <= j < d1p ==> is_digit(#[trigger] s[j])) by {
            assert(forall|j: int| 0 <= j < d1p ==> s[j] == p[j]);
        }
        lemma_run_len_at(s, dp, d1p as int);
        assert(s[d1p as int] == 46);
        let tail = s.subrange(d1p as int + 1, s.len() as int);
        let ptail = p.subrange(d1p as int + 1, p.len() as int);
        assert(d2p == p.len() - d1p - 1);
        assert(forall|j: int| 0 <= j < d2p ==> is_digit(#[trigger] tail[j])) by {
            assert(forall|j: int| 0 <= j < d2p ==> tail[j] == ptail[j]);
        }
        lemma_run_len_at(tail, dp, d2p as int);
        let d1 = run_len(s, dp);
        let d2 = run_len(s.subrange(d1 as int + 1, s.len() as int), dp);
        assert(d1 == d1p && d2 == d2p);
        assert(d1 + 1 + d2 == k);
        assert(chars_of(s.subrange(0, d1 as int)) + seq!['.'] + chars_of(
            s.subrange(d1 as int + 1, d1 as int + 1 + d2),
        ) =~= chars_of(p));
    }
}

/// Tokenizing whitespace-only input yields `Eof`, without error.
pub proof fn lemma_whitespace_eof(s: Seq<u8>)
    requires
        forall|i: int| 0 <= i < s.len() ==> is_space(#[trigger] s[i]),
    ensures
        lex(s).0 == Ok::<TokenView, Error>(TokenView::Eof),
        lex(s).1 == s.len(),
    decreases s.len(),
{
    if s.len() > 0 {
        lemma_whitespace_eof(s.subrange(1, s.len() as int));
    }
}

/// A comment with a newline before the end of the input is skipped whole:
/// scanning yields exactly what the text after the newline yields, so the
/// token after a comment line is the next real token, never a comment
/// marker.
pub proof fn lemma_comment_skipped(s: Seq<u8>)
    requires
        s.len() > 0,
        s[0] == 35,
        run_len(s, (|c: u8| c != 10)) < s.len(),
    ensures
        lex(s).0 == lex(s.subrange(run_len(s, (|c: u8| c != 10)) as int + 1, s.len() as int)).0,
        lex(s).1 == lex(s.subrange(run_len(s, (|c: u8| c != 10)) as int + 1, s.len() as int)).1
            + run_len(s, (|c: u8| c != 10)) + 1,
{
    assert(!is_space(s[0]) && !is_alpha(s[0]) && !is_digit(s[0]) && s[0] != 46);
}

/// The tokens of `s`, in order, up to the first `Eof` or failure.
pub open spec fn token_seq(s: Seq<u8>) -> Seq<TokenView>
    decreases s.len(),
    via token_seq_decreases
{
    match lex(s).0 {
        Ok(tv) => if tv is Eof {
            Seq::empty()
        } else {
            seq![tv] + token_seq(s.subrange(lex(s).1 as int, s.len() as int))
        },
        Err(_) => Seq::empty(),
    }
}

#[via_fn]
proof fn token_seq_decreases(s: Seq<u8>) {
    lemma_lex_consumed(s);
}

/// Whether every byte of `s` lexes: scanning reaches `Eof` with no failure.
pub open spec fn lex_ok(s: Seq<u8>) -> bool
    decreases s.len(),
    via lex_ok_decreases
{
    match lex(s).0 {
        Ok(tv) => tv is Eof || lex_ok(s.subrange(lex(s).1 as int, s.len() as int)),
        Err(_) => false,
    }
}

#[via_fn]
proof fn lex_ok_decreases(s: Seq<u8>) {
    lemma_lex_consumed(s);
}

/// On input that lexes cleanly, the next consuming call sees the stream's
/// head token, or `Eof` when the stream is exhausted.
pub proof fn lemma_stream_head(l: Lexer)
    requires
        l.clean(),
    ensures
        l.stream().len() > 0 ==> l.next_view() == Ok::<TokenView, Error>(l.stream()[0]),
        l.stream().len() == 0 ==> l.next_view() == Ok::<TokenView, Error>(TokenView::Eof),
{
    match l.lookahead {
        Some(t) => {},
        None => {
            match lex(l.remaining()).0 {
                Ok(tv) => {},
                Err(_) => {},
            }
        },
    }
}

// ---------------------------------------------------------------------------
// The tokenizer.
// ---------------------------------------------------------------------------

/// Turns a byte input into tokens, one call at a time, with a single cached
/// token of pushback so callers can look ahead without consuming.
pub struct Lexer {
    /// The raw input bytes.
    pub input: Vec<u8>,
    /// How many bytes have been consumed.
    pub pos: usize,
    /// The peeked-at token, if any, returned by the next consuming call.
    pub lookahead: Option<Token>,
}

impl Lexer {
    /// The cursor never points past the end of the input.
    pub open spec fn wf(self) -> bool {
        self.pos <= self.input@.len()
    }

    /// The bytes not yet consumed.
    pub open spec fn remaining(self) -> Seq<u8> {
        self.input@.subrange(self.pos as int, self.input@.len() as int)
    }

    /// The outcome the next consuming call will see: the cached token if one
    /// is present, otherwise whatever scanning the remaining bytes yields.
    pub open spec fn next_view(self) -> Result<TokenView, Error> {
        match self.lookahead {
            Some(t) => Ok(t@),
            None => lex(self.remaining()).0,
        }
    }

    /// Whether everything still to be scanned lexes without failure.
    pub open spec fn clean(self) -> bool {
        lex_ok(self.remaining())
    }

    /// The tokens still to come, the cached one first, up to `Eof` or the
    /// first failure.
    pub open spec fn stream(self) -> Seq<TokenView> {
        match self.lookahead {
            Some(t) => if t@ is Eof {
                Seq::empty()
            } else {
                seq![t@] + token_seq(self.remaining())
            },
            None => token_seq(self.remaining()),
        }
    }

    /// Termination measure for parsers driving this lexer: strictly drops
    /// whenever a token other than `Eof` is consumed or peeked, and never
    /// grows.
    pub open spec fn measure(self) -> nat {
        (2 * (self.input@.len() - self.pos)) as nat + (match self.lookahead {
            None => 1 as nat,
            Some(t) => if t is Eof {
                0 as nat
            } else {
                2 as nat
            },
        })
    }

    pub fn new(input: Vec<u8>) -> (r: Lexer)
        ensures
            r.wf(),
            r.input@ == input@,
            r.pos == 0,
            r.lookahead is None,
    {
        Lexer { input, pos: 0, lookahead: None }
    }

    /// Consumes and returns one token.  With a cached token present, that
    /// token is handed out (and `Eof`, once reached, is handed out forever
    /// without advancing).  Otherwise the remaining bytes are scanned exactly
    /// as `lex` describes.
    pub fn next_token(&mut self) -> (r: Result<Token, Error>)
        requires
            old(self).wf(),
        ensures
            final(self).wf(),
            final(self).input@ == old(self).input@,
            match old(self).lookahead {
                Some(t) => if t is Eof {
                    r == Ok::<Token, Error>(t) && *final(self) == *old(self)
                } else {
                    r == Ok::<Token, Error>(t) && final(self).lookahead is None && final(self).pos
                        == old(self).pos
                },
                None => {
                    &&& final(self).lookahead is None
                    &&& final(self).pos == old(self).pos + lex(old(self).remaining()).1
                    &&& match lex(old(self).remaining()).0 {
                        Ok(tv) => r matches Ok(t) && t@ == tv,
                        Err(e) => r == Err::<Token, Error>(e),
                    }
                },
            },
            final(self).measure() <= old(self).measure(),
            (r matches Ok(t) && !(t@ is Eof)) ==> final(self).measure() < old(self).measure(),
            match r {
                Ok(t) => if t@ is Eof {
                    old(self).stream() == Seq::<TokenView>::empty() && final(self).stream()
                        == Seq::<TokenView>::empty()
                } else {
                    old(self).stream() == seq![t@] + final(self).stream()
                },
                Err(_) => true,
            },
            old(self).clean() ==> (final(self).clean() && r matches Ok(_)),
    {
        let ghost pre = *self;
        let r = self.scan();
        proof {
            if pre.lookahead is None {
                lemma_lex_consumed(pre.remaining());
                let n = lex(pre.remaining()).1;
                assert(self.remaining() =~= pre.remaining().subrange(
                    n as int,
                    pre.remaining().len() as int,
                ));
            }
        }
        r
    }

    /// The scanning step behind `next_token`.
    fn scan(&mut self) -> (r: Result<Token, Error>)
        requires
            old(self).wf(),
        ensures
            final(self).wf(),
            final(self).input@ == old(self).input@,
            match old(self).lookahead {
                Some(t) => if t is Eof {
                    r == Ok::<Token, Error>(t) && *final(self) == *old(self)
                } else {
                    r == Ok::<Token, Error>(t) && final(self).lookahead is None && final(self).pos == old(self).pos
                },
                None => {
                    &&& final(self).lookahead is None
                    &&& final(self).pos == old(self).pos + lex(old(self).remaining()).1
                    &&& match lex(old(self).remaining()).0 {
                        Ok(tv) => r matches Ok(t) && t@ == tv,
                        Err(e) => r == Err::<Token, Error>(e),
                    }
                },
            },
            final(self).measure() <= old(self).measure(),
            (r matches Ok(t) && !(t@ is Eof)) ==> final(self).measure() < old(self).measure(),
        decreases self.input@.len() - self.pos, 1nat,
    {
        let la = self.lookahead.take();
        match la {
            Some(tok) => {
                if matches!(tok, Token::Eof) {
                    self.lookahead = Some(tok);
                    return Ok(Token::Eof);
                }
                return Ok(tok);
            },
            None => {},
        }
        proof {
            lemma_lex_consumed(self.remaining());
        }
        if self.pos == self.input.len() {
            assert(self.remaining() =~= Seq::<u8>::empty());
            return Ok(Token::Eof);
        }
        let ghost rem = self.remaining();
        let b = self.input[self.pos];
        assert(b == rem[0]);
        if b == 32 || b == 9 || b == 13 || b == 10 {
            self.pos = self.pos + 1;
            assert(self.remaining() =~= rem.subrange(1, rem.len() as int));
            proof {
                lemma_lex_consumed(self.remaining());
            }
            self.scan()
        } else if (65 <= b && b <= 90) || (97 <= b && b <= 122) {
            self.identifier()
        } else if (48 <= b && b <= 57) || b == 46 {
            self.number()
        } else if b == 35 {
            self.comment()
        } else {
            self.pos = self.pos + 1;
            assert(self.remaining() =~= rem.subrange(1, rem.len() as int));
            if b == 60 {
                Ok(Token::LessThan)
            } else if b == 43 {
                Ok(Token::Plus)
            } else if b == 45 {
                Ok(Token::Minus)
            } else if b == 42 {
                Ok(Token::Star)
            } else if b == 59 {
                Ok(Token::SemiColon)
            } else if b == 44 {
                Ok(Token::Comma)
            } else if b == 40 {
                Ok(Token::OpenParen)
            } else if b == 41 {
                Ok(Token::CloseParen)
            } else {
                Err(Error::UnknownChar(b as char))
            }
        }
    }

    /// Skips a `#` comment up to and including the next newline, then scans
    /// on; a comment that reaches the end of the input yields `Eof`.
    fn comment(&mut self) -> (r: Result<Token, Error>)
        requires
            old(self).wf(),
            old(self).lookahead is None,
            old(self).pos < old(self).input@.len(),
            old(self).input@[old(self).pos as int] == 35,
        ensures
            final(self).wf(),
            final(self).input@ == old(self).input@,
            final(self).lookahead is None,
            final(self).pos == old(self).pos + lex(old(self).remaining()).1,
            match lex(old(self).remaining()).0 {
                Ok(tv) => r matches Ok(t) && t@ == tv,
                Err(e) => r == Err::<Token, Error>(e),
            },
        decreases self.input@.len() - self.pos, 0nat,
    {
        let ghost rem = self.remaining();
        let ghost p0 = self.pos;
        while self.pos < self.input.len() && self.input[self.pos] != 10
            invariant
                self.wf(),
                self.lookahead is None,
                self.input@ == old(self).input@,
                p0 <= self.pos <= self.input@.len(),
                p0 == old(self).pos,
                rem == old(self).remaining(),
                forall|j: int| p0 <= j < self.pos ==> self.input@[j] != 10,
            decreases self.input@.len() - self.pos,
        {
            self.pos = self.pos + 1;
        }
        let ghost k = self.pos - p0;
        proof {
            assert(forall|j: int| 0 <= j < k ==> rem[j] == self.input@[p0 + j]);
            lemma_run_len_at(rem, (|c: u8| c != 10), k);
        }
        if self.pos == self.input.len() {
            assert(k >= rem.len());
            Ok(Token::Eof)
        } else {
            assert(rem[k] == 10);
            assert(k < rem.len());
            self.pos = self.pos + 1;
            assert(self.remaining() =~= rem.subrange(k + 1, rem.len() as int));
            proof {
                lemma_lex_consumed(self.remaining());
            }
            self.scan()
        }
    }

    /// Scans a maximal alphanumeric run starting at the cursor and returns
    /// the keyword it names, or an `Identifier` carrying its text.
    fn identifier(&mut self) -> (r: Result<Token, Error>)
        requires
            old(self).wf(),
            old(self).lookahead is None,
            old(self).pos < old(self).input@.len(),
            is_alpha(old(self).input@[old(self).pos as int]),
        ensures
            final(self).wf(),
            final(self).input@ == old(self).input@,
            final(self).lookahead is None,
            final(self).pos == old(self).pos + lex(old(self).remaining()).1,
            match lex(old(self).remaining()).0 {
                Ok(tv) => r matches Ok(t) && t@ == tv,
                Err(e) => r == Err::<Token, Error>(e),
            },
    {
        let ghost rem = self.remaining();
        let ghost p0 = self.pos;
        let mut text = String::new();
        while self.pos < self.input.len() && ((65 <= self.input[self.pos] && self.input[self.pos]
            <= 90) || (97 <= self.input[self.pos] && self.input[self.pos] <= 122) || (48
            <= self.input[self.pos] && self.input[self.pos] <= 57))
            invariant
                self.wf(),
                self.lookahead is None,
                self.input@ == old(self).input@,
                p0 <= self.pos <= self.input@.len(),
                p0 == old(self).pos,
                rem == old(self).remaining(),
                forall|j: int| p0 <= j < self.pos ==> is_alnum(self.input@[j]),
                text@ == chars_of(self.input@.subrange(p0 as int, self.pos as int)),
            decreases self.input@.len() - self.pos,
        {
            let b = self.input[self.pos];
            text.push(b as char);
            self.pos = self.pos + 1;
            assert(self.input@.subrange(p0 as int, self.pos as int) =~= self.input@.subrange(
                p0 as int,
                self.pos - 1,
            ).push(b));
            assert(text@ =~= chars_of(self.input@.subrange(p0 as int, self.pos as int)));
        }
        let ghost k = self.pos - p0;
        proof {
            assert(forall|j: int| 0 <= j < k ==> rem[j] == self.input@[p0 + j]);
            lemma_run_len_at(rem, (|c: u8| is_alnum(c)), k);
            assert(rem.subrange(0, k) =~= self.input@.subrange(p0 as int, self.pos as int));
        }
        let kw_def: String = "def".to_owned();
        let kw_extern: String = "extern".to_owned();
        if text.eq(&kw_def) {
            Ok(Token::Def)
        } else if text.eq(&kw_extern) {
            Ok(Token::Extern)
        } else {
            Ok(Token::Identifier(text))
        }
    }

    /// Scans a maximal digit run at the cursor, appending its characters to
    /// `text`.
    fn digits(&mut self, text: &mut String) -> (k: Ghost<nat>)
        requires
            old(self).wf(),
            old(self).lookahead is None,
        ensures
            final(self).wf(),
            final(self).input@ == old(self).input@,
            final(self).lookahead is None,
            k@ == run_len(old(self).remaining(), (|c: u8| is_digit(c))),
            final(self).pos == old(self).pos + k@,
            final(text)@ == old(text)@ + chars_of(old(self).remaining().subrange(0, k@ as int)),
    {
        let ghost rem = self.remaining();
        let ghost p0 = self.pos;
        let ghost t0 = text@;
        while self.pos < self.input.len() && 48 <= self.input[self.pos] && self.input[self.pos]
            <= 57
            invariant
                self.wf(),
                self.lookahead is None,
                self.input@ == old(self).input@,
                p0 <= self.pos <= self.input@.len(),
                p0 == old(self).pos,
                rem == old(self).remaining(),
                forall|j: int| p0 <= j < self.pos ==> is_digit(self.input@[j]),
                text@ == t0 + chars_of(self.input@.subrange(p0 as int, self.pos as int)),
            decreases self.input@.len() - self.pos,
        {
            let b = self.input[self.pos];
            text.push(b as char);
            self.pos = self.pos + 1;
            assert(self.input@.subrange(p0 as int, self.pos as int) =~= self.input@.subrange(
                p0 as int,
                self.pos - 1,
            ).push(b));
            assert(text@ =~= t0 + chars_of(self.input@.subrange(p0 as int, self.pos as int)));
        }
        let ghost k = (self.pos - p0) as nat;
        proof {
            assert(forall|j: int| 0 <= j < k ==> rem[j] == self.input@[p0 + j]);
            lemma_run_len_at(rem, (|c: u8| is_digit(c)), k as int);
            assert(rem.subrange(0, k as int) =~= self.input@.subrange(p0 as int, self.pos as int));
        }
        Ghost(k)
    }

    /// Scans a numeric literal: a digit run, optionally followed by `.` and
    /// a second digit run.  A literal with no digit at all is rejected.
    fn number(&mut self) -> (r: Result<Token, Error>)
        requires
            old(self).wf(),
            old(self).lookahead is None,
            old(self).pos < old(self).input@.len(),
            is_digit(old(self).input@[old(self).pos as int]) || old(self).input@[old(self).pos as int] == 46,
        ensures
            final(self).wf(),
            final(self).input@ == old(self).input@,
            final(self).lookahead is None,
            final(self).pos == old(self).pos + lex(old(self).remaining()).1,
            match lex(old(self).remaining()).0 {
                Ok(tv) => r matches Ok(t) && t@ == tv,
                Err(e) => r == Err::<Token, Error>(e),
            },
    {
        let ghost rem = self.remaining();
        let mut text = String::new();
        let d1g = self.digits(&mut text);
        let ghost d1 = d1g@;
        proof {
            lemma_run_len_le(rem, (|c: u8| is_digit(c)));
        }
        let has_dot = self.pos < self.input.len() && self.input[self.pos] == 46;
        proof {
            if d1 < rem.len() {
                assert(rem[d1 as int] == self.input@[self.pos as int]);
            }
            assert(has_dot == (d1 < rem.len() && rem[d1 as int] == 46));
        }
        if has_dot {
            self.pos = self.pos + 1;
            text.push('.');
            let ghost rem2 = self.remaining();
            assert(rem2 =~= rem.subrange(d1 as int + 1, rem.len() as int));
            let d2g = self.digits(&mut text);
            let ghost d2 = d2g@;
            proof {
                lemma_run_len_le(rem2, (|c: u8| is_digit(c)));
            }
            let empty = text.eq(&".".to_owned());
            proof {
                reveal_strlit(".");
                assert(text@ == chars_of(rem.subrange(0, d1 as int)) + seq!['.'] + chars_of(
                    rem2.subrange(0, d2 as int),
                ));
                if d1 == 0 && d2 == 0 {
                    assert(chars_of(rem.subrange(0, 0)) =~= Seq::<char>::empty());
                    assert(chars_of(rem2.subrange(0, 0)) =~= Seq::<char>::empty());
                    assert(text@ =~= seq!['.']);
                    assert(text@ =~= "."@);
                } else {
                    assert(text@.len() >= 2);
                    assert("."@.len() == 1);
                }
            }
            if empty {
                return Err(Error::ParseFloat);
            }
            assert(rem2.subrange(0, d2 as int) =~= rem.subrange(
                d1 as int + 1,
                d1 as int + 1 + d2,
            ));
            Ok(Token::Number(text))
        } else {
            assert(chars_of(Seq::<u8>::empty()) =~= Seq::<char>::empty());
            assert(text@ == chars_of(rem.subrange(0, d1 as int)));
            Ok(Token::Number(text))
        }
    }

    /// Returns the next token without consuming it, caching it so the next
    /// consuming call hands it back.
    pub fn peek(&mut self) -> (r: Result<Token, Error>)
        requires
            old(self).wf(),
        ensures
            final(self).wf(),
            final(self).input@ == old(self).input@,
            match old(self).lookahead {
                Some(t) => r == Ok::<Token, Error>(t) && *final(self) == *old(self),
                None => match lex(old(self).remaining()).0 {
                    Ok(tv) => r matches Ok(t) && t@ == tv && final(self).lookahead == Some(t)
                        && final(self).pos == old(self).pos + lex(old(self).remaining()).1,
                    Err(e) => r == Err::<Token, Error>(e) && final(self).lookahead is None && final(self).pos == old(self).pos + lex(old(self).remaining()).1,
                },
            },
            final(self).measure() <= old(self).measure(),
            r matches Ok(_) ==> final(self).next_view() == old(self).next_view(),
            r matches Ok(_) ==> final(self).stream() == old(self).stream(),
            old(self).clean() ==> (final(self).clean() && r matches Ok(_)),
            (r matches Ok(t) && !(t@ is Eof) && old(self).lookahead is None) ==> final(self).measure() < old(self).measure(),
    {
        match &self.lookahead {
            Some(t) => Ok(t.clone()),
            None => {
                proof {
                    lemma_lex_consumed(self.remaining());
                }
                let t = self.next_token()?;
                let t2 = t.clone();
                self.lookahead = Some(t);
                Ok(t2)
            },
        }
    }
}

} // verus!

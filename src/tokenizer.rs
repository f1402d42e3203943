use crate::errors::{CompileError, CompileErrorType, TokenizeError};
use std::ops::Range;
use vstd::prelude::*;
use vstd::string::StringSliceAdditionalSpecFns;
use vstd::utf8::{
    encode_utf8, encode_utf8_valid_utf8, is_char_boundary,
    is_char_boundary_iff_not_is_continuation_byte, is_char_boundary_start_end_of_seq,
    is_continuation_byte, length_of_first_scalar, pop_first_scalar, valid_first_scalar, valid_utf8,
    valid_utf8_split,
};

verus! {

// ---------------------------------------------------------------------------
// The lexical grammar, stated over the bytes of the source text.
// ---------------------------------------------------------------------------
/// ASCII whitespace: space, tab, line feed, form feed and carriage return.
pub open spec fn is_space(c: u8) -> bool {
    c == 0x20 || c == 0x09 || c == 0x0a || c == 0x0c || c == 0x0d
}

pub open spec fn is_digit(c: u8) -> bool {
    0x30 <= c <= 0x39
}

pub open spec fn is_lower(c: u8) -> bool {
    0x61 <= c <= 0x7a
}

/// The first position at or after `p` that holds no whitespace.
pub open spec fn skip_spaces(b: Seq<u8>, p: int) -> int
    decreases b.len() - p,
{
    if 0 <= p < b.len() && is_space(b[p]) {
        skip_spaces(b, p + 1)
    } else {
        p
    }
}

/// The end of the run of digits that starts at `p`.
pub open spec fn digits_end(b: Seq<u8>, p: int) -> int
    decreases b.len() - p,
{
    if 0 <= p < b.len() && is_digit(b[p]) {
        digits_end(b, p + 1)
    } else {
        p
    }
}

/// The end of the run of non-whitespace bytes that starts at `p`.
pub open spec fn word_end(b: Seq<u8>, p: int) -> int
    decreases b.len() - p,
{
    if 0 <= p < b.len() && !is_space(b[p]) {
        word_end(b, p + 1)
    } else {
        p
    }
}

/// The decimal value of a string of digits.
pub open spec fn digits_value(d: Seq<u8>) -> int
    decreases d.len(),
{
    if d.len() == 0 {
        0
    } else {
        digits_value(d.drop_last()) * 10 + (d.last() - 0x30)
    }
}

/// Every integer literal that the scanner reads in `b` has a value that fits in
/// an `i64`. Digits inside an unscannable run are no literal and do not count.
pub open spec fn literals_fit(b: Seq<u8>) -> bool {
    literals_fit_from(b, 0)
}

/// Every integer literal that the scanner reads from position `p` on fits in an
/// `i64`.
pub open spec fn literals_fit_from(b: Seq<u8>, p: int) -> bool
    decreases b.len() - p,
{
    let s = skip_spaces(b, p);
    if p < 0 || s >= b.len() {
        true
    } else {
        proof {
            lemma_scan_progress(b, p);
        }
        let (k, e) = scan_at(b, s);
        &&& (is_digit(b[s]) ==> digits_value(b.subrange(s, e)) <= i64::MAX)
        &&& literals_fit_from(b, e)
    }
}

/// The token that starts at `s`, which holds no whitespace, and the position where
/// it ends. `None` stands for a run of bytes that forms no token: it reaches up to
/// the next whitespace.
pub open spec fn scan_at(b: Seq<u8>, s: int) -> (Option<TokenKind>, int) {
    let c = b[s];
    let d: int = if s + 1 < b.len() {
        b[s + 1] as int
    } else {
        -1
    };
    if c == 0x2b {
        (Some(TokenKind::Add), s + 1)
    } else if c == 0x2d {
        (Some(TokenKind::Sub), s + 1)
    } else if c == 0x2a {
        (Some(TokenKind::Mul), s + 1)
    } else if c == 0x2f {
        (Some(TokenKind::Div), s + 1)
    } else if c == 0x28 {
        (Some(TokenKind::Sep(Separator::RoundBracketL)), s + 1)
    } else if c == 0x29 {
        (Some(TokenKind::Sep(Separator::RoundBracketR)), s + 1)
    } else if c == 0x3b {
        (Some(TokenKind::Sep(Separator::SemiColon)), s + 1)
    } else if is_digit(c) {
        let e = digits_end(b, s);
        (Some(TokenKind::Number(digits_value(b.subrange(s, e)) as i64)), e)
    } else if is_lower(c) {
        (Some(TokenKind::Ident), s + 1)
    } else if c == 0x3d && d == 0x3d {
        (Some(TokenKind::Eq), s + 2)
    } else if c == 0x21 && d == 0x3d {
        (Some(TokenKind::NotEq), s + 2)
    } else if c == 0x3c && d == 0x3d {
        (Some(TokenKind::LessEq), s + 2)
    } else if c == 0x3e && d == 0x3d {
        (Some(TokenKind::GreaterEq), s + 2)
    } else if c == 0x3c {
        (Some(TokenKind::Less), s + 1)
    } else if c == 0x3e {
        (Some(TokenKind::Greater), s + 1)
    } else if c == 0x3d {
        (Some(TokenKind::Assign), s + 1)
    } else {
        (None, word_end(b, s))
    }
}

/// A token as the grammar sees it: its kind, its bytes and its byte range.
pub struct Lexeme {
    pub kind: TokenKind,
    pub text: Seq<u8>,
    pub start: int,
    pub end: int,
}

pub open spec fn lexeme(b: Seq<u8>, kind: TokenKind, s: int, e: int) -> Lexeme {
    Lexeme { kind, text: b.subrange(s, e), start: s, end: e }
}

/// The tokens of `b` from position `p` on, in order; unscannable runs are skipped.
pub open spec fn lex_tokens(b: Seq<u8>, p: int) -> Seq<Lexeme>
    decreases b.len() - p,
{
    let s = skip_spaces(b, p);
    if p < 0 || s >= b.len() {
        seq![]
    } else {
        proof {
            lemma_scan_progress(b, p);
        }
        let (k, e) = scan_at(b, s);
        match k {
            Some(kind) => seq![lexeme(b, kind, s, e)] + lex_tokens(b, e),
            None => lex_tokens(b, e),
        }
    }
}

/// The byte ranges of the unscannable runs of `b` from position `p` on, in order.
pub open spec fn lex_errors(b: Seq<u8>, p: int) -> Seq<(int, int)>
    decreases b.len() - p,
{
    let s = skip_spaces(b, p);
    if p < 0 || s >= b.len() {
        seq![]
    } else {
        proof {
            lemma_scan_progress(b, p);
        }
        let (k, e) = scan_at(b, s);
        match k {
            Some(kind) => lex_errors(b, e),
            None => seq![(s, e)] + lex_errors(b, e),
        }
    }
}

pub proof fn lemma_skip_spaces(b: Seq<u8>, p: int)
    requires
        0 <= p <= b.len(),
    ensures
        p <= skip_spaces(b, p) <= b.len(),
        forall|i: int| p <= i < skip_spaces(b, p) ==> is_space(b[i]),
        skip_spaces(b, p) < b.len() ==> !is_space(b[skip_spaces(b, p)]),
    decreases b.len() - p,
{
    if p < b.len() && is_space(b[p]) {
        lemma_skip_spaces(b, p + 1);
    }
}

pub proof fn lemma_digits_end(b: Seq<u8>, p: int)
    requires
        0 <= p <= b.len(),
    ensures
        p <= digits_end(b, p) <= b.len(),
        forall|i: int| p <= i < digits_end(b, p) ==> is_digit(b[i]),
        digits_end(b, p) < b.len() ==> !is_digit(b[digits_end(b, p)]),
    decreases b.len() - p,
{
    if p < b.len() && is_digit(b[p]) {
        lemma_digits_end(b, p + 1);
    }
}

pub proof fn lemma_word_end(b: Seq<u8>, p: int)
    requires
        0 <= p <= b.len(),
    ensures
        p <= word_end(b, p) <= b.len(),
        forall|i: int| p <= i < word_end(b, p) ==> !is_space(b[i]),
        word_end(b, p) < b.len() ==> is_space(b[word_end(b, p)]),
    decreases b.len() - p,
{
    if p < b.len() && !is_space(b[p]) {
        lemma_word_end(b, p + 1);
    }
}

/// The token or run found after the whitespace at `p` ends past `p`, within `b`.
pub proof fn lemma_scan_progress(b: Seq<u8>, p: int)
    requires
        0 <= p,
        skip_spaces(b, p) < b.len(),
    ensures
        p <= skip_spaces(b, p) < scan_at(b, skip_spaces(b, p)).1 <= b.len(),
{
    if p > b.len() {
        // skip_spaces returns p itself here
    } else {
        lemma_skip_spaces(b, p);
        let s = skip_spaces(b, p);
        lemma_digits_end(b, s);
        lemma_word_end(b, s);
    }
}

/// `digits_end` stops at `q` when only digits lie between `p` and `q`.
proof fn lemma_digits_to(b: Seq<u8>, p: int, q: int)
    requires
        0 <= p <= q <= b.len(),
        forall|k: int| p <= k < q ==> is_digit(b[k]),
        q == b.len() || !is_digit(b[q]),
    ensures
        digits_end(b, p) == q,
    decreases q - p,
{
    if p < q {
        lemma_digits_to(b, p + 1, q);
    }
}

/// Every token scanned from `p` on starts at or after `p`.
proof fn lemma_tokens_after(b: Seq<u8>, p: int)
    requires
        0 <= p,
    ensures
        forall|k: int| 0 <= k < lex_tokens(b, p).len() ==> (#[trigger] lex_tokens(b, p)[k]).start >= p,
    decreases b.len() - p,
{
    let s = skip_spaces(b, p);
    if s < b.len() {
        lemma_scan_progress(b, p);
        let (kd, e) = scan_at(b, s);
        lemma_tokens_after(b, e);
        if kd is Some {
            let rest = lex_tokens(b, e);
            assert forall|k: int| 0 <= k < lex_tokens(b, p).len() implies (#[trigger] lex_tokens(
                b,
                p,
            )[k]).start >= p by {
                if k > 0 {
                    assert(lex_tokens(b, p)[k] == rest[k - 1]);
                }
            }
        }
    }
}

/// Tokens scanned from `p` on are non-empty and come in order without overlap.
proof fn lemma_tokens_ordered(b: Seq<u8>, p: int)
    requires
        0 <= p,
    ensures
        forall|k: int|
            0 <= k < lex_tokens(b, p).len() ==> (#[trigger] lex_tokens(b, p)[k]).start < lex_tokens(
                b,
                p,
            )[k].end,
        forall|k1: int, k2: int|
            0 <= k1 < k2 < lex_tokens(b, p).len() ==> (#[trigger] lex_tokens(b, p)[k1]).end
                <= (#[trigger] lex_tokens(b, p)[k2]).start,
    decreases b.len() - p,
{
    let s = skip_spaces(b, p);
    if s < b.len() {
        lemma_scan_progress(b, p);
        let (kd, e) = scan_at(b, s);
        lemma_tokens_ordered(b, e);
        lemma_tokens_after(b, e);
        if kd is Some {
            let rest = lex_tokens(b, e);
            let all = lex_tokens(b, p);
            assert(all == seq![lexeme(b, kd->Some_0, s, e)] + rest);
            assert forall|k: int| 0 <= k < all.len() implies (#[trigger] all[k]).start < all[k].end by {
                if k > 0 {
                    assert(all[k] == rest[k - 1]);
                }
            }
            assert forall|k1: int, k2: int|
                0 <= k1 < k2 < all.len() implies (#[trigger] all[k1]).end <= (
                #[trigger] all[k2]).start by {
                assert(all[k2] == rest[k2 - 1]);
                if k1 > 0 {
                    assert(all[k1] == rest[k1 - 1]);
                }
            }
        }
    }
}

/// `b[i..j]` is a maximal run of digits.
pub open spec fn digit_run(b: Seq<u8>, i: int, j: int) -> bool {
    &&& 0 <= i < j <= b.len()
    &&& forall|k: int| i <= k < j ==> is_digit(b[k])
    &&& (i == 0 || !is_digit(b[i - 1]))
    &&& (j == b.len() || !is_digit(b[j]))
}

/// The token `t` shares a byte with the range `i..j`.
pub open spec fn meets(t: Lexeme, i: int, j: int) -> bool {
    t.start < j && i < t.end
}

proof fn lemma_run_from(b: Seq<u8>, p: int, i: int, j: int)
    requires
        0 <= p <= i,
        digit_run(b, i, j),
        lex_errors(b, p).len() == 0,
    ensures
        exists|k: int|
            0 <= k < lex_tokens(b, p).len() && #[trigger] lex_tokens(b, p)[k] == lexeme(
                b,
                TokenKind::Number(digits_value(b.subrange(i, j)) as i64),
                i,
                j,
            ),
        forall|k: int|
            0 <= k < lex_tokens(b, p).len() && meets(#[trigger] lex_tokens(b, p)[k], i, j)
                ==> lex_tokens(b, p)[k] == lexeme(
                b,
                TokenKind::Number(digits_value(b.subrange(i, j)) as i64),
                i,
                j,
            ),
    decreases i - p,
{
    let target = lexeme(b, TokenKind::Number(digits_value(b.subrange(i, j)) as i64), i, j);
    lemma_skip_spaces(b, p);
    let s = skip_spaces(b, p);
    assert(s <= i) by {
        if s > i {
            assert(is_space(b[i]));
        }
    }
    lemma_scan_progress(b, p);
    let (kd, e) = scan_at(b, s);
    lemma_digits_end(b, s);
    lemma_word_end(b, s);
    if s == i {
        lemma_digits_to(b, i, j);
        let rest = lex_tokens(b, j);
        lemma_tokens_after(b, j);
        assert(lex_tokens(b, p) == seq![target] + rest);
        assert(lex_tokens(b, p)[0] == target);
        assert forall|k: int|
            0 <= k < lex_tokens(b, p).len() && meets(#[trigger] lex_tokens(b, p)[k], i, j)
                implies lex_tokens(b, p)[k] == target by {
            if k > 0 {
                assert(lex_tokens(b, p)[k] == rest[k - 1]);
            }
        }
    } else {
        if kd is None {
            assert(lex_errors(b, p) == seq![(s, e)] + lex_errors(b, e));
        }
        assert(e <= i) by {
            if is_digit(b[s]) && e > i {
                assert(is_digit(b[i - 1]));
            }
        }
        assert(lex_errors(b, p) == lex_errors(b, e));
        lemma_run_from(b, e, i, j);
        let first = lexeme(b, kd->Some_0, s, e);
        let rest = lex_tokens(b, e);
        assert(lex_tokens(b, p) == seq![first] + rest);
        let k0 = choose|k: int| 0 <= k < rest.len() && #[trigger] rest[k] == target;
        assert(lex_tokens(b, p)[k0 + 1] == target);
        assert forall|k: int|
            0 <= k < lex_tokens(b, p).len() && meets(#[trigger] lex_tokens(b, p)[k], i, j)
                implies lex_tokens(b, p)[k] == target by {
            if k > 0 {
                assert(lex_tokens(b, p)[k] == rest[k - 1]);
            }
        }
    }
}

/// A maximal run of digits anywhere in a text that has no unscannable run is met
/// by exactly one token, at exactly one index: the integer literal whose value is
/// the run's decimal value and whose range and text are the run's own.
pub proof fn lemma_digit_run(b: Seq<u8>, i: int, j: int)
    requires
        digit_run(b, i, j),
        lex_errors(b, 0).len() == 0,
        digits_value(b.subrange(i, j)) <= i64::MAX,
    ensures
        exists|k: int|
            0 <= k < lex_tokens(b, 0).len() && #[trigger] lex_tokens(b, 0)[k] == lexeme(
                b,
                TokenKind::Number(digits_value(b.subrange(i, j)) as i64),
                i,
                j,
            ),
        forall|k: int|
            0 <= k < lex_tokens(b, 0).len() && meets(#[trigger] lex_tokens(b, 0)[k], i, j)
                ==> lex_tokens(b, 0)[k] == lexeme(
                b,
                TokenKind::Number(digits_value(b.subrange(i, j)) as i64),
                i,
                j,
            ),
        forall|k1: int, k2: int|
            0 <= k1 < lex_tokens(b, 0).len() && 0 <= k2 < lex_tokens(b, 0).len() && meets(
                #[trigger] lex_tokens(b, 0)[k1],
                i,
                j,
            ) && meets(#[trigger] lex_tokens(b, 0)[k2], i, j) ==> k1 == k2,
        (digits_value(b.subrange(i, j)) as i64) as int == digits_value(b.subrange(i, j)),
{
    lemma_run_from(b, 0, i, j);
    lemma_tokens_ordered(b, 0);
    let ts = lex_tokens(b, 0);
    assert forall|k1: int, k2: int|
        0 <= k1 < ts.len() && 0 <= k2 < ts.len() && meets(#[trigger] ts[k1], i, j) && meets(
            #[trigger] ts[k2],
            i,
            j,
        ) implies k1 == k2 by {
        if k1 < k2 {
            assert(ts[k1].end <= ts[k2].start);
        } else if k2 < k1 {
            assert(ts[k2].end <= ts[k1].start);
        }
    }
    assert forall|k: int| 0 <= k < b.subrange(i, j).len() implies is_digit(
        #[trigger] b.subrange(i, j)[k],
    ) by {
        assert(b.subrange(i, j)[k] == b[i + k]);
    }
    lemma_value_nonneg(b.subrange(i, j));
}

/// Scanning `l`'s own text yields `l`'s kind once, over the whole text.
pub open spec fn relexes(l: Lexeme) -> bool {
    &&& lex_tokens(l.text, 0) == seq![lexeme(l.text, l.kind, 0, l.text.len() as int)]
    &&& lex_errors(l.text, 0).len() == 0
}

#[verifier::rlimit(40)]
proof fn lemma_token_relexes(b: Seq<u8>, s: int)
    requires
        0 <= s < b.len(),
        scan_at(b, s).0 is Some,
    ensures
        relexes(lexeme(b, scan_at(b, s).0->Some_0, s, scan_at(b, s).1)),
{
    let (k, e) = scan_at(b, s);
    lemma_digits_end(b, s);
    lemma_word_end(b, s);
    let t = b.subrange(s, e);
    assert(t.len() > 0);
    assert(t[0] == b[s]);
    if e - s == 2 {
        assert(t[1] == b[s + 1]);
    }
    if is_digit(b[s]) {
        lemma_digits_to(t, 0, t.len() as int);
        assert(t.subrange(0, t.len() as int) =~= t);
    }
    assert(scan_at(t, 0) == (k, t.len() as int));
    assert(lex_tokens(t, t.len() as int).len() == 0);
    assert(lex_errors(t, t.len() as int).len() == 0);
    assert(lex_tokens(t, 0) =~= seq![lexeme(t, k->Some_0, 0, t.len() as int)]);
}

/// The text of a token holds only literals that fit, when the literal that the
/// scanner reads there fits.
proof fn lemma_token_fits(b: Seq<u8>, s: int)
    requires
        0 <= s < b.len(),
        scan_at(b, s).0 is Some,
        is_digit(b[s]) ==> digits_value(b.subrange(s, scan_at(b, s).1)) <= i64::MAX,
    ensures
        literals_fit(b.subrange(s, scan_at(b, s).1)),
{
    let (k, e) = scan_at(b, s);
    lemma_token_relexes(b, s);
    lemma_digits_end(b, s);
    let t = b.subrange(s, e);
    assert(t[0] == b[s]);
    assert(skip_spaces(t, 0) == 0);
    if e - s == 2 {
        assert(t[1] == b[s + 1]);
    }
    if is_digit(b[s]) {
        lemma_digits_to(t, 0, t.len() as int);
        assert(t.subrange(0, t.len() as int) =~= t);
    }
    assert(scan_at(t, 0) == (k, t.len() as int));
    assert(literals_fit_from(t, t.len() as int));
}

/// Every token scanned from `p` on scans alone as itself; its literals fit when
/// those that the scanner reads from `p` on do.
proof fn lemma_round_trip_from(b: Seq<u8>, p: int)
    requires
        0 <= p,
    ensures
        forall|i: int| 0 <= i < lex_tokens(b, p).len() ==> relexes(#[trigger] lex_tokens(b, p)[i]),
        literals_fit_from(b, p) ==> forall|i: int|
            0 <= i < lex_tokens(b, p).len() ==> literals_fit((#[trigger] lex_tokens(b, p)[i]).text),
    decreases b.len() - p,
{
    let s = skip_spaces(b, p);
    if s < b.len() {
        lemma_scan_progress(b, p);
        lemma_skip_spaces(b, p);
        lemma_digits_end(b, s);
        lemma_word_end(b, s);
        let (k, e) = scan_at(b, s);
        lemma_round_trip_from(b, e);
        if k is Some {
            lemma_token_relexes(b, s);
            if literals_fit_from(b, p) {
                lemma_token_fits(b, s);
            }
            let rest = lex_tokens(b, e);
            assert(lex_tokens(b, p) == seq![lexeme(b, k->Some_0, s, e)] + rest);
            assert forall|i: int| 0 <= i < lex_tokens(b, p).len() implies relexes(
                #[trigger] lex_tokens(b, p)[i],
            ) by {
                if i > 0 {
                    assert(lex_tokens(b, p)[i] == rest[i - 1]);
                }
            }
            if literals_fit_from(b, p) {
                assert forall|i: int| 0 <= i < lex_tokens(b, p).len() implies literals_fit(
                    (#[trigger] lex_tokens(b, p)[i]).text,
                ) by {
                    if i > 0 {
                        assert(lex_tokens(b, p)[i] == rest[i - 1]);
                    }
                }
            }
        }
    }
}

/// Span round trip: scanning the text of any token on its own gives back exactly
/// one token, of the same kind and over that whole text; and when the literals of
/// the whole text fit in an `i64`, so do those of each token's text, which can
/// then be given to `RawStream::new`.
pub proof fn lemma_span_round_trip(b: Seq<u8>)
    ensures
        forall|i: int| 0 <= i < lex_tokens(b, 0).len() ==> relexes(#[trigger] lex_tokens(b, 0)[i]),
        literals_fit(b) ==> forall|i: int|
            0 <= i < lex_tokens(b, 0).len() ==> literals_fit((#[trigger] lex_tokens(b, 0)[i]).text),
{
    lemma_round_trip_from(b, 0);
}

// ---------------------------------------------------------------------------
// Tokens.
// ---------------------------------------------------------------------------
#[derive(Debug, Clone, Copy, PartialEq, Eq, Structural)]
pub enum Separator {
    RoundBracketL,
    RoundBracketR,
    SemiColon,
}

#[derive(Debug, Copy, Clone, PartialEq, Eq, Structural)]
pub enum TokenKind {
    Ident,
    Number(i64),
    Add,
    Sub,
    Mul,
    Div,
    /// `==`
    Eq,
    /// `!=`
    NotEq,
    /// `<`
    Less,
    /// `<=`
    LessEq,
    /// `>`
    Greater,
    /// `>=`
    GreaterEq,
    /// `=`
    Assign,
    Sep(Separator),
}

/// A token: its text, which borrows from the source, its kind and its byte range.
#[derive(Debug, PartialEq)]
pub struct Token<'a> {
    pub text: &'a str,
    pub kind: TokenKind,
    pub span: Range<usize>,
}

impl<'a> View for Token<'a> {
    type V = Lexeme;

    open spec fn view(&self) -> Lexeme {
        Lexeme {
            kind: self.kind,
            text: self.text.spec_bytes(),
            start: self.span.start as int,
            end: self.span.end as int,
        }
    }
}

/// `err` reports the unscannable run `b[s..e]`: its text and its range.
pub open spec fn reports_run(err: CompileError, b: Seq<u8>, s: int, e: int) -> bool {
    &&& err.pos matches Some(r) && r.start == s && r.end == e
    &&& err.error_type matches CompileErrorType::Tokenizing(TokenizeError(m)) && encode_utf8(m@)
        == b.subrange(s, e)
}

// ---------------------------------------------------------------------------
// Byte positions and UTF-8.
// ---------------------------------------------------------------------------
/// `p` is the end of `b` or the first byte of a character.
pub open spec fn at_boundary(b: Seq<u8>, p: int) -> bool {
    p == b.len() || (0 <= p < b.len() && !is_continuation_byte(b[p]))
}

proof fn lemma_boundary(b: Seq<u8>, p: int)
    requires
        valid_utf8(b),
        at_boundary(b, p),
    ensures
        is_char_boundary(b, p),
{
    is_char_boundary_start_end_of_seq(b);
    if p < b.len() {
        is_char_boundary_iff_not_is_continuation_byte(b, p);
    }
}

/// A byte below 0x80 is a whole character, so the next position is a boundary.
proof fn lemma_after_ascii(b: Seq<u8>, p: int)
    requires
        valid_utf8(b),
        at_boundary(b, p),
        p < b.len(),
        b[p] < 0x80,
    ensures
        at_boundary(b, p + 1),
{
    if p + 1 < b.len() {
        lemma_boundary(b, p);
        valid_utf8_split(b, p);
        let c = b.subrange(p, b.len() as int);
        assert(c[0] == b[p]);
        assert(valid_utf8(c));
        assert(length_of_first_scalar(c) == 1);
        let rest = pop_first_scalar(c);
        assert(valid_utf8(rest));
        assert(rest.len() > 0);
        assert(valid_first_scalar(rest));
        assert(rest[0] == b[p + 1]);
    }
}

proof fn lemma_str_valid(s: &str)
    ensures
        valid_utf8(s.spec_bytes()),
{
    encode_utf8_valid_utf8(s@);
}

/// What one step of the scanner from position `p` yields, `r`, and where it leaves
/// the cursor, `q`: nothing once only whitespace is left; else the token or the
/// unscannable run that starts after the whitespace.
pub open spec fn scanned(
    b: Seq<u8>,
    p: int,
    q: int,
    r: Option<Result<Token, CompileError>>,
) -> bool {
    let s = skip_spaces(b, p);
    if s >= b.len() {
        r is None && q == b.len()
    } else {
        let (k, e) = scan_at(b, s);
        &&& q == e
        &&& match k {
            Some(kind) => r matches Some(Ok(t)) && t@ == lexeme(b, kind, s, e),
            None => r matches Some(Err(err)) && reports_run(err, b, s, e),
        }
    }
}

proof fn lemma_value_nonneg(d: Seq<u8>)
    requires
        forall|i: int| 0 <= i < d.len() ==> is_digit(d[i]),
    ensures
        digits_value(d) >= 0,
    decreases d.len(),
{
    if d.len() > 0 {
        lemma_value_nonneg(d.drop_last());
    }
}

/// A longer run of digits has a value at least as large.
proof fn lemma_value_grows(b: Seq<u8>, s: int, j: int, e: int)
    requires
        0 <= s <= j <= e <= b.len(),
        forall|i: int| s <= i < e ==> is_digit(b[i]),
    ensures
        digits_value(b.subrange(s, j)) <= digits_value(b.subrange(s, e)),
    decreases e - j,
{
    if j < e {
        lemma_value_grows(b, s, j, e - 1);
        let d = b.subrange(s, e);
        assert(d.drop_last() =~= b.subrange(s, e - 1));
        lemma_value_nonneg(d.drop_last());
    }
}

fn byte_is_space(c: u8) -> (r: bool)
    ensures
        r == is_space(c),
{
    c == 0x20 || c == 0x09 || c == 0x0a || c == 0x0c || c == 0x0d
}

fn byte_is_digit(c: u8) -> (r: bool)
    ensures
        r == is_digit(c),
{
    0x30 <= c && c <= 0x39
}

/// The value of a string of digits that fits in an `i64`.
fn decimal_value(text: &str) -> (v: i64)
    requires
        forall|i: int| 0 <= i < text.spec_bytes().len() ==> is_digit(#[trigger] text.spec_bytes()[i]),
        digits_value(text.spec_bytes()) <= i64::MAX,
    ensures
        v == digits_value(text.spec_bytes()),
{
    let bytes = text.as_bytes();
    let ghost d = text.spec_bytes();
    let mut v: i64 = 0;
    let mut i: usize = 0;
    while i < bytes.len()
        invariant
            bytes@ == d,
            i <= d.len(),
            forall|k: int| 0 <= k < d.len() ==> is_digit(#[trigger] d[k]),
            digits_value(d) <= i64::MAX,
            v == digits_value(d.subrange(0, i as int)),
        decreases d.len() - i,
    {
        proof {
            assert(d.subrange(0, i + 1).drop_last() =~= d.subrange(0, i as int));
            lemma_value_grows(d, 0, i + 1, d.len() as int);
            assert(d.subrange(0, d.len() as int) =~= d);
            lemma_value_nonneg(d.subrange(0, i as int));
        }
        v = v * 10 + (bytes[i] - 0x30) as i64;
        i = i + 1;
    }
    proof {
        assert(d.subrange(0, d.len() as int) =~= d);
    }
    v
}

/// The end of the token, or of the unscannable run, that starts at `s`.
fn scan_end(bytes: &[u8], s: usize) -> (e: usize)
    requires
        s < bytes@.len(),
    ensures
        e == scan_at(bytes@, s as int).1,
{
    let ghost b = bytes@;
    let c = bytes[s];
    let eq_next = bytes.len() - s > 1 && bytes[s + 1] == 0x3d;
    if c == 0x2b || c == 0x2d || c == 0x2a || c == 0x2f || c == 0x28 || c == 0x29 || c == 0x3b {
        s + 1
    } else if byte_is_digit(c) {
        let mut e = s;
        while e < bytes.len() && byte_is_digit(bytes[e])
            invariant
                bytes@ == b,
                s <= e <= b.len(),
                digits_end(b, s as int) == digits_end(b, e as int),
            decreases b.len() - e,
        {
            e = e + 1;
        }
        e
    } else if 0x61 <= c && c <= 0x7a {
        s + 1
    } else if (c == 0x3d || c == 0x21 || c == 0x3c || c == 0x3e) && eq_next {
        s + 2
    } else if c == 0x3c || c == 0x3e || c == 0x3d {
        s + 1
    } else {
        let mut e = s;
        while e < bytes.len() && !byte_is_space(bytes[e])
            invariant
                bytes@ == b,
                s <= e <= b.len(),
                word_end(b, s as int) == word_end(b, e as int),
            decreases b.len() - e,
        {
            e = e + 1;
        }
        e
    }
}

/// Whether the digits `bytes[s..e]` have a value that fits in an `i64`.
fn digits_fit(bytes: &[u8], s: usize, e: usize) -> (r: bool)
    requires
        s <= e <= bytes@.len(),
        forall|k: int| s <= k < e ==> is_digit(bytes@[k]),
    ensures
        r == (digits_value(bytes@.subrange(s as int, e as int)) <= i64::MAX),
{
    let ghost b = bytes@;
    let mut v: i64 = 0;
    let mut i = s;
    while i < e
        invariant
            bytes@ == b,
            s <= i <= e <= b.len(),
            forall|k: int| s <= k < e ==> is_digit(b[k]),
            v == digits_value(b.subrange(s as int, i as int)),
        decreases e - i,
    {
        let next: i128 = v as i128 * 10 + (bytes[i] - 0x30) as i128;
        proof {
            let d = b.subrange(s as int, i + 1);
            assert(d.drop_last() =~= b.subrange(s as int, i as int));
            assert(d.last() == b[i as int]);
            assert(next == digits_value(d));
            lemma_value_nonneg(d);
        }
        if next > i64::MAX as i128 {
            proof {
                lemma_value_grows(b, s as int, i + 1, e as int);
            }
            return false;
        }
        v = next as i64;
        i = i + 1;
    }
    true
}

/// Whether every integer literal that the scanner reads in `src` fits in an
/// `i64`, which `RawStream::new` requires of its source.
#[verifier::rlimit(40)]
pub fn literals_in_range(src: &str) -> (r: bool)
    ensures
        r == literals_fit(src.spec_bytes()),
{
    let bytes = src.as_bytes();
    let ghost b = src.spec_bytes();
    let mut p: usize = 0;
    loop
        invariant
            b == src.spec_bytes(),
            bytes@ == b,
            p <= b.len(),
            literals_fit(b) == literals_fit_from(b, p as int),
        decreases b.len() - p,
    {
        let ghost p0 = p as int;
        while p < bytes.len() && byte_is_space(bytes[p])
            invariant
                bytes@ == b,
                p0 <= p <= b.len(),
                skip_spaces(b, p0) == skip_spaces(b, p as int),
            decreases b.len() - p,
        {
            p = p + 1;
        }
        if p >= bytes.len() {
            return true;
        }
        proof {
            lemma_scan_progress(b, p0);
            lemma_digits_end(b, p as int);
        }
        let e = scan_end(bytes, p);
        if byte_is_digit(bytes[p]) {
            if !digits_fit(bytes, p, e) {
                return false;
            }
        }
        p = e;
    }
}

// ---------------------------------------------------------------------------
// The scanner.
// ---------------------------------------------------------------------------
/// A cursor over the source text that hands out one token, or one unscannable
/// run, at a time.
#[derive(Debug)]
pub struct RawStream<'a> {
    src: &'a str,
    pos: usize,
}

impl<'a> RawStream<'a> {
    /// The bytes of the source text.
    pub closed spec fn source(&self) -> Seq<u8> {
        self.src.spec_bytes()
    }

    /// The position of the cursor.
    pub closed spec fn position(&self) -> int {
        self.pos as int
    }

    pub closed spec fn wf(&self) -> bool {
        &&& self.pos <= self.src.spec_bytes().len()
        &&& at_boundary(self.src.spec_bytes(), self.pos as int)
        &&& literals_fit_from(self.src.spec_bytes(), self.pos as int)
    }

    pub fn new(src: &'a str) -> (r: Self)
        requires
            literals_fit(src.spec_bytes()),
        ensures
            r.wf(),
            r.source() == src.spec_bytes(),
            r.position() == 0,
    {
        proof {
            lemma_str_valid(src);
            let b = src.spec_bytes();
            if b.len() > 0 {
                is_char_boundary_start_end_of_seq(b);
                is_char_boundary_iff_not_is_continuation_byte(b, 0);
            }
        }
        RawStream { src, pos: 0 }
    }

    /// The bytes of the source text.
    fn rest(&self) -> (r: &'a [u8])
        ensures
            r@ == self.src.spec_bytes(),
    {
        self.src.as_bytes()
    }

    fn peek(&self) -> (r: Option<u8>)
        requires
            self.pos <= self.src.spec_bytes().len(),
        ensures
            r == (if self.pos < self.src.spec_bytes().len() {
                Some(self.src.spec_bytes()[self.pos as int])
            } else {
                None::<u8>
            }),
    {
        let bytes = self.rest();
        if self.pos < bytes.len() {
            Some(bytes[self.pos])
        } else {
            None
        }
    }

    /// The byte at the cursor and the one after it.
    fn peek2(&self) -> (r: (Option<u8>, Option<u8>))
        requires
            self.pos < self.src.spec_bytes().len(),
        ensures
            r.0 == Some(self.src.spec_bytes()[self.pos as int]),
            r.1 == (if self.pos + 1 < self.src.spec_bytes().len() {
                Some(self.src.spec_bytes()[self.pos + 1])
            } else {
                None::<u8>
            }),
    {
        let bytes = self.rest();
        let second = if bytes.len() - self.pos > 1 {
            Some(bytes[self.pos + 1])
        } else {
            None
        };
        (Some(bytes[self.pos]), second)
    }

    /// Moves the cursor past one byte.
    fn advance(&mut self) -> (r: Option<u8>)
        requires
            old(self).pos <= old(self).src.spec_bytes().len(),
        ensures
            final(self).src == old(self).src,
            r == (if old(self).pos < old(self).src.spec_bytes().len() {
                Some(old(self).src.spec_bytes()[old(self).pos as int])
            } else {
                None::<u8>
            }),
            final(self).pos == (if r is Some {
                old(self).pos + 1
            } else {
                old(self).pos as int
            }),
    {
        let bytes = self.rest();
        if self.pos < bytes.len() {
            let c = bytes[self.pos];
            self.pos = self.pos + 1;
            Some(c)
        } else {
            None
        }
    }

    /// The text between two boundaries of the source.
    fn slice(&self, start: usize, end: usize) -> (r: &'a str)
        requires
            start <= end <= self.src.spec_bytes().len(),
            at_boundary(self.src.spec_bytes(), start as int),
            at_boundary(self.src.spec_bytes(), end as int),
        ensures
            r.spec_bytes() == self.src.spec_bytes().subrange(start as int, end as int),
    {
        let ghost b = self.src.spec_bytes();
        proof {
            lemma_str_valid(self.src);
            lemma_boundary(b, start as int);
        }
        let (_, rest) = self.src.split_at(start);
        proof {
            let c = rest.spec_bytes();
            assert(c =~= b.subrange(start as int, b.len() as int));
            lemma_str_valid(rest);
            if end < b.len() {
                assert(c[end - start] == b[end as int]);
            }
            lemma_boundary(c, end - start);
        }
        let (text, _) = rest.split_at(end - start);
        proof {
            assert(text.spec_bytes() =~= b.subrange(start as int, end as int));
        }
        text
    }

    /// Moves the cursor over whitespace.
    fn skip_whitespace(&mut self)
        requires
            old(self).wf(),
        ensures
            final(self).wf(),
            final(self).src == old(self).src,
            final(self).pos == skip_spaces(old(self).src.spec_bytes(), old(self).pos as int),
    {
        let ghost b = self.src.spec_bytes();
        let ghost p = self.pos as int;
        proof {
            lemma_str_valid(self.src);
        }
        let ghost src = self.src;
        while self.pos < self.rest().len() && byte_is_space(self.rest()[self.pos])
            invariant
                self.src == src,
                self.wf(),
                self.src.spec_bytes() == b,
                p <= self.pos,
                skip_spaces(b, p) == skip_spaces(b, self.pos as int),
                valid_utf8(b),
            decreases b.len() - self.pos,
        {
            proof {
                lemma_after_ascii(b, self.pos as int);
            }
            self.advance();
        }
    }

    /// Moves the cursor over a run of digits; the run's text and range.
    fn take_digits(&mut self) -> (r: (&'a str, Range<usize>))
        requires
            old(self).wf(),
            old(self).pos < old(self).src.spec_bytes().len(),
        ensures
            final(self).wf(),
            final(self).src == old(self).src,
            final(self).pos == digits_end(old(self).src.spec_bytes(), old(self).pos as int),
            r.1.start == old(self).pos,
            r.1.end == final(self).pos,
            r.0.spec_bytes() == old(self).src.spec_bytes().subrange(
                old(self).pos as int,
                final(self).pos as int,
            ),
    {
        let ghost b = self.src.spec_bytes();
        let start = self.pos;
        proof {
            lemma_str_valid(self.src);
        }
        let ghost src = self.src;
        while self.pos < self.rest().len() && byte_is_digit(self.rest()[self.pos])
            invariant
                self.src == src,
                self.pos <= b.len(),
                at_boundary(b, self.pos as int),
                self.src.spec_bytes() == b,
                start <= self.pos,
                digits_end(b, start as int) == digits_end(b, self.pos as int),
                valid_utf8(b),
            decreases b.len() - self.pos,
        {
            proof {
                lemma_after_ascii(b, self.pos as int);
            }
            self.advance();
        }
        let end = self.pos;
        (self.slice(start, end), Range { start, end })
    }

    /// Moves the cursor up to the next whitespace; the text passed over and its range.
    fn take_word(&mut self) -> (r: (&'a str, Range<usize>))
        requires
            old(self).wf(),
            old(self).pos < old(self).src.spec_bytes().len(),
            !is_space(old(self).src.spec_bytes()[old(self).pos as int]),
            scan_at(old(self).src.spec_bytes(), old(self).pos as int).0 is None,
        ensures
            final(self).wf(),
            final(self).src == old(self).src,
            final(self).pos == word_end(old(self).src.spec_bytes(), old(self).pos as int),
            r.1.start == old(self).pos,
            r.1.end == final(self).pos,
            r.0.spec_bytes() == old(self).src.spec_bytes().subrange(
                old(self).pos as int,
                final(self).pos as int,
            ),
    {
        let ghost b = self.src.spec_bytes();
        let start = self.pos;
        let ghost src = self.src;
        while self.pos < self.rest().len() && !byte_is_space(self.rest()[self.pos])
            invariant
                self.src == src,
                self.pos <= b.len(),
                self.src.spec_bytes() == b,
                start <= self.pos,
                word_end(b, start as int) == word_end(b, self.pos as int),
                start < b.len(),
                !is_space(b[start as int]),
                scan_at(b, start as int).0 is None,
                literals_fit_from(b, start as int),
            decreases b.len() - self.pos,
        {
            self.advance();
        }
        let end = self.pos;
        proof {
            lemma_word_end(b, start as int);
            assert(skip_spaces(b, start as int) == start);
        }
        (self.slice(start, end), Range { start, end })
    }

    fn tokenize_number(&mut self) -> (t: Token<'a>)
        requires
            old(self).wf(),
            old(self).pos < old(self).src.spec_bytes().len(),
            is_digit(old(self).src.spec_bytes()[old(self).pos as int]),
        ensures
            final(self).wf(),
            final(self).src == old(self).src,
            ({
                let b = old(self).src.spec_bytes();
                let (k, e) = scan_at(b, old(self).pos as int);
                &&& final(self).pos == e
                &&& k matches Some(kind) && t@ == lexeme(b, kind, old(self).pos as int, e)
            }),
    {
        let ghost b = self.src.spec_bytes();
        let ghost s = self.pos as int;
        let (text, span) = self.take_digits();
        proof {
            lemma_digits_end(b, s);
            assert(text.spec_bytes() =~= b.subrange(s, digits_end(b, s)));
            assert forall|i: int| 0 <= i < text.spec_bytes().len() implies is_digit(
                #[trigger] text.spec_bytes()[i],
            ) by {
                assert(text.spec_bytes()[i] == b[s + i]);
            }
        }
        let value = decimal_value(text);
        Token { text, kind: TokenKind::Number(value), span }
    }

    /// A token of one or two ASCII bytes at the cursor.
    fn tokenize_reserved(&mut self, kind: TokenKind, len: usize) -> (t: Token<'a>)
        requires
            old(self).wf(),
            1 <= len <= 2,
            old(self).pos + len <= old(self).src.spec_bytes().len(),
            !is_space(old(self).src.spec_bytes()[old(self).pos as int]),
            scan_at(old(self).src.spec_bytes(), old(self).pos as int).1 == old(self).pos + len,
            forall|i: int|
                old(self).pos <= i < old(self).pos + len ==> #[trigger] old(
                    self,
                ).src.spec_bytes()[i] < 0x80 && !is_digit(old(self).src.spec_bytes()[i]),
        ensures
            final(self).wf(),
            final(self).src == old(self).src,
            final(self).pos == old(self).pos + len,
            t@ == lexeme(old(self).src.spec_bytes(), kind, old(self).pos as int, old(self).pos + len),
    {
        let ghost b = self.src.spec_bytes();
        proof {
            lemma_str_valid(self.src);
        }
        let start = self.pos;
        let mut i: usize = 0;
        let ghost src = self.src;
        while i < len
            invariant
                self.src == src,
                self.src.spec_bytes() == b,
                self.pos == start + i,
                i <= len,
                start + len <= b.len(),
                at_boundary(b, self.pos as int),
                valid_utf8(b),
                forall|j: int| start <= j < start + len ==> #[trigger] b[j] < 0x80,
                !is_space(b[start as int]),
                scan_at(b, start as int).1 == start + len,
                literals_fit_from(b, start as int),
            decreases len - i,
        {
            proof {
                lemma_after_ascii(b, self.pos as int);
            }
            self.advance();
            i = i + 1;
        }
        let end = self.pos;
        proof {
            assert(skip_spaces(b, start as int) == start);
        }
        let text = self.slice(start, end);
        Token { text, kind, span: Range { start, end } }
    }

    fn tokenize_identifier(&mut self) -> (t: Token<'a>)
        requires
            old(self).wf(),
            old(self).pos < old(self).src.spec_bytes().len(),
            is_lower(old(self).src.spec_bytes()[old(self).pos as int]),
        ensures
            final(self).wf(),
            final(self).src == old(self).src,
            final(self).pos == old(self).pos + 1,
            t@ == lexeme(old(self).src.spec_bytes(), TokenKind::Ident, old(self).pos as int, old(self).pos + 1),
    {
        let ghost b = self.src.spec_bytes();
        proof {
            lemma_str_valid(self.src);
            lemma_after_ascii(b, self.pos as int);
        }
        let start = self.pos;
        self.advance();
        let end = self.pos;
        let text = self.slice(start, end);
        Token { text, kind: TokenKind::Ident, span: Range { start, end } }
    }

    /// Reports the run of bytes at the cursor, up to the next whitespace.
    fn tokenize_unknown(&mut self) -> (err: CompileError)
        requires
            old(self).wf(),
            old(self).pos < old(self).src.spec_bytes().len(),
            !is_space(old(self).src.spec_bytes()[old(self).pos as int]),
            scan_at(old(self).src.spec_bytes(), old(self).pos as int).0 is None,
        ensures
            final(self).wf(),
            final(self).src == old(self).src,
            final(self).pos == word_end(old(self).src.spec_bytes(), old(self).pos as int),
            reports_run(err, old(self).src.spec_bytes(), old(self).pos as int, final(self).pos as int),
    {
        let (text, span) = self.take_word();
        let msg = text.to_string();
        proof {
            assert(msg@ == text@);
        }
        CompileError { error_type: CompileErrorType::Tokenizing(TokenizeError(msg)), pos: Some(span) }
    }

    /// The next token, or the next unscannable run, after the whitespace at the
    /// cursor; `None` once only whitespace is left.
    #[verifier::rlimit(40)]
    pub fn next(&mut self) -> (r: Option<Result<Token<'a>, CompileError>>)
        requires
            old(self).wf(),
        ensures
            final(self).wf(),
            final(self).source() == old(self).source(),
            scanned(old(self).source(), old(self).position(), final(self).position(), r),
    {
        let ghost b = self.src.spec_bytes();
        self.skip_whitespace();
        let ghost s = self.pos as int;
        proof {
            lemma_skip_spaces(b, old(self).pos as int);
        }
        let c = match self.peek() {
            Some(c) => c,
            None => return None,
        };
        if c == 0x2b {
            Some(Ok(self.tokenize_reserved(TokenKind::Add, 1)))
        } else if c == 0x2d {
            Some(Ok(self.tokenize_reserved(TokenKind::Sub, 1)))
        } else if c == 0x2a {
            Some(Ok(self.tokenize_reserved(TokenKind::Mul, 1)))
        } else if c == 0x2f {
            Some(Ok(self.tokenize_reserved(TokenKind::Div, 1)))
        } else if c == 0x28 {
            Some(Ok(self.tokenize_reserved(TokenKind::Sep(Separator::RoundBracketL), 1)))
        } else if c == 0x29 {
            Some(Ok(self.tokenize_reserved(TokenKind::Sep(Separator::RoundBracketR), 1)))
        } else if c == 0x3b {
            Some(Ok(self.tokenize_reserved(TokenKind::Sep(Separator::SemiColon), 1)))
        } else if byte_is_digit(c) {
            Some(Ok(self.tokenize_number()))
        } else if 0x61 <= c && c <= 0x7a {
            Some(Ok(self.tokenize_identifier()))
        } else {
            let (first, second) = self.peek2();
            let two = second == Some(0x3du8);
            if c == 0x3d && two {
                Some(Ok(self.tokenize_reserved(TokenKind::Eq, 2)))
            } else if c == 0x21 && two {
                Some(Ok(self.tokenize_reserved(TokenKind::NotEq, 2)))
            } else if c == 0x3c && two {
                Some(Ok(self.tokenize_reserved(TokenKind::LessEq, 2)))
            } else if c == 0x3e && two {
                Some(Ok(self.tokenize_reserved(TokenKind::GreaterEq, 2)))
            } else if c == 0x3c {
                Some(Ok(self.tokenize_reserved(TokenKind::Less, 1)))
            } else if c == 0x3e {
                Some(Ok(self.tokenize_reserved(TokenKind::Greater, 1)))
            } else if c == 0x3d {
                Some(Ok(self.tokenize_reserved(TokenKind::Assign, 1)))
            } else {
                Some(Err(self.tokenize_unknown()))
            }
        }
    }

    /// Scans the whole rest of the source: every token if no run is unscannable,
    /// else every unscannable run, in order.
    #[verifier::rlimit(40)]
    pub fn check(&mut self) -> (r: Result<RawTokens<'a>, Vec<CompileError>>)
        requires
            old(self).wf(),
        ensures
            ({
                let b = old(self).source();
                let p = old(self).position();
                match r {
                    Ok(toks) => {
                        &&& lex_errors(b, p).len() == 0
                        &&& toks.wf()
                        &&& toks.lexemes() == lex_tokens(b, p)
                        &&& toks.cursor() == 0
                    },
                    Err(errs) => {
                        &&& lex_errors(b, p).len() > 0
                        &&& errs@.len() == lex_errors(b, p).len()
                        &&& forall|i: int|
                            0 <= i < errs@.len() ==> reports_run(
                                #[trigger] errs@[i],
                                b,
                                lex_errors(b, p)[i].0,
                                lex_errors(b, p)[i].1,
                            )
                    },
                }
            }),
    {
        let ghost b = old(self).source();
        let ghost p = old(self).position();
        let mut tokens: Vec<Token<'a>> = Vec::new();
        let mut errors: Vec<CompileError> = Vec::new();
        let ghost mut runs: Seq<(int, int)> = seq![];
        loop
            invariant
                b == old(self).source(),
                p == old(self).position(),
                self.wf(),
                self.source() == b,
                p <= self.position() <= b.len(),
                lex_tokens(b, p) == lexemes_of(tokens@) + lex_tokens(b, self.position()),
                lex_errors(b, p) == runs + lex_errors(b, self.position()),
                errors@.len() == runs.len(),
                forall|i: int|
                    0 <= i < errors@.len() ==> reports_run(
                        #[trigger] errors@[i],
                        b,
                        runs[i].0,
                        runs[i].1,
                    ),
                forall|i: int| 0 <= i < tokens@.len() ==> token_ok(#[trigger] tokens@[i]),
            decreases b.len() - self.position(),
        {
            let ghost q = self.position();
            proof {
                lemma_skip_spaces(b, q);
            }
            match self.next() {
                None => {
                    proof {
                        assert(lex_tokens(b, q) == Seq::<Lexeme>::empty());
                        assert(lex_errors(b, q) == Seq::<(int, int)>::empty());
                        assert(lex_tokens(b, p) =~= lexemes_of(tokens@));
                        assert(lex_errors(b, p) =~= runs);
                    }
                    if errors.len() == 0 {
                        return Ok(RawTokens { raw_tokens: tokens, index: 0 });
                    } else {
                        return Err(errors);
                    }
                },
                Some(Ok(t)) => {
                    proof {
                        lemma_scan_progress(b, q);
                        let s = skip_spaces(b, q);
                        lemma_lexeme_token_ok(b, s);
                        assert(lexemes_of(tokens@.push(t)) =~= lexemes_of(tokens@).push(t@));
                        assert(lex_tokens(b, q) == seq![t@] + lex_tokens(b, self.position()));
                        assert(lex_tokens(b, p) =~= lexemes_of(tokens@.push(t)) + lex_tokens(
                            b,
                            self.position(),
                        ));
                    }
                    tokens.push(t);
                },
                Some(Err(e)) => {
                    proof {
                        lemma_scan_progress(b, q);
                        let s = skip_spaces(b, q);
                        assert(lex_tokens(b, q) == lex_tokens(b, self.position()));
                        assert(lex_errors(b, p) =~= runs.push((s, self.position())) + lex_errors(
                            b,
                            self.position(),
                        ));
                        runs = runs.push((s, self.position()));
                    }
                    errors.push(e);
                },
            }
        }
    }
}

/// The grammar's view of a sequence of tokens.
pub open spec fn lexemes_of(ts: Seq<Token>) -> Seq<Lexeme> {
    ts.map_values(|t: Token| t@)
}

/// What the parser relies on of a token: an identifier is one lowercase letter.
pub open spec fn token_ok(t: Token) -> bool {
    t.kind == TokenKind::Ident ==> t@.text.len() == 1 && is_lower(t@.text[0])
}

proof fn lemma_lexeme_token_ok(b: Seq<u8>, s: int)
    requires
        0 <= s < b.len(),
    ensures
        scan_at(b, s).0 == Some(TokenKind::Ident) ==> is_lower(b[s]) && s + 1 <= b.len(),
{
}

/// The tokens of a source text, with a cursor that the parser moves forward.
#[derive(Debug)]
pub struct RawTokens<'a> {
    raw_tokens: Vec<Token<'a>>,
    index: usize,
}

impl<'a> RawTokens<'a> {
    /// The tokens, as the grammar sees them.
    pub closed spec fn lexemes(&self) -> Seq<Lexeme> {
        lexemes_of(self.raw_tokens@)
    }

    /// How many tokens have been consumed.
    pub closed spec fn cursor(&self) -> int {
        self.index as int
    }

    pub closed spec fn wf(&self) -> bool {
        &&& self.index <= self.raw_tokens@.len()
        &&& forall|i: int| 0 <= i < self.raw_tokens@.len() ==> token_ok(#[trigger] self.raw_tokens@[i])
    }

    /// The token at the cursor, if any is left.
    pub fn peek(&self) -> (r: Option<&Token<'a>>)
        requires
            self.wf(),
        ensures
            0 <= self.cursor() <= self.lexemes().len(),
            (r is Some) == (self.cursor() < self.lexemes().len()),
            r matches Some(t) ==> t@ == self.lexemes()[self.cursor()] && token_ok(*t),
    {
        if self.index < self.raw_tokens.len() {
            Some(&self.raw_tokens[self.index])
        } else {
            None
        }
    }

    /// Moves the cursor past one token.
    pub fn advance(&mut self)
        requires
            old(self).wf(),
            old(self).cursor() < old(self).lexemes().len(),
        ensures
            final(self).wf(),
            final(self).lexemes() == old(self).lexemes(),
            final(self).cursor() == old(self).cursor() + 1,
    {
        if self.index < self.raw_tokens.len() {
            self.index = self.index + 1;
        }
    }
}

} // verus!

use vstd::prelude::*;

use crate::text::{
    char_is_alphabetic, char_is_alphanumeric, chars_of, is_alphabetic, is_alphanumeric,
    is_ascii_digit, is_ascii_letter, is_digit, string_from_chars,
};
use crate::token::{Tok, Token, TokenKind, TokenModel};

verus! {

// ---------------------------------------------------------------------------
// The lexical grammar, as spec functions over the source characters
// ---------------------------------------------------------------------------

/// The character at `i`, or `'\0'` past either end of the source.
pub open spec fn char_at(src: Seq<char>, i: int) -> char {
    if 0 <= i < src.len() {
        src[i]
    } else {
        '\0'
    }
}

/// A character that may begin an identifier: a letter (in ASCII, `a`-`z`
/// and `A`-`Z`), or `_`.
pub open spec fn starts_identifier(c: char) -> bool {
    if (c as u32) < 128 {
        is_ascii_letter(c) || c == '_'
    } else {
        char_is_alphabetic(c)
    }
}

/// A character that may continue an identifier: a letter or a digit (in
/// ASCII, `a`-`z`, `A`-`Z`, `0`-`9`), or `_`.
pub open spec fn continues_identifier(c: char) -> bool {
    if (c as u32) < 128 {
        is_ascii_letter(c) || is_digit(c) || c == '_'
    } else {
        char_is_alphanumeric(c)
    }
}

/// The end of the run of characters from `i` on that `keep` accepts.
pub open spec fn run_end(src: Seq<char>, i: int, keep: spec_fn(char) -> bool) -> int
    decreases src.len() - i,
{
    if 0 <= i < src.len() && keep(src[i]) {
        run_end(src, i + 1, keep)
    } else {
        i
    }
}

/// The end of the run of digits that starts at `i`.
pub open spec fn digits_end(src: Seq<char>, i: int) -> int {
    run_end(src, i, |c: char| is_digit(c))
}

/// The end of the run of identifier characters that starts at `i`.
pub open spec fn ident_end(src: Seq<char>, i: int) -> int {
    run_end(src, i, |c: char| continues_identifier(c))
}

/// The position of the first `'\n'` at or after `i`, or the end of the source.
pub open spec fn line_end(src: Seq<char>, i: int) -> int {
    run_end(src, i, |c: char| c != '\n')
}

/// The position of the first `'"'` at or after `i`, or the end of the source.
pub open spec fn quote_end(src: Seq<char>, i: int) -> int {
    run_end(src, i, |c: char| c != '"')
}

/// The end of a number whose first digit is at `start`: digits, then a
/// fraction only where a digit follows the `.`.
pub open spec fn number_end(src: Seq<char>, start: int) -> int {
    let e = digits_end(src, start + 1);
    if char_at(src, e) == '.' && is_digit(char_at(src, e + 1)) {
        digits_end(src, e + 1)
    } else {
        e
    }
}

/// The keyword that `text` spells, or an identifier.
pub open spec fn keyword_or_identifier(text: Seq<char>) -> Tok {
    if text == seq!['l', 'e', 't'] {
        Tok::Let
    } else if text == seq!['p', 'r', 'i', 'n', 't'] {
        Tok::Print
    } else if text == seq!['i', 'f'] {
        Tok::If
    } else if text == seq!['e', 'l', 's', 'e'] {
        Tok::Else
    } else if text == seq!['w', 'h', 'i', 'l', 'e'] {
        Tok::While
    } else if text == seq!['t', 'r', 'u', 'e'] {
        Tok::True
    } else if text == seq!['f', 'a', 'l', 's', 'e'] {
        Tok::False
    } else {
        Tok::Identifier(text)
    }
}

/// The number of line breaks in `s`.
pub open spec fn newlines(s: Seq<char>) -> nat
    decreases s.len(),
{
    if s.len() == 0 {
        0
    } else {
        newlines(s.drop_last()) + if s.last() == '\n' {
            1nat
        } else {
            0nat
        }
    }
}

/// What goes wrong while scanning.
#[derive(Debug, Clone, Copy, PartialEq, Eq)]
pub enum LexErrorKind {
    /// A character that begins no token.
    UnexpectedCharacter(char),
    /// A string literal that reaches the end of the source.
    UnterminatedString,
}

/// A scanning error and the line it was found on.
#[derive(Debug, Clone, Copy, PartialEq, Eq)]
pub struct LexError {
    pub kind: LexErrorKind,
    pub line: usize,
}

/// One step of the scanner from `start`: the token it finds (if any), where
/// the next step begins, and the error it reports (if any).
pub struct ScanStep {
    pub kind: Option<Tok>,
    pub next: int,
    pub fault: Option<LexErrorKind>,
}

pub open spec fn found(kind: Tok, next: int) -> ScanStep {
    ScanStep { kind: Some(kind), next, fault: None }
}

pub open spec fn skipped(next: int) -> ScanStep {
    ScanStep { kind: None, next, fault: None }
}

/// A one-character token, or a two-character one where `=` follows.
pub open spec fn with_equal(src: Seq<char>, start: int, one: Tok, two: Tok) -> ScanStep {
    if char_at(src, start + 1) == '=' {
        found(two, start + 2)
    } else {
        found(one, start + 1)
    }
}

/// The scanner's step at `start`, which must lie inside the source.
pub open spec fn scan_step(src: Seq<char>, start: int) -> ScanStep {
    let c = src[start];
    if c == '(' {
        found(Tok::LeftParen, start + 1)
    } else if c == ')' {
        found(Tok::RightParen, start + 1)
    } else if c == '{' {
        found(Tok::LeftBrace, start + 1)
    } else if c == '}' {
        found(Tok::RightBrace, start + 1)
    } else if c == ';' {
        found(Tok::Semicolon, start + 1)
    } else if c == '+' {
        found(Tok::Plus, start + 1)
    } else if c == '-' {
        found(Tok::Minus, start + 1)
    } else if c == '*' {
        found(Tok::Star, start + 1)
    } else if c == '"' {
        let q = quote_end(src, start + 1);
        if q >= src.len() {
            ScanStep { kind: None, next: src.len() as int, fault: Some(LexErrorKind::UnterminatedString) }
        } else {
            found(Tok::StringLit(src.subrange(start + 1, q)), q + 1)
        }
    } else if is_digit(c) {
        let e = number_end(src, start);
        found(Tok::Number(src.subrange(start, e)), e)
    } else if starts_identifier(c) {
        let e = ident_end(src, start + 1);
        found(keyword_or_identifier(src.subrange(start, e)), e)
    } else if c == '!' {
        with_equal(src, start, Tok::Bang, Tok::BangEqual)
    } else if c == '=' {
        with_equal(src, start, Tok::Equal, Tok::EqualEqual)
    } else if c == '<' {
        with_equal(src, start, Tok::Less, Tok::LessEqual)
    } else if c == '>' {
        with_equal(src, start, Tok::Greater, Tok::GreaterEqual)
    } else if c == '/' {
        if char_at(src, start + 1) == '/' {
            skipped(line_end(src, start + 2))
        } else {
            found(Tok::Slash, start + 1)
        }
    } else if c == ' ' || c == '\r' || c == '\t' || c == '\n' {
        skipped(start + 1)
    } else {
        ScanStep { kind: None, next: start + 1, fault: Some(LexErrorKind::UnexpectedCharacter(c)) }
    }
}

/// The token a step records, on line `line`.
pub open spec fn step_token(st: ScanStep, line: nat) -> Seq<TokenModel> {
    match st.kind {
        Some(k) => seq![TokenModel { kind: k, line }],
        None => Seq::empty(),
    }
}

/// The error a step reports, on line `line`.
pub open spec fn step_error(st: ScanStep, line: nat) -> Seq<(LexErrorKind, nat)> {
    match st.fault {
        Some(f) => seq![(f, line)],
        None => Seq::empty(),
    }
}

/// The line after scanning from `pos` (on line `line`) up to `next`.
pub open spec fn line_after(src: Seq<char>, pos: int, line: nat, next: int) -> nat {
    line + newlines(src.subrange(pos, next))
}

/// The tokens scanned from `pos`, on line `line`, to the end of the source,
/// closed by `Eof`.
pub open spec fn tokens_from(src: Seq<char>, pos: int, line: nat) -> Seq<TokenModel>
    decreases src.len() - pos,
{
    if pos < 0 || pos >= src.len() {
        seq![TokenModel { kind: Tok::Eof, line }]
    } else {
        let st = scan_step(src, pos);
        proof {
            lemma_scan_step_progress(src, pos);
        }
        let l = line_after(src, pos, line, st.next);
        step_token(st, l) + tokens_from(src, st.next, l)
    }
}

/// The errors reported while scanning from `pos`, on line `line`, to the end.
pub open spec fn errors_from(src: Seq<char>, pos: int, line: nat) -> Seq<(LexErrorKind, nat)>
    decreases src.len() - pos,
{
    if pos < 0 || pos >= src.len() {
        Seq::empty()
    } else {
        let st = scan_step(src, pos);
        proof {
            lemma_scan_step_progress(src, pos);
        }
        let l = line_after(src, pos, line, st.next);
        step_error(st, l) + errors_from(src, st.next, l)
    }
}

// ---------------------------------------------------------------------------
// Lemmas about the grammar
// ---------------------------------------------------------------------------

pub proof fn lemma_run_end(src: Seq<char>, i: int, keep: spec_fn(char) -> bool)
    requires
        0 <= i <= src.len(),
    ensures
        i <= run_end(src, i, keep) <= src.len(),
        forall|j: int| i <= j < run_end(src, i, keep) ==> keep(#[trigger] src[j]),
        run_end(src, i, keep) < src.len() ==> !keep(src[run_end(src, i, keep)]),
    decreases src.len() - i,
{
    if i < src.len() && keep(src[i]) {
        lemma_run_end(src, i + 1, keep);
    }
}

/// A run in `b` ends at the same place when `b` follows `p`.
pub proof fn lemma_run_end_shift(
    p: Seq<char>,
    b: Seq<char>,
    i: int,
    keep: spec_fn(char) -> bool,
)
    requires
        0 <= i <= b.len(),
    ensures
        run_end(p + b, p.len() + i, keep) == p.len() + run_end(b, i, keep),
    decreases b.len() - i,
{
    if i < b.len() {
        assert((p + b)[p.len() + i] == b[i]);
        lemma_run_end_shift(p, b, i + 1, keep);
    }
}

/// A run in `a` ends at the same place when `a` is followed by what stops it.
pub proof fn lemma_run_end_cut(a: Seq<char>, q: Seq<char>, i: int, keep: spec_fn(char) -> bool)
    requires
        0 <= i <= a.len(),
        q.len() > 0,
        !keep(q[0]),
    ensures
        run_end(a + q, i, keep) == run_end(a, i, keep),
    decreases a.len() - i,
{
    if i < a.len() {
        assert((a + q)[i] == a[i]);
        lemma_run_end_cut(a, q, i + 1, keep);
    } else {
        assert((a + q)[i] == q[0]);
    }
}

pub proof fn lemma_digits_end(src: Seq<char>, i: int)
    requires
        0 <= i <= src.len(),
    ensures
        i <= digits_end(src, i) <= src.len(),
        forall|j: int| i <= j < digits_end(src, i) ==> is_digit(#[trigger] src[j]),
        digits_end(src, i) < src.len() ==> !is_digit(src[digits_end(src, i)]),
{
    lemma_run_end(src, i, |c: char| is_digit(c));
}

pub proof fn lemma_ident_end(src: Seq<char>, i: int)
    requires
        0 <= i <= src.len(),
    ensures
        i <= ident_end(src, i) <= src.len(),
        forall|j: int| i <= j < ident_end(src, i) ==> continues_identifier(#[trigger] src[j]),
        ident_end(src, i) < src.len() ==> !continues_identifier(src[ident_end(src, i)]),
{
    lemma_run_end(src, i, |c: char| continues_identifier(c));
}

pub proof fn lemma_line_end(src: Seq<char>, i: int)
    requires
        0 <= i <= src.len(),
    ensures
        i <= line_end(src, i) <= src.len(),
        forall|j: int| i <= j < line_end(src, i) ==> #[trigger] src[j] != '\n',
        line_end(src, i) < src.len() ==> src[line_end(src, i)] == '\n',
{
    lemma_run_end(src, i, |c: char| c != '\n');
}

pub proof fn lemma_quote_end(src: Seq<char>, i: int)
    requires
        0 <= i <= src.len(),
    ensures
        i <= quote_end(src, i) <= src.len(),
        forall|j: int| i <= j < quote_end(src, i) ==> #[trigger] src[j] != '"',
        quote_end(src, i) < src.len() ==> src[quote_end(src, i)] == '"',
{
    lemma_run_end(src, i, |c: char| c != '"');
}

/// Each step of the scanner moves forward and stays inside the source.
pub proof fn lemma_scan_step_progress(src: Seq<char>, start: int)
    requires
        0 <= start < src.len(),
    ensures
        start < scan_step(src, start).next <= src.len(),
{
    let c = src[start];
    lemma_digits_end(src, start + 1);
    lemma_ident_end(src, start + 1);
    lemma_quote_end(src, start + 1);
    if start + 2 <= src.len() {
        lemma_line_end(src, start + 2);
    }
    let e = digits_end(src, start + 1);
    if e + 1 <= src.len() {
        lemma_digits_end(src, e + 1);
    }
}

/// Line breaks add up over adjacent stretches of the source.
pub proof fn lemma_newlines_split(src: Seq<char>, a: int, b: int, c: int)
    requires
        0 <= a <= b <= c <= src.len(),
    ensures
        newlines(src.subrange(a, c)) == newlines(src.subrange(a, b)) + newlines(
            src.subrange(b, c),
        ),
    decreases c - b,
{
    if b < c {
        lemma_newlines_split(src, a, b, c - 1);
        assert(src.subrange(a, c).drop_last() =~= src.subrange(a, c - 1));
        assert(src.subrange(b, c).drop_last() =~= src.subrange(b, c - 1));
    } else {
        assert(src.subrange(b, c) =~= Seq::<char>::empty());
        assert(src.subrange(a, c) =~= src.subrange(a, b));
    }
}

/// One more character counts as a line break exactly when it is one.
pub proof fn lemma_newlines_step(src: Seq<char>, a: int, b: int)
    requires
        0 <= a <= b < src.len(),
    ensures
        newlines(src.subrange(a, b + 1)) == newlines(src.subrange(a, b)) + if src[b] == '\n' {
            1nat
        } else {
            0nat
        },
{
    assert(src.subrange(a, b + 1).drop_last() =~= src.subrange(a, b));
}

/// A stretch without a line break holds none.
pub proof fn lemma_newlines_none(src: Seq<char>, a: int, b: int)
    requires
        0 <= a <= b <= src.len(),
        forall|j: int| a <= j < b ==> #[trigger] src[j] != '\n',
    ensures
        newlines(src.subrange(a, b)) == 0,
    decreases b - a,
{
    if a < b {
        lemma_newlines_none(src, a, b - 1);
        lemma_newlines_step(src, a, b - 1);
    } else {
        assert(src.subrange(a, b) =~= Seq::<char>::empty());
    }
}

/// A stretch holds no more line breaks than characters.
pub proof fn lemma_newlines_bound(s: Seq<char>)
    ensures
        newlines(s) <= s.len(),
    decreases s.len(),
{
    if s.len() > 0 {
        lemma_newlines_bound(s.drop_last());
    }
}

// ---------------------------------------------------------------------------
// Laws of the scanner
// ---------------------------------------------------------------------------

/// Scanning always ends with exactly one `Eof`, on the line where the source
/// ends, after at most one token per character.
pub proof fn law_tokens_end_with_eof(src: Seq<char>, pos: int, line: nat)
    requires
        0 <= pos <= src.len(),
    ensures
        1 <= tokens_from(src, pos, line).len() <= src.len() - pos + 1,
        tokens_from(src, pos, line).last().kind is Eof,
        tokens_from(src, pos, line).last().line == line + newlines(src.subrange(pos, src.len() as int)),
        forall|i: int|
            0 <= i < tokens_from(src, pos, line).len() - 1 ==> !(#[trigger] tokens_from(
                src,
                pos,
                line,
            )[i].kind is Eof),
    decreases src.len() - pos,
{
    if pos >= src.len() {
        assert(src.subrange(pos, src.len() as int) =~= Seq::<char>::empty());
    } else {
        let st = scan_step(src, pos);
        lemma_scan_step_progress(src, pos);
        let l = line_after(src, pos, line, st.next);
        law_tokens_end_with_eof(src, st.next, l);
        lemma_newlines_split(src, pos, st.next, src.len() as int);
        let rest = tokens_from(src, st.next, l);
        assert(tokens_from(src, pos, line) == step_token(st, l) + rest);
        if st.kind is Some {
            assert(!(st.kind->0 is Eof));
        }
    }
}

/// The lines of scanned tokens never decrease, and none comes before the
/// line scanning started on.
pub proof fn law_token_lines_ascend(src: Seq<char>, pos: int, line: nat)
    requires
        0 <= pos <= src.len(),
    ensures
        forall|i: int, j: int|
            0 <= i <= j < tokens_from(src, pos, line).len() ==> line <= #[trigger] tokens_from(
                src,
                pos,
                line,
            )[i].line <= #[trigger] tokens_from(src, pos, line)[j].line,
    decreases src.len() - pos,
{
    if pos < src.len() {
        let st = scan_step(src, pos);
        lemma_scan_step_progress(src, pos);
        let l = line_after(src, pos, line, st.next);
        law_token_lines_ascend(src, st.next, l);
        let rest = tokens_from(src, st.next, l);
        assert(tokens_from(src, pos, line) == step_token(st, l) + rest);
    }
}

// ---------------------------------------------------------------------------
// Scanning is local: a source split at a line break scans as its two parts
// ---------------------------------------------------------------------------

/// A step whose next position is moved on by `k`.
pub open spec fn shifted(st: ScanStep, k: int) -> ScanStep {
    ScanStep { kind: st.kind, next: st.next + k, fault: st.fault }
}

/// The steps in `b` are the same when `b` follows `p`, moved on by
/// `p`'s length.
pub proof fn lemma_scan_step_shift(p: Seq<char>, b: Seq<char>, i: int)
    requires
        0 <= i < b.len(),
    ensures
        scan_step(p + b, p.len() + i) == shifted(scan_step(b, i), p.len() as int),
{
    let s = p + b;
    let k = p.len() as int;
    assert forall|x: int| 0 <= x implies #[trigger] char_at(s, k + x) == char_at(b, x) by {
        if x < b.len() {
            assert(s[k + x] == b[x]);
        }
    }
    assert forall|x: int, y: int|
        0 <= x <= y <= b.len() implies #[trigger] s.subrange(k + x, k + y) == b.subrange(x, y) by {
        assert(s.subrange(k + x, k + y) =~= b.subrange(x, y));
    }
    assert(s[k + i] == b[i]);
    lemma_run_end_shift(p, b, i + 1, |c: char| is_digit(c));
    lemma_run_end_shift(p, b, i + 1, |c: char| continues_identifier(c));
    lemma_run_end_shift(p, b, i + 1, |c: char| c != '"');
    lemma_digits_end(b, i + 1);
    lemma_ident_end(b, i + 1);
    lemma_quote_end(b, i + 1);
    let e = digits_end(b, i + 1);
    if e + 1 <= b.len() {
        lemma_run_end_shift(p, b, e + 1, |c: char| is_digit(c));
        lemma_digits_end(b, e + 1);
    }
    if i + 2 <= b.len() {
        lemma_run_end_shift(p, b, i + 2, |c: char| c != '\n');
        lemma_line_end(b, i + 2);
    }
}

/// The tokens scanned in `b` are the same when `b` follows `p`.
pub proof fn lemma_tokens_shift(p: Seq<char>, b: Seq<char>, i: int, line: nat)
    requires
        0 <= i <= b.len(),
    ensures
        tokens_from(p + b, p.len() + i, line) == tokens_from(b, i, line),
    decreases b.len() - i,
{
    if i < b.len() {
        let s = p + b;
        let k = p.len() as int;
        lemma_scan_step_shift(p, b, i);
        lemma_scan_step_progress(b, i);
        let st = scan_step(b, i);
        assert(s.subrange(k + i, k + st.next) =~= b.subrange(i, st.next));
        let l = line_after(b, i, line, st.next);
        lemma_tokens_shift(p, b, st.next, l);
    }
}

/// No `"` in `a`.
pub open spec fn no_quotes(a: Seq<char>) -> bool {
    forall|j: int| 0 <= j < a.len() ==> #[trigger] a[j] != '"'
}

/// Inside `a`, the steps are the same when a line break follows `a`: none
/// looks past the end of `a`.
pub proof fn lemma_scan_step_cut(a: Seq<char>, q: Seq<char>, i: int)
    requires
        0 <= i < a.len(),
        q.len() > 0,
        q[0] == '\n',
        no_quotes(a),
    ensures
        scan_step(a + q, i) == scan_step(a, i),
        scan_step(a, i).next <= a.len(),
{
    let s = a + q;
    assert forall|x: int| 0 <= x < a.len() implies #[trigger] char_at(s, x) == char_at(a, x) by {
        assert(s[x] == a[x]);
    }
    assert(char_at(s, a.len() as int) == '\n');
    assert forall|x: int, y: int|
        0 <= x <= y <= a.len() implies #[trigger] s.subrange(x, y) == a.subrange(x, y) by {
        assert(s.subrange(x, y) =~= a.subrange(x, y));
    }
    assert(a[i] != '"');
    assert(('\n' as u32) < 128);
    lemma_run_end_cut(a, q, i + 1, |c: char| is_digit(c));
    lemma_run_end_cut(a, q, i + 1, |c: char| continues_identifier(c));
    lemma_digits_end(a, i + 1);
    lemma_ident_end(a, i + 1);
    let e = digits_end(a, i + 1);
    if e + 1 <= a.len() {
        lemma_run_end_cut(a, q, e + 1, |c: char| is_digit(c));
        lemma_digits_end(a, e + 1);
    }
    if i + 2 <= a.len() {
        lemma_run_end_cut(a, q, i + 2, |c: char| c != '\n');
        lemma_line_end(a, i + 2);
    }
    lemma_scan_step_progress(a, i);
}

/// Scanning `a` followed by a line break: the tokens of `a` without its
/// `Eof`, then what scanning gives from the line break on.
pub proof fn lemma_tokens_cut(a: Seq<char>, q: Seq<char>, i: int, line: nat)
    requires
        0 <= i <= a.len(),
        q.len() > 0,
        q[0] == '\n',
        no_quotes(a),
    ensures
        tokens_from(a + q, i, line) == tokens_from(a, i, line).drop_last() + tokens_from(
            a + q,
            a.len() as int,
            line_after(a, i, line, a.len() as int),
        ),
    decreases a.len() - i,
{
    let s = a + q;
    if i == a.len() {
        assert(a.subrange(i, i) =~= Seq::<char>::empty());
        assert(tokens_from(a, i, line).drop_last() =~= Seq::<TokenModel>::empty());
        assert(tokens_from(a, i, line).drop_last() + tokens_from(s, i, line) =~= tokens_from(s, i, line));
    } else {
        lemma_scan_step_cut(a, q, i);
        lemma_scan_step_progress(a, i);
        let st = scan_step(a, i);
        assert(s.subrange(i, st.next) =~= a.subrange(i, st.next));
        let l = line_after(a, i, line, st.next);
        lemma_tokens_cut(a, q, st.next, l);
        lemma_newlines_split(a, i, st.next, a.len() as int);
        law_tokens_end_with_eof(a, st.next, l);
        let rest = tokens_from(a, st.next, l);
        assert((step_token(st, l) + rest).drop_last() =~= step_token(st, l) + rest.drop_last());
        let tail = tokens_from(s, a.len() as int, line_after(a, i, line, a.len() as int));
        assert(step_token(st, l) + (rest.drop_last() + tail) =~= (step_token(st, l)
            + rest.drop_last()) + tail);
    }
}

/// Scanning is local: a source made of `a` (with no `"`, so no string runs
/// across), a line break and `b` scans as `a` without its `Eof`, then `b`
/// on the lines after `a`'s.
pub proof fn law_scan_splits_at_line_break(a: Seq<char>, b: Seq<char>, line: nat)
    requires
        no_quotes(a),
    ensures
        tokens_from(a + seq!['\n'] + b, 0, line) == tokens_from(a, 0, line).drop_last()
            + tokens_from(b, 0, line + newlines(a) + 1),
{
    let q = seq!['\n'] + b;
    let s = a + q;
    assert(a + seq!['\n'] + b =~= s);
    assert(q[0] == '\n');
    lemma_tokens_cut(a, q, 0, line);
    assert(a.subrange(0, a.len() as int) =~= a);
    let big_l = line + newlines(a);
    // the line break itself
    let k = a.len() as int;
    assert(s[k] == '\n');
    lemma_newlines_step(s, k, k);
    assert(s.subrange(k, k) =~= Seq::<char>::empty());
    assert(tokens_from(s, k, big_l) == tokens_from(s, k + 1, big_l + 1)) by {
        let st = scan_step(s, k);
        assert(st == skipped(k + 1));
        assert(step_token(st, big_l + 1) =~= Seq::<TokenModel>::empty());
        assert(Seq::<TokenModel>::empty() + tokens_from(s, k + 1, big_l + 1) =~= tokens_from(
            s,
            k + 1,
            big_l + 1,
        ));
    }
    let p = a + seq!['\n'];
    assert(p + b =~= s);
    lemma_tokens_shift(p, b, 0, big_l + 1);
}

/// Every token's line moved on by `d`.
pub open spec fn lines_moved(toks: Seq<TokenModel>, d: nat) -> Seq<TokenModel> {
    toks.map_values(|t: TokenModel| TokenModel { kind: t.kind, line: t.line + d })
}

/// Scanning from a later line gives the same tokens, each that many lines
/// later.
pub proof fn lemma_tokens_from_later_line(src: Seq<char>, pos: int, line: nat, d: nat)
    requires
        0 <= pos <= src.len(),
    ensures
        tokens_from(src, pos, line + d) == lines_moved(tokens_from(src, pos, line), d),
    decreases src.len() - pos,
{
    if pos >= src.len() {
        assert(tokens_from(src, pos, line + d) =~= lines_moved(tokens_from(src, pos, line), d));
    } else {
        let st = scan_step(src, pos);
        lemma_scan_step_progress(src, pos);
        let l = line_after(src, pos, line, st.next);
        lemma_tokens_from_later_line(src, st.next, l, d);
        assert(line_after(src, pos, line + d, st.next) == l + d);
        assert(tokens_from(src, pos, line + d) =~= lines_moved(tokens_from(src, pos, line), d));
    }
}

/// The split law for a lexer started on line 1, with the second part
/// scanned on its own: the tokens of `a` without its `Eof`, then those of `b`
/// each moved on by `a`'s line count plus the line break.
pub proof fn law_scan_splits_as_separate_scans(a: Seq<char>, b: Seq<char>)
    requires
        no_quotes(a),
    ensures
        tokens_from(a + seq!['\n'] + b, 0, 1) == tokens_from(a, 0, 1).drop_last() + lines_moved(
            tokens_from(b, 0, 1),
            newlines(a) + 1,
        ),
{
    law_scan_splits_at_line_break(a, b, 1);
    lemma_tokens_from_later_line(b, 0, 1, newlines(a) + 1);
}

/// Positions count characters: a lexer whose position is `k` into a source
/// of `n` characters is at the end exactly when `k` is `n`, and each read
/// moves it by one character (see `advance`).
pub proof fn law_at_end_counts_characters(l: Lexer, source: &str, k: int)
    requires
        l.wf(),
        l.src() == source@,
        l.pos() == k,
    ensures
        0 <= k <= source@.len(),
        (k >= l.src().len()) <==> k == source@.len(),
{
    l.lemma_wf_pos();
}

/// An ASCII character that may appear in an identifier: `a`-`z`, `A`-`Z`,
/// `0`-`9` or `_`.
pub open spec fn ascii_word_char(c: char) -> bool {
    ('a' <= c && c <= 'z') || ('A' <= c && c <= 'Z') || ('0' <= c && c <= '9') || c == '_'
}

/// On ASCII, identifiers begin with a letter of either case or `_`, and go
/// on over letters of either case, digits and `_`.
pub proof fn law_identifier_characters(c: char)
    requires
        (c as u32) < 128,
    ensures
        continues_identifier(c) <==> ascii_word_char(c),
        starts_identifier(c) <==> (ascii_word_char(c) && !('0' <= c && c <= '9')),
{
}

/// An identifier or keyword token takes the longest run of identifier
/// characters: every character it holds after the first may continue an
/// identifier, and the character after it, if ASCII, is none of `a`-`z`,
/// `A`-`Z`, `0`-`9`, `_`.
pub proof fn law_identifier_is_longest(src: Seq<char>, start: int)
    requires
        0 <= start < src.len(),
        starts_identifier(src[start]),
        !is_digit(src[start]),
    ensures
        ({
            let st = scan_step(src, start);
            &&& start < st.next <= src.len()
            &&& st.kind == Some(keyword_or_identifier(src.subrange(start, st.next)))
            &&& st.fault is None
            &&& forall|j: int| start < j < st.next ==> continues_identifier(#[trigger] src[j])
            &&& st.next < src.len() && (src[st.next] as u32) < 128 ==> !ascii_word_char(
                src[st.next],
            )
        }),
{
    let c = src[start];
    lemma_ident_end(src, start + 1);
    if (c as u32) < 128 {
        assert(c != '(' && c != ')' && c != '{' && c != '}' && c != ';' && c != '+' && c != '-'
            && c != '*' && c != '"');
    }
}

// ---------------------------------------------------------------------------
// The lexer
// ---------------------------------------------------------------------------

/// Turns source text into tokens.
pub struct Lexer {
    source: Vec<char>,
    start: usize,
    current: usize,
    line: usize,
    tokens: Vec<Token>,
    errors: Vec<LexError>,
}

/// The models of a sequence of tokens.
pub open spec fn token_models(tokens: Seq<Token>) -> Seq<TokenModel> {
    tokens.map_values(|t: Token| t@)
}

/// The models of a sequence of errors.
pub open spec fn error_models(errors: Seq<LexError>) -> Seq<(LexErrorKind, nat)> {
    errors.map_values(|e: LexError| (e.kind, e.line as nat))
}

impl Lexer {
    /// The lexer's invariant: positions lie inside the source, and the line
    /// count cannot overflow before the end of the source.
    pub closed spec fn wf(&self) -> bool {
        &&& self.start <= self.current <= self.source.len()
        &&& self.source.len() < usize::MAX
        &&& self.line + (self.source.len() - self.current) <= usize::MAX
    }

    /// A well-formed lexer's position lies inside its source.
    pub proof fn lemma_wf_pos(&self)
        requires
            self.wf(),
        ensures
            0 <= self.pos() <= self.src().len(),
            self.start_pos() <= self.pos(),
    {
    }

    /// The source characters.
    pub closed spec fn src(&self) -> Seq<char> {
        self.source@
    }

    /// Where the next character is read.
    pub closed spec fn pos(&self) -> int {
        self.current as int
    }

    /// Where the token being scanned began.
    pub closed spec fn start_pos(&self) -> int {
        self.start as int
    }

    /// The current line.
    pub closed spec fn line_no(&self) -> nat {
        self.line as nat
    }

    /// The tokens found so far.
    pub closed spec fn found_tokens(&self) -> Seq<TokenModel> {
        token_models(self.tokens@)
    }

    /// The errors found so far.
    pub closed spec fn found_errors(&self) -> Seq<(LexErrorKind, nat)> {
        error_models(self.errors@)
    }

    /// A lexer at the start of `source`, on line 1.
    pub fn new(source: &str) -> (l: Lexer)
        requires
            source@.len() < usize::MAX,
        ensures
            l.wf(),
            l.src() == source@,
            l.pos() == 0,
            l.start_pos() == 0,
            l.line_no() == 1,
            l.found_tokens() == Seq::<TokenModel>::empty(),
            l.found_errors() == Seq::<(LexErrorKind, nat)>::empty(),
    {
        let l = Lexer {
            source: chars_of(source),
            start: 0,
            current: 0,
            line: 1,
            tokens: Vec::new(),
            errors: Vec::new(),
        };
        assert(token_models(l.tokens@) =~= Seq::<TokenModel>::empty());
        assert(error_models(l.errors@) =~= Seq::<(LexErrorKind, nat)>::empty());
        l
    }

    /// Scans the rest of the source: the tokens found before and those from
    /// here on, closed by `Eof` on the last line; the errors likewise.
    pub fn scan_all(self) -> (r: (Vec<Token>, Vec<LexError>))
        requires
            self.wf(),
        ensures
            token_models(r.0@) == self.found_tokens() + tokens_from(
                self.src(),
                self.pos(),
                self.line_no(),
            ),
            error_models(r.1@) == self.found_errors() + errors_from(
                self.src(),
                self.pos(),
                self.line_no(),
            ),
    {
        let ghost src = self.src();
        let ghost all_tokens = self.found_tokens() + tokens_from(src, self.pos(), self.line_no());
        let ghost all_errors = self.found_errors() + errors_from(src, self.pos(), self.line_no());
        let mut lexer = self;
        while !lexer.is_at_end()
            invariant
                lexer.wf(),
                lexer.src() == src,
                all_tokens == lexer.found_tokens() + tokens_from(src, lexer.pos(), lexer.line_no()),
                all_errors == lexer.found_errors() + errors_from(src, lexer.pos(), lexer.line_no()),
            decreases src.len() - lexer.pos(),
        {
            let ghost before = lexer;
            lexer.start = lexer.current;
            lexer.scan_token();
            proof {
                let st = scan_step(src, before.pos());
                lemma_scan_step_progress(src, before.pos());
                let l = line_after(src, before.pos(), before.line_no(), st.next);
                assert(all_tokens =~= lexer.found_tokens() + tokens_from(src, lexer.pos(), lexer.line_no())) by {
                    assert(tokens_from(src, before.pos(), before.line_no()) == step_token(st, l)
                        + tokens_from(src, st.next, l));
                }
                assert(all_errors =~= lexer.found_errors() + errors_from(src, lexer.pos(), lexer.line_no())) by {
                    assert(errors_from(src, before.pos(), before.line_no()) == step_error(st, l)
                        + errors_from(src, st.next, l));
                }
            }
        }
        let line = lexer.line;
        lexer.add_token(TokenKind::Eof);
        proof {
            assert(tokens_from(src, lexer.pos(), line as nat) == seq![TokenModel { kind: Tok::Eof, line: line as nat }]);
            assert(errors_from(src, lexer.pos(), line as nat) =~= Seq::<(LexErrorKind, nat)>::empty());
            assert(all_tokens =~= lexer.found_tokens());
            assert(all_errors =~= lexer.found_errors());
        }
        (lexer.tokens, lexer.errors)
    }

    /// Scans the rest of the source and gives the tokens: those found before
    /// and those from here on, closed by `Eof` on the last line.
    pub fn scan_tokens(self) -> (tokens: Vec<Token>)
        requires
            self.wf(),
        ensures
            token_models(tokens@) == self.found_tokens() + tokens_from(
                self.src(),
                self.pos(),
                self.line_no(),
            ),
    {
        let (tokens, _errors) = self.scan_all();
        tokens
    }

    /// Whether every character has been read.
    pub fn is_at_end(&self) -> (b: bool)
        ensures
            b == (self.pos() >= self.src().len()),
    {
        self.current >= self.source.len()
    }

    /// Reads the next character.
    pub fn advance(&mut self) -> (c: char)
        requires
            old(self).wf(),
            old(self).pos() < old(self).src().len(),
        ensures
            final(self).wf(),
            c == old(self).src()[old(self).pos()],
            final(self).pos() == old(self).pos() + 1,
            final(self).src() == old(self).src(),
            final(self).line_no() == old(self).line_no(),
            final(self).found_tokens() == old(self).found_tokens(),
            final(self).found_errors() == old(self).found_errors(),
            final(self).start_pos() == old(self).start_pos(),
    {
        let c = self.source[self.current];
        self.current = self.current + 1;
        c
    }

    /// The next character, or `'\0'` at the end.
    fn peek(&self) -> (c: char)
        requires
            self.wf(),
        ensures
            c == char_at(self.src(), self.pos()),
    {
        if self.is_at_end() {
            '\0'
        } else {
            self.source[self.current]
        }
    }

    /// The character after the next one, or `'\0'` past the end.
    fn peek_next(&self) -> (c: char)
        requires
            self.wf(),
        ensures
            c == char_at(self.src(), self.pos() + 1),
    {
        if self.current + 1 >= self.source.len() {
            '\0'
        } else {
            self.source[self.current + 1]
        }
    }

    /// Reads the next character only where it is `expected`.
    fn match_char(&mut self, expected: char) -> (b: bool)
        requires
            old(self).wf(),
        ensures
            final(self).wf(),
            b == (old(self).pos() < old(self).src().len() && old(self).src()[old(self).pos()]
                == expected),
            final(self).pos() == old(self).pos() + if b {
                1int
            } else {
                0int
            },
            final(self).src() == old(self).src(),
            final(self).start_pos() == old(self).start_pos(),
            final(self).line_no() == old(self).line_no(),
            final(self).found_tokens() == old(self).found_tokens(),
            final(self).found_errors() == old(self).found_errors(),
    {
        if self.is_at_end() || self.source[self.current] != expected {
            return false;
        }
        self.current = self.current + 1;
        true
    }

    /// Records a token on the current line.
    fn add_token(&mut self, kind: TokenKind)
        requires
            old(self).wf(),
        ensures
            final(self).wf(),
            final(self).found_tokens() == old(self).found_tokens().push(
                TokenModel { kind: kind@, line: old(self).line_no() },
            ),
            final(self).src() == old(self).src(),
            final(self).pos() == old(self).pos(),
            final(self).start_pos() == old(self).start_pos(),
            final(self).line_no() == old(self).line_no(),
            final(self).found_errors() == old(self).found_errors(),
    {
        let ghost before = self.tokens@;
        self.tokens.push(Token { kind, line: self.line });
        assert(token_models(self.tokens@) =~= token_models(before).push(
            TokenModel { kind: kind@, line: self.line as nat },
        ));
    }

    /// Records an error on the current line.
    fn report(&mut self, kind: LexErrorKind)
        requires
            old(self).wf(),
        ensures
            final(self).wf(),
            final(self).found_errors() == old(self).found_errors().push(
                (kind, old(self).line_no()),
            ),
            final(self).src() == old(self).src(),
            final(self).pos() == old(self).pos(),
            final(self).start_pos() == old(self).start_pos(),
            final(self).line_no() == old(self).line_no(),
            final(self).found_tokens() == old(self).found_tokens(),
    {
        let ghost before = self.errors@;
        self.errors.push(LexError { kind, line: self.line });
        assert(error_models(self.errors@) =~= error_models(before).push(
            (kind, self.line as nat),
        ));
    }

    /// The characters from the start of the token to the next character.
    fn lexeme(&self, from: usize, to: usize) -> (v: Vec<char>)
        requires
            from <= to <= self.src().len(),
        ensures
            v@ == self.src().subrange(from as int, to as int),
    {
        let mut v: Vec<char> = Vec::new();
        let mut i = from;
        while i < to
            invariant
                from <= i <= to <= self.source@.len(),
                v@ == self.source@.subrange(from as int, i as int),
            decreases to - i,
        {
            v.push(self.source[i]);
            i = i + 1;
            assert(v@ =~= self.source@.subrange(from as int, i as int));
        }
        v
    }

    /// Scans the rest of a number whose first digit has been read.
    fn number(&mut self)
        requires
            old(self).wf(),
            old(self).pos() == old(self).start_pos() + 1,
            old(self).pos() <= old(self).src().len(),
            is_digit(old(self).src()[old(self).start_pos()]),
        ensures
            final(self).wf(),
            final(self).pos() == number_end(old(self).src(), old(self).start_pos()),
            forall|j: int|
                old(self).start_pos() <= j < final(self).pos() ==> #[trigger] old(self).src()[j]
                    != '\n',
            final(self).found_tokens() == old(self).found_tokens().push(
                TokenModel {
                    kind: Tok::Number(
                        old(self).src().subrange(old(self).start_pos(), final(self).pos()),
                    ),
                    line: old(self).line_no(),
                },
            ),
            final(self).src() == old(self).src(),
            final(self).start_pos() == old(self).start_pos(),
            final(self).line_no() == old(self).line_no(),
            final(self).found_errors() == old(self).found_errors(),
    {
        let ghost src = self.source@;
        let ghost start = self.start as int;
        proof {
            lemma_digits_end(src, start + 1);
        }
        while is_ascii_digit(self.peek())
            invariant
                self.wf(),
                self.source@ == src,
                self.start == start,
                start + 1 <= self.current <= src.len(),
                digits_end(src, start + 1) == digits_end(src, self.current as int),
                forall|j: int| start <= j < self.current ==> #[trigger] src[j] != '\n',
                self.line == old(self).line,
                self.found_tokens() == old(self).found_tokens(),
                self.found_errors() == old(self).found_errors(),
            decreases src.len() - self.current,
        {
            self.advance();
        }
        let ghost e = self.current as int;
        if self.peek() == '.' && is_ascii_digit(self.peek_next()) {
            self.advance();
            while is_ascii_digit(self.peek())
                invariant
                    self.wf(),
                    self.source@ == src,
                    self.start == start,
                    e + 1 <= self.current <= src.len(),
                    digits_end(src, e + 1) == digits_end(src, self.current as int),
                    forall|j: int| start <= j < self.current ==> #[trigger] src[j] != '\n',
                    self.line == old(self).line,
                    self.found_tokens() == old(self).found_tokens(),
                    self.found_errors() == old(self).found_errors(),
                decreases src.len() - self.current,
            {
                self.advance();
            }
        }
        let text = self.lexeme(self.start, self.current);
        let value = string_from_chars(text.as_slice());
        self.add_token(TokenKind::Number(value));
    }

    /// Scans the rest of an identifier or keyword whose first character has
    /// been read.
    fn identifier(&mut self)
        requires
            old(self).wf(),
            old(self).pos() == old(self).start_pos() + 1,
            old(self).pos() <= old(self).src().len(),
            starts_identifier(old(self).src()[old(self).start_pos()]),
            old(self).src()[old(self).start_pos()] != '\n',
        ensures
            final(self).wf(),
            final(self).pos() == ident_end(old(self).src(), old(self).pos()),
            forall|j: int|
                old(self).start_pos() <= j < final(self).pos() ==> #[trigger] old(self).src()[j]
                    != '\n',
            final(self).found_tokens() == old(self).found_tokens().push(
                TokenModel {
                    kind: keyword_or_identifier(
                        old(self).src().subrange(old(self).start_pos(), final(self).pos()),
                    ),
                    line: old(self).line_no(),
                },
            ),
            final(self).src() == old(self).src(),
            final(self).start_pos() == old(self).start_pos(),
            final(self).line_no() == old(self).line_no(),
            final(self).found_errors() == old(self).found_errors(),
    {
        let ghost src = self.source@;
        let ghost start = self.start as int;
        proof {
            lemma_ident_end(src, start + 1);
        }
        while is_alphanumeric(self.peek()) || self.peek() == '_'
            invariant
                self.wf(),
                self.source@ == src,
                self.start == start,
                start + 1 <= self.current <= src.len(),
                ident_end(src, start + 1) == ident_end(src, self.current as int),
                forall|j: int| start <= j < self.current ==> #[trigger] src[j] != '\n',
                self.line == old(self).line,
                self.found_tokens() == old(self).found_tokens(),
                self.found_errors() == old(self).found_errors(),
            decreases src.len() - self.current,
        {
            proof {
                let c = src[self.current as int];
                if (c as u32) < 128 {
                    assert(c != '\n');
                }
            }
            self.advance();
        }
        let text = self.lexeme(self.start, self.current);
        let kind = keyword_kind(&text);
        self.add_token(kind);
    }

    /// Scans one token, or skips what makes none, from the start position.
    #[verifier::rlimit(60)]
    fn scan_token(&mut self)
        requires
            old(self).wf(),
            old(self).start_pos() == old(self).pos(),
            old(self).pos() < old(self).src().len(),
        ensures
            final(self).wf(),
            final(self).src() == old(self).src(),
            final(self).start_pos() == old(self).start_pos(),
            ({
                let src = old(self).src();
                let st = scan_step(src, old(self).pos());
                let l = line_after(src, old(self).pos(), old(self).line_no(), st.next);
                &&& final(self).pos() == st.next
                &&& final(self).line_no() == l
                &&& final(self).found_tokens() == old(self).found_tokens() + step_token(st, l)
                &&& final(self).found_errors() == old(self).found_errors() + step_error(st, l)
            }),
    {
        let ghost src = self.source@;
        let ghost p = self.current as int;
        let ghost toks = self.found_tokens();
        let ghost errs = self.found_errors();
        proof {
            lemma_scan_step_progress(src, p);
        }
        let c = self.advance();
        match c {
            '(' => self.add_token(TokenKind::LeftParen),
            ')' => self.add_token(TokenKind::RightParen),
            '{' => self.add_token(TokenKind::LeftBrace),
            '}' => self.add_token(TokenKind::RightBrace),
            ';' => self.add_token(TokenKind::Semicolon),
            '+' => self.add_token(TokenKind::Plus),
            '-' => self.add_token(TokenKind::Minus),
            '*' => self.add_token(TokenKind::Star),
            '"' => self.string(),
            c if is_ascii_digit(c) => self.number(),
            c if is_alphabetic(c) || c == '_' => self.identifier(),
            '!' => {
                let kind = if self.match_char('=') {
                    TokenKind::BangEqual
                } else {
                    TokenKind::Bang
                };
                self.add_token(kind);
            },
            '=' => {
                let kind = if self.match_char('=') {
                    TokenKind::EqualEqual
                } else {
                    TokenKind::Equal
                };
                self.add_token(kind);
            },
            '<' => {
                let kind = if self.match_char('=') {
                    TokenKind::LessEqual
                } else {
                    TokenKind::Less
                };
                self.add_token(kind);
            },
            '>' => {
                let kind = if self.match_char('=') {
                    TokenKind::GreaterEqual
                } else {
                    TokenKind::Greater
                };
                self.add_token(kind);
            },
            '/' => {
                if self.match_char('/') {
                    proof {
                        lemma_line_end(src, p + 2);
                    }
                    while self.peek() != '\n' && !self.is_at_end()
                        invariant
                            self.wf(),
                            self.source@ == src,
                            p + 2 <= self.current <= src.len(),
                            line_end(src, p + 2) == line_end(src, self.current as int),
                            self.start_pos() == old(self).start_pos(),
                            self.line_no() == old(self).line_no(),
                            self.found_tokens() == toks,
                            self.found_errors() == errs,
                        decreases src.len() - self.current,
                    {
                        self.advance();
                    }
                } else {
                    self.add_token(TokenKind::Slash);
                }
            },
            ' ' | '\r' | '\t' => {},
            '\n' => {
                self.line = self.line + 1;
            },
            _ => {
                self.report(LexErrorKind::UnexpectedCharacter(c));
            },
        }
        proof {
            let st = scan_step(src, p);
            let next = self.current as int;
            if c == '\n' {
                lemma_newlines_step(src, p, p);
                assert(src.subrange(p, p) =~= Seq::<char>::empty());
            } else if c == '"' {
                lemma_newlines_none(src, p, p + 1);
                lemma_newlines_split(src, p, p + 1, next);
            } else {
                if c == '/' && next > p + 1 {
                    lemma_line_end(src, p + 2);
                }
                assert forall|j: int| p <= j < next implies #[trigger] src[j] != '\n' by {}
                lemma_newlines_none(src, p, next);
            }
            assert(self.found_tokens() =~= toks + step_token(st, self.line as nat));
            assert(self.found_errors() =~= errs + step_error(st, self.line as nat));
        }
    }

    /// Scans the rest of a string literal whose opening quote has been read.
    fn string(&mut self)
        requires
            old(self).wf(),
            old(self).pos() == old(self).start_pos() + 1,
            old(self).pos() <= old(self).src().len(),
        ensures
            final(self).wf(),
            final(self).src() == old(self).src(),
            final(self).start_pos() == old(self).start_pos(),
            ({
                let src = old(self).src();
                let q = quote_end(src, old(self).pos());
                let l = line_after(src, old(self).pos(), old(self).line_no(), final(self).pos());
                &&& final(self).line_no() == l
                &&& if q >= src.len() {
                    &&& final(self).pos() == src.len()
                    &&& final(self).found_tokens() == old(self).found_tokens()
                    &&& final(self).found_errors() == old(self).found_errors().push(
                        (LexErrorKind::UnterminatedString, l),
                    )
                } else {
                    &&& final(self).pos() == q + 1
                    &&& final(self).found_tokens() == old(self).found_tokens().push(
                        TokenModel {
                            kind: Tok::StringLit(src.subrange(old(self).pos(), q)),
                            line: l,
                        },
                    )
                    &&& final(self).found_errors() == old(self).found_errors()
                }
            }),
    {
        let ghost src = self.source@;
        let ghost first = self.current as int;
        let ghost line0 = self.line as nat;
        proof {
            lemma_quote_end(src, first);
            assert(src.subrange(first, first) =~= Seq::<char>::empty());
        }
        while self.peek() != '"' && !self.is_at_end()
            invariant
                self.wf(),
                self.source@ == src,
                self.start as int == first - 1,
                first <= self.current <= src.len(),
                quote_end(src, first) == quote_end(src, self.current as int),
                self.line == line0 + newlines(src.subrange(first, self.current as int)),
                self.found_tokens() == old(self).found_tokens(),
                self.found_errors() == old(self).found_errors(),
            decreases src.len() - self.current,
        {
            let ghost at = self.current as int;
            proof {
                lemma_newlines_step(src, first, at);
                lemma_newlines_bound(src.subrange(first, at + 1));
            }
            let c = self.advance();
            if c == '\n' {
                self.line = self.line + 1;
            }
        }
        if self.is_at_end() {
            self.report(LexErrorKind::UnterminatedString);
            return;
        }
        // the closing quote
        let ghost at = self.current as int;
        proof {
            lemma_newlines_step(src, first, at);
        }
        self.advance();
        let text = self.lexeme(self.start + 1, self.current - 1);
        let value = string_from_chars(text.as_slice());
        self.add_token(TokenKind::StringLit(value));
    }
}

} // verus!

verus! {

/// Whether `text` spells `word`.
fn spells(text: &Vec<char>, word: &[char]) -> (b: bool)
    ensures
        b == (text@ == word@),
{
    if text.len() != word.len() {
        return false;
    }
    let mut i: usize = 0;
    while i < text.len()
        invariant
            text@.len() == word@.len(),
            i <= text@.len(),
            forall|j: int| 0 <= j < i ==> text@[j] == word@[j],
        decreases text@.len() - i,
    {
        if text[i] != word[i] {
            return false;
        }
        i = i + 1;
    }
    assert(text@ =~= word@);
    true
}

/// The keyword that `text` spells, or an identifier named by it.
fn keyword_kind(text: &Vec<char>) -> (k: TokenKind)
    ensures
        k@ == keyword_or_identifier(text@),
{
    if spells(text, &['l', 'e', 't']) {
        TokenKind::Let
    } else if spells(text, &['p', 'r', 'i', 'n', 't']) {
        TokenKind::Print
    } else if spells(text, &['i', 'f']) {
        TokenKind::If
    } else if spells(text, &['e', 'l', 's', 'e']) {
        TokenKind::Else
    } else if spells(text, &['w', 'h', 'i', 'l', 'e']) {
        TokenKind::While
    } else if spells(text, &['t', 'r', 'u', 'e']) {
        TokenKind::True
    } else if spells(text, &['f', 'a', 'l', 's', 'e']) {
        TokenKind::False
    } else {
        TokenKind::Identifier(string_from_chars(text.as_slice()))
    }
}

} // verus!

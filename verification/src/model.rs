//! The mathematical model of the PGN grammar.
//!
//! Every reader operation is specified against the functions of this module:
//! they map the remaining input, a `Seq<u8>`, and a position in it to the
//! events produced and the position reached.  The model is deterministic, so
//! the behaviour of the reader is a function of the input bytes alone.

use vstd::prelude::*;

use crate::trusted::san_ok;
use crate::types::{CastlingSide, EventView, Outcome, ReadError, SanView, Suffix};

verus! {

// ---------------------------------------------------------------------------
// Byte classes and searches
// ---------------------------------------------------------------------------

/// Space, tab, carriage return or line feed.
pub open spec fn is_ws_byte(b: u8) -> bool {
    b == 32 || b == 9 || b == 13 || b == 10
}

/// An ASCII decimal digit.
pub open spec fn is_digit_byte(b: u8) -> bool {
    48 <= b <= 57
}

/// A byte that ends a movetext token: whitespace or one of
/// `{ } ( ) ! ? $ ; .`
pub open spec fn is_terminator_byte(b: u8) -> bool {
    b == 32 || b == 9 || b == 10 || b == 13 || b == 123 || b == 125 || b == 40 || b == 41
        || b == 33 || b == 63 || b == 36 || b == 59 || b == 46
}

/// The first position at or after `i` holding byte `b`, or `s.len()` if none.
pub open spec fn find_byte(s: Seq<u8>, b: u8, i: int) -> int
    decreases s.len() - i when 0 <= i <= s.len()
{
    if i >= s.len() {
        s.len() as int
    } else if s[i] == b {
        i
    } else {
        find_byte(s, b, i + 1)
    }
}

pub proof fn lemma_find_byte(s: Seq<u8>, b: u8, i: int)
    requires
        0 <= i <= s.len(),
    ensures
        i <= find_byte(s, b, i) <= s.len(),
        find_byte(s, b, i) < s.len() ==> s[find_byte(s, b, i)] == b,
        forall|j: int| i <= j < find_byte(s, b, i) ==> s[j] != b,
    decreases s.len() - i,
{
    if i < s.len() && s[i] != b {
        lemma_find_byte(s, b, i + 1);
    }
}

/// The first position at or after `i` holding any of three bytes, or
/// `s.len()` if none.
pub open spec fn find_byte3(s: Seq<u8>, b1: u8, b2: u8, b3: u8, i: int) -> int
    decreases s.len() - i when 0 <= i <= s.len()
{
    if i >= s.len() {
        s.len() as int
    } else if s[i] == b1 || s[i] == b2 || s[i] == b3 {
        i
    } else {
        find_byte3(s, b1, b2, b3, i + 1)
    }
}

pub proof fn lemma_find_byte3(s: Seq<u8>, b1: u8, b2: u8, b3: u8, i: int)
    requires
        0 <= i <= s.len(),
    ensures
        i <= find_byte3(s, b1, b2, b3, i) <= s.len(),
        find_byte3(s, b1, b2, b3, i) < s.len() ==> {
            let p = find_byte3(s, b1, b2, b3, i);
            s[p] == b1 || s[p] == b2 || s[p] == b3
        },
        forall|j: int|
            i <= j < find_byte3(s, b1, b2, b3, i) ==> s[j] != b1 && s[j] != b2 && s[j] != b3,
    decreases s.len() - i,
{
    if i < s.len() && !(s[i] == b1 || s[i] == b2 || s[i] == b3) {
        lemma_find_byte3(s, b1, b2, b3, i + 1);
    }
}

/// The first token terminator at or after `i`, or `s.len()` if none.
pub open spec fn token_end(s: Seq<u8>, i: int) -> int
    decreases s.len() - i when 0 <= i <= s.len()
{
    if i >= s.len() {
        s.len() as int
    } else if is_terminator_byte(s[i]) {
        i
    } else {
        token_end(s, i + 1)
    }
}

pub proof fn lemma_token_end(s: Seq<u8>, i: int)
    requires
        0 <= i <= s.len(),
    ensures
        i <= token_end(s, i) <= s.len(),
        token_end(s, i) < s.len() ==> is_terminator_byte(s[token_end(s, i)]),
        forall|j: int| i <= j < token_end(s, i) ==> !is_terminator_byte(s[j]),
    decreases s.len() - i,
{
    if i < s.len() && !is_terminator_byte(s[i]) {
        lemma_token_end(s, i + 1);
    }
}

/// Every byte of `s` is a decimal digit.
pub open spec fn all_digits(s: Seq<u8>) -> bool {
    forall|j: int| 0 <= j < s.len() ==> is_digit_byte(s[j])
}

/// The value of `s` read as a decimal numeral.
pub open spec fn dec_value(s: Seq<u8>) -> int
    decreases s.len(),
{
    if s.len() == 0 {
        0
    } else {
        dec_value(s.drop_last()) * 10 + (s.last() - 48)
    }
}

// ---------------------------------------------------------------------------
// Line, whitespace and tag-trailer scanners
// ---------------------------------------------------------------------------

/// A tag line in which no quote, newline or bracket appears within this many
/// bytes is declared unterminated.
pub const MAX_TAG_LINE_LENGTH: usize = 1024;

/// A brace comment whose `}` does not appear within this many bytes of its
/// `{` is declared unterminated.
pub const MAX_COMMENT_LENGTH: usize = 4096;

/// The position just past the next line feed at or after `i`, or `s.len()`
/// if none remains.
pub open spec fn after_line(s: Seq<u8>, i: int) -> int {
    let j = find_byte(s, 10, i);
    if j < s.len() {
        j + 1
    } else {
        j
    }
}

pub proof fn lemma_after_line(s: Seq<u8>, i: int)
    requires
        0 <= i <= s.len(),
    ensures
        i <= after_line(s, i) <= s.len(),
        i < s.len() && s[i] != 10 ==> i + 1 <= after_line(s, i),
{
    lemma_find_byte(s, 10, i);
}

/// The position after skipping whitespace, where a `%` met while skipping
/// discards the rest of its line.
pub open spec fn after_ws(s: Seq<u8>, i: int) -> int
    decreases s.len() - i when 0 <= i <= s.len() via after_ws_dec
{
    if i >= s.len() {
        i
    } else if is_ws_byte(s[i]) {
        after_ws(s, i + 1)
    } else if s[i] == 37 {
        after_ws(s, after_line(s, i + 1))
    } else {
        i
    }
}

#[via_fn]
proof fn after_ws_dec(s: Seq<u8>, i: int) {
    if 0 <= i < s.len() {
        lemma_after_line(s, i + 1);
    }
}

pub proof fn lemma_after_ws(s: Seq<u8>, i: int)
    requires
        0 <= i <= s.len(),
    ensures
        i <= after_ws(s, i) <= s.len(),
        after_ws(s, i) < s.len() ==> !is_ws_byte(s[after_ws(s, i)]) && s[after_ws(s, i)] != 37,
    decreases s.len() - i,
{
    if i < s.len() {
        if is_ws_byte(s[i]) {
            lemma_after_ws(s, i + 1);
        } else if s[i] == 37 {
            lemma_after_line(s, i + 1);
            lemma_after_ws(s, after_line(s, i + 1));
        }
    }
}

/// The position after the trailer of a tag line: spaces, tabs, carriage
/// returns and `]` are consumed, a `%` discards the rest of the line, and a
/// line feed ends the trailer.
pub open spec fn after_ket(s: Seq<u8>, i: int) -> int
    decreases s.len() - i when 0 <= i <= s.len() via after_ket_dec
{
    if i >= s.len() {
        i
    } else if s[i] == 32 || s[i] == 9 || s[i] == 13 || s[i] == 93 {
        after_ket(s, i + 1)
    } else if s[i] == 37 {
        after_line(s, i + 1)
    } else if s[i] == 10 {
        i + 1
    } else {
        i
    }
}

#[via_fn]
proof fn after_ket_dec(s: Seq<u8>, i: int) {
}

pub proof fn lemma_after_ket(s: Seq<u8>, i: int)
    requires
        0 <= i <= s.len(),
    ensures
        i <= after_ket(s, i) <= s.len(),
    decreases s.len() - i,
{
    if i < s.len() {
        if s[i] == 32 || s[i] == 9 || s[i] == 13 || s[i] == 93 {
            lemma_after_ket(s, i + 1);
        } else if s[i] == 37 {
            lemma_after_line(s, i + 1);
        }
    }
}

/// The position after a run of decimal digits.
pub open spec fn skip_digits(s: Seq<u8>, i: int) -> int
    decreases s.len() - i when 0 <= i <= s.len()
{
    if i >= s.len() {
        i
    } else if is_digit_byte(s[i]) {
        skip_digits(s, i + 1)
    } else {
        i
    }
}

pub proof fn lemma_skip_digits(s: Seq<u8>, i: int)
    requires
        0 <= i <= s.len(),
    ensures
        i <= skip_digits(s, i) <= s.len(),
        skip_digits(s, i) < s.len() ==> !is_digit_byte(s[skip_digits(s, i)]),
        forall|j: int| i <= j < skip_digits(s, i) ==> is_digit_byte(s[j]),
    decreases s.len() - i,
{
    if i < s.len() && is_digit_byte(s[i]) {
        lemma_skip_digits(s, i + 1);
    }
}

/// The position after a run of dots.
pub open spec fn skip_dots(s: Seq<u8>, i: int) -> int
    decreases s.len() - i when 0 <= i <= s.len()
{
    if i >= s.len() {
        i
    } else if s[i] == 46 {
        skip_dots(s, i + 1)
    } else {
        i
    }
}

pub proof fn lemma_skip_dots(s: Seq<u8>, i: int)
    requires
        0 <= i <= s.len(),
    ensures
        i <= skip_dots(s, i) <= s.len(),
        skip_dots(s, i) < s.len() ==> s[skip_dots(s, i)] != 46,
        forall|j: int| i <= j < skip_dots(s, i) ==> s[j] == 46,
    decreases s.len() - i,
{
    if i < s.len() && s[i] == 46 {
        lemma_skip_dots(s, i + 1);
    }
}

/// Whether the input starts with a UTF-8 byte-order mark.
pub open spec fn has_bom(s: Seq<u8>) -> bool {
    s.len() >= 3 && s[0] == 0xef && s[1] == 0xbb && s[2] == 0xbf
}

/// The position after the byte-order mark, if one is present.
pub open spec fn after_bom(s: Seq<u8>) -> int {
    if has_bom(s) {
        3
    } else {
        0
    }
}

/// The bytes `a` then `b` stand at position `i`.
pub open spec fn has2(s: Seq<u8>, i: int, a: u8, b: u8) -> bool {
    i + 1 < s.len() && s[i] == a && s[i + 1] == b
}

/// The six bytes `/2-1/2` stand at position `i`.
pub open spec fn has_draw_tail(s: Seq<u8>, i: int) -> bool {
    i + 5 < s.len() && s[i] == 47 && s[i + 1] == 50 && s[i + 2] == 45 && s[i + 3] == 49
        && s[i + 4] == 47 && s[i + 5] == 50
}

/// A byte that can begin a SAN token: a file letter, a piece letter, `@`,
/// `-` or `O`.
pub open spec fn is_san_start(b: u8) -> bool {
    (97 <= b <= 104) || b == 78 || b == 66 || b == 82 || b == 81 || b == 75 || b == 64 || b == 45
        || b == 79
}

// ---------------------------------------------------------------------------
// Shift and window lemmas: a scan of a suffix or of a window of `s` agrees
// with the scan of `s` itself.
// ---------------------------------------------------------------------------

pub proof fn lemma_find_byte_shift(s: Seq<u8>, b: u8, i: int)
    requires
        0 <= i <= s.len(),
    ensures
        find_byte(s, b, i) - i == find_byte(s.skip(i), b, 0),
    decreases s.len() - i,
{
    let t = s.skip(i);
    if i < s.len() && s[i] != b {
        lemma_find_byte_shift(s, b, i + 1);
        lemma_find_byte_shift(t, b, 1);
        assert(t.skip(1) =~= s.skip(i + 1));
    }
}

pub proof fn lemma_token_end_shift(s: Seq<u8>, i: int)
    requires
        0 <= i <= s.len(),
    ensures
        token_end(s, i) - i == token_end(s.skip(i), 0),
    decreases s.len() - i,
{
    let t = s.skip(i);
    if i < s.len() && !is_terminator_byte(s[i]) {
        lemma_token_end_shift(s, i + 1);
        lemma_token_end_shift(t, 1);
        assert(t.skip(1) =~= s.skip(i + 1));
    }
}

pub proof fn lemma_skip_digits_shift(s: Seq<u8>, i: int)
    requires
        0 <= i <= s.len(),
    ensures
        skip_digits(s, i) - i == skip_digits(s.skip(i), 0),
    decreases s.len() - i,
{
    let t = s.skip(i);
    if i < s.len() && is_digit_byte(s[i]) {
        lemma_skip_digits_shift(s, i + 1);
        lemma_skip_digits_shift(t, 1);
        assert(t.skip(1) =~= s.skip(i + 1));
    }
}

pub proof fn lemma_skip_dots_shift(s: Seq<u8>, i: int)
    requires
        0 <= i <= s.len(),
    ensures
        skip_dots(s, i) - i == skip_dots(s.skip(i), 0),
    decreases s.len() - i,
{
    let t = s.skip(i);
    if i < s.len() && s[i] == 46 {
        lemma_skip_dots_shift(s, i + 1);
        lemma_skip_dots_shift(t, 1);
        assert(t.skip(1) =~= s.skip(i + 1));
    }
}

pub proof fn lemma_after_line_shift(s: Seq<u8>, i: int)
    requires
        0 <= i <= s.len(),
    ensures
        after_line(s, i) - i == after_line(s.skip(i), 0),
{
    lemma_find_byte_shift(s, 10, i);
    lemma_find_byte(s, 10, i);
    lemma_find_byte(s.skip(i), 10, 0);
}

pub proof fn lemma_after_ket_shift(s: Seq<u8>, i: int)
    requires
        0 <= i <= s.len(),
    ensures
        after_ket(s, i) - i == after_ket(s.skip(i), 0),
    decreases s.len() - i,
{
    let t = s.skip(i);
    if i < s.len() {
        if s[i] == 32 || s[i] == 9 || s[i] == 13 || s[i] == 93 {
            lemma_after_ket_shift(s, i + 1);
            lemma_after_ket_shift(t, 1);
            assert(t.skip(1) =~= s.skip(i + 1));
        } else if s[i] == 37 {
            lemma_after_line_shift(s, i + 1);
            lemma_after_line_shift(t, 1);
            assert(t.skip(1) =~= s.skip(i + 1));
        }
    }
}

pub proof fn lemma_after_ws_shift(s: Seq<u8>, i: int)
    requires
        0 <= i <= s.len(),
    ensures
        after_ws(s, i) - i == after_ws(s.skip(i), 0),
    decreases s.len() - i,
{
    let t = s.skip(i);
    if i < s.len() {
        if is_ws_byte(s[i]) {
            lemma_after_ws_shift(s, i + 1);
            lemma_after_ws_shift(t, 1);
            assert(t.skip(1) =~= s.skip(i + 1));
        } else if s[i] == 37 {
            lemma_after_line_shift(s, i + 1);
            lemma_after_line_shift(t, 1);
            lemma_after_line(s, i + 1);
            lemma_after_line(t, 1);
            assert(t.skip(1) =~= s.skip(i + 1));
            assert(after_line(t, 1) == after_line(s, i + 1) - i);
            lemma_after_ws_shift(s, after_line(s, i + 1));
            lemma_after_ws_shift(t, after_line(t, 1));
            assert(t.skip(after_line(t, 1)) =~= s.skip(after_line(s, i + 1)));
        }
    }
}

/// A search that found nothing before `k` restarts at `k` without changing
/// its answer.
pub proof fn lemma_find_byte_restart(s: Seq<u8>, b: u8, i: int, k: int)
    requires
        0 <= i <= k <= s.len(),
        forall|j: int| i <= j < k ==> s[j] != b,
    ensures
        find_byte(s, b, i) == find_byte(s, b, k),
    decreases k - i,
{
    if i < k {
        lemma_find_byte_restart(s, b, i + 1, k);
    }
}

/// A search inside the window `[i, w)` of `s` agrees with the search in `s`:
/// a hit is the same position, and a miss means `s` has no hit before `w`.
pub proof fn lemma_find_byte3_window(s: Seq<u8>, b1: u8, b2: u8, b3: u8, i: int, w: int)
    requires
        0 <= i <= w <= s.len(),
    ensures
        ({
            let t = s.subrange(i, w);
            let rel = find_byte3(t, b1, b2, b3, 0);
            let abs = find_byte3(s, b1, b2, b3, i);
            &&& (rel < t.len() ==> abs == i + rel)
            &&& (rel == t.len() ==> abs >= w)
        }),
{
    let t = s.subrange(i, w);
    lemma_find_byte3(t, b1, b2, b3, 0);
    lemma_find_byte3(s, b1, b2, b3, i);
    let rel = find_byte3(t, b1, b2, b3, 0);
    let abs = find_byte3(s, b1, b2, b3, i);
    if rel < t.len() {
        assert(s[i + rel] == t[rel]);
        assert forall|j: int| i <= j < i + rel implies s[j] != b1 && s[j] != b2 && s[j] != b3 by {
            assert(s[j] == t[j - i]);
        }
        if abs < i + rel {
            assert(t[abs - i] == s[abs]);
        }
    } else {
        assert forall|j: int| i <= j < w implies s[j] != b1 && s[j] != b2 && s[j] != b3 by {
            assert(s[j] == t[j - i]);
        }
        if abs < w {
            assert(t[abs - i] == s[abs]);
        }
    }
}

/// The same statement for a single-byte search.
pub proof fn lemma_find_byte_window(s: Seq<u8>, b: u8, i: int, w: int)
    requires
        0 <= i <= w <= s.len(),
    ensures
        ({
            let t = s.subrange(i, w);
            let rel = find_byte(t, b, 0);
            let abs = find_byte(s, b, i);
            &&& (rel < t.len() ==> abs == i + rel)
            &&& (rel == t.len() ==> abs >= w)
        }),
{
    let t = s.subrange(i, w);
    lemma_find_byte(t, b, 0);
    lemma_find_byte(s, b, i);
    let rel = find_byte(t, b, 0);
    let abs = find_byte(s, b, i);
    if rel < t.len() {
        assert(s[i + rel] == t[rel]);
        assert forall|j: int| i <= j < i + rel implies s[j] != b by {
            assert(s[j] == t[j - i]);
        }
        if abs < i + rel {
            assert(t[abs - i] == s[abs]);
        }
    } else {
        assert forall|j: int| i <= j < w implies s[j] != b by {
            assert(s[j] == t[j - i]);
        }
        if abs < w {
            assert(t[abs - i] == s[abs]);
        }
    }
}

// ---------------------------------------------------------------------------
// The tag-pair section
// ---------------------------------------------------------------------------

/// What a section of the grammar produced: the events emitted, the position
/// reached, and the framing error, if one was reported.
#[verifier::ext_equal]
pub struct ParseOut {
    pub events: Seq<EventView>,
    pub end: int,
    pub err: Option<ReadError>,
}

/// The end of the window within which a tag line starting at `i` must
/// close.
pub open spec fn tag_window_end(s: Seq<u8>, i: int) -> int {
    if i + MAX_TAG_LINE_LENGTH < s.len() {
        i + MAX_TAG_LINE_LENGTH
    } else {
        s.len() as int
    }
}

/// How the scan of a quoted tag value ends: at an unescaped closing quote,
/// at a raw newline, or nowhere within the tag-line window.
pub enum ScanEnd {
    Quote(int),
    Newline(int),
    Nowhere,
}

/// Scan a tag value from `cur`: a backslash skips the byte after it, a
/// quote closes the value, a newline cuts it short.  The scan never looks
/// past `w`.
pub open spec fn tag_value_scan(s: Seq<u8>, cur: int, w: int) -> ScanEnd
    decreases w - cur when 0 <= cur <= w <= s.len() via tag_value_scan_dec
{
    let j = find_byte3(s, 92, 34, 10, cur);
    if j >= w {
        ScanEnd::Nowhere
    } else if s[j] == 34 {
        ScanEnd::Quote(j)
    } else if s[j] == 10 {
        ScanEnd::Newline(j)
    } else {
        tag_value_scan(s, if j + 2 <= w { j + 2 } else { w }, w)
    }
}

#[via_fn]
proof fn tag_value_scan_dec(s: Seq<u8>, cur: int, w: int) {
    if 0 <= cur <= w <= s.len() {
        lemma_find_byte3(s, 92, 34, 10, cur);
    }
}

pub proof fn lemma_tag_value_scan(s: Seq<u8>, cur: int, w: int)
    requires
        0 <= cur <= w <= s.len(),
    ensures
        match tag_value_scan(s, cur, w) {
            ScanEnd::Quote(q) => cur <= q < w && s[q] == 34,
            ScanEnd::Newline(n) => cur <= n < w && s[n] == 10,
            ScanEnd::Nowhere => true,
        },
    decreases w - cur,
{
    lemma_find_byte3(s, 92, 34, 10, cur);
    let j = find_byte3(s, 92, 34, 10, cur);
    if j < w && s[j] != 34 && s[j] != 10 {
        lemma_tag_value_scan(s, if j + 2 <= w { j + 2 } else { w }, w);
    }
}

/// The tag-pair section from `i`: one event per well-formed tag line,
/// ending at the first byte that starts neither a tag line nor a `%`
/// comment line, or on a framing error.
pub open spec fn tags(s: Seq<u8>, i: int) -> ParseOut
    decreases s.len() - i when 0 <= i <= s.len() via tags_dec
{
    if i >= s.len() {
        ParseOut { events: seq![], end: i, err: None }
    } else if s[i] == 91 {
        let w = tag_window_end(s, i);
        let j = find_byte3(s, 34, 10, 93, i + 1);
        if j >= w {
            // no quote, bracket or line end within the window
            ParseOut {
                events: seq![],
                end: after_line(s, w),
                err: Some(ReadError::UnterminatedTag),
            }
        } else if s[j] != 34 {
            // a bracket or line end before any quote: drop the line
            let rest = tags(s, after_ket(s, j + 1));
            ParseOut { events: rest.events, end: rest.end, err: rest.err }
        } else {
            // the key ends before the quote, with one space trimmed
            let k = if j > i + 1 && s[j - 1] == 32 {
                j - 1
            } else {
                j
            };
            let key = s.subrange(i + 1, k);
            match tag_value_scan(s, j + 1, w) {
                ScanEnd::Quote(q) => {
                    let rest = tags(s, after_ket(s, q + 1));
                    ParseOut {
                        events: seq![EventView::Tag(key, s.subrange(j + 1, q))] + rest.events,
                        end: rest.end,
                        err: rest.err,
                    }
                },
                ScanEnd::Newline(n) => ParseOut {
                    events: seq![EventView::Tag(key, s.subrange(j + 1, n))],
                    end: n + 1,
                    err: Some(ReadError::UnterminatedTag),
                },
                ScanEnd::Nowhere => ParseOut {
                    events: seq![],
                    end: after_line(s, w),
                    err: Some(ReadError::UnterminatedTag),
                },
            }
        }
    } else if s[i] == 37 {
        let rest = tags(s, after_line(s, i));
        ParseOut { events: rest.events, end: rest.end, err: rest.err }
    } else {
        ParseOut { events: seq![], end: i, err: None }
    }
}

#[via_fn]
proof fn tags_dec(s: Seq<u8>, i: int) {
    if 0 <= i < s.len() {
        if s[i] == 91 {
            let w = tag_window_end(s, i);
            lemma_find_byte3(s, 34, 10, 93, i + 1);
            let j = find_byte3(s, 34, 10, 93, i + 1);
            if j < w {
                lemma_after_ket(s, j + 1);
                if s[j] == 34 {
                    lemma_tag_value_scan(s, j + 1, w);
                    match tag_value_scan(s, j + 1, w) {
                        ScanEnd::Quote(q) => {
                            lemma_after_ket(s, q + 1);
                        },
                        _ => {},
                    }
                }
            }
        } else if s[i] == 37 {
            lemma_after_line(s, i);
            lemma_find_byte(s, 10, i);
        }
    }
}

pub proof fn lemma_tags(s: Seq<u8>, i: int)
    requires
        0 <= i <= s.len(),
    ensures
        i <= tags(s, i).end <= s.len(),
    decreases s.len() - i,
{
    if i < s.len() {
        if s[i] == 91 {
            let w = tag_window_end(s, i);
            lemma_find_byte3(s, 34, 10, 93, i + 1);
            let j = find_byte3(s, 34, 10, 93, i + 1);
            if j >= w {
                lemma_after_line(s, w);
            } else if s[j] != 34 {
                lemma_after_ket(s, j + 1);
                lemma_tags(s, after_ket(s, j + 1));
            } else {
                lemma_tag_value_scan(s, j + 1, w);
                match tag_value_scan(s, j + 1, w) {
                    ScanEnd::Quote(q) => {
                        lemma_after_ket(s, q + 1);
                        lemma_tags(s, after_ket(s, q + 1));
                    },
                    ScanEnd::Newline(n) => {},
                    ScanEnd::Nowhere => {
                        lemma_after_line(s, w);
                    },
                }
            }
        } else if s[i] == 37 {
            lemma_after_line(s, i);
            lemma_find_byte(s, 10, i);
            lemma_tags(s, after_line(s, i));
        }
    }
}

// ---------------------------------------------------------------------------
// Movetext
// ---------------------------------------------------------------------------

/// `d` closing-variation events, used to balance variations left open when
/// a game ends.
pub open spec fn closers(d: int) -> Seq<EventView>
    decreases d when 0 <= d
{
    if d <= 0 {
        seq![]
    } else {
        closers(d - 1).push(EventView::EndVariation)
    }
}

pub proof fn lemma_closers_front(d: int)
    requires
        d >= 1,
    ensures
        closers(d) == seq![EventView::EndVariation] + closers(d - 1),
    decreases d,
{
    if d == 1 {
        assert(closers(1) =~= seq![EventView::EndVariation] + closers(0));
    } else {
        lemma_closers_front(d - 1);
        assert(closers(d) =~= seq![EventView::EndVariation] + closers(d - 1));
    }
}

/// What one movetext token produced: its events, the position after it, the
/// variation depth after it, a framing error if one was reported, and
/// whether the token ended the game's movetext.
#[verifier::ext_equal]
pub struct StepOut {
    pub events: Seq<EventView>,
    pub next: int,
    pub depth: int,
    pub err: Option<ReadError>,
    pub ended: bool,
}

/// One movetext token at position `i` with open variation depth `d`.
pub open spec fn movetext_step(s: Seq<u8>, i: int, d: int) -> StepOut {
    let b = s[i];
    if b == 123 {
        // '{' — a brace comment
        let j = find_byte(s, 125, i + 1);
        if j < s.len() && j < i + 1 + MAX_COMMENT_LENGTH {
            StepOut {
                events: seq![EventView::Comment(s.subrange(i + 1, j))],
                next: j + 1,
                depth: d,
                err: None,
                ended: false,
            }
        } else {
            StepOut {
                events: seq![],
                next: if j < s.len() { j + 1 } else { s.len() as int },
                depth: d,
                err: Some(ReadError::UnterminatedComment),
                ended: false,
            }
        }
    } else if b == 10 {
        // a line feed: the game ends at a blank line or before a new tag
        // section
        if i + 1 >= s.len() {
            StepOut { events: seq![], next: i + 1, depth: d, err: None, ended: false }
        } else if s[i + 1] == 37 {
            StepOut {
                events: seq![],
                next: after_line(s, i + 2),
                depth: d,
                err: None,
                ended: false,
            }
        } else if s[i + 1] == 91 || s[i + 1] == 10 {
            StepOut { events: seq![], next: i + 1, depth: d, err: None, ended: true }
        } else if s[i + 1] == 13 {
            if i + 2 < s.len() && s[i + 2] == 10 {
                StepOut { events: seq![], next: i + 2, depth: d, err: None, ended: true }
            } else {
                StepOut { events: seq![], next: i + 2, depth: d, err: None, ended: false }
            }
        } else {
            StepOut { events: seq![], next: i + 1, depth: d, err: None, ended: false }
        }
    } else if b == 59 {
        // ';' — a comment to the end of the line
        StepOut { events: seq![], next: find_byte(s, 10, i + 1), depth: d, err: None, ended: false }
    } else if b == 48 {
        // '0' — a black win, zero-notation castling, or an unknown token
        if has2(s, i + 1, 45, 49) {
            StepOut {
                events: seq![EventView::Outcome(Outcome::BlackWins)],
                next: i + 3,
                depth: d,
                err: None,
                ended: false,
            }
        } else if has2(s, i + 1, 45, 48) {
            let side = if has2(s, i + 3, 45, 48) {
                CastlingSide::QueenSide
            } else {
                CastlingSide::KingSide
            };
            let p = if has2(s, i + 3, 45, 48) {
                i + 5
            } else {
                i + 3
            };
            let suffix = if p < s.len() && s[p] == 43 {
                Some(Suffix::Check)
            } else if p < s.len() && s[p] == 35 {
                Some(Suffix::Checkmate)
            } else {
                None
            };
            StepOut {
                events: seq![EventView::San(SanView::Castle { side, suffix })],
                next: p,
                depth: d,
                err: None,
                ended: false,
            }
        } else {
            StepOut { events: seq![], next: token_end(s, i + 1), depth: d, err: None, ended: false }
        }
    } else if b == 49 {
        // '1' — a white win, a draw, or a move number
        if has2(s, i + 1, 45, 48) {
            StepOut {
                events: seq![EventView::Outcome(Outcome::WhiteWins)],
                next: i + 3,
                depth: d,
                err: None,
                ended: false,
            }
        } else if has_draw_tail(s, i + 1) {
            StepOut {
                events: seq![EventView::Outcome(Outcome::Draw)],
                next: i + 7,
                depth: d,
                err: None,
                ended: false,
            }
        } else {
            StepOut {
                events: seq![],
                next: skip_dots(s, skip_digits(s, i + 1)),
                depth: d,
                err: None,
                ended: false,
            }
        }
    } else if 50 <= b && b <= 57 {
        // '2'..'9' — a move number
        StepOut {
            events: seq![],
            next: skip_dots(s, skip_digits(s, i + 1)),
            depth: d,
            err: None,
            ended: false,
        }
    } else if b == 40 {
        // '(' — a variation opens
        StepOut {
            events: seq![EventView::BeginVariation],
            next: i + 1,
            depth: d + 1,
            err: None,
            ended: false,
        }
    } else if b == 41 {
        // ')' — a variation closes; one that matches no opening is dropped
        if d > 0 {
            StepOut {
                events: seq![EventView::EndVariation],
                next: i + 1,
                depth: d - 1,
                err: None,
                ended: false,
            }
        } else {
            StepOut { events: seq![], next: i + 1, depth: d, err: None, ended: false }
        }
    } else if b == 36 {
        // '$' — a numeric annotation glyph; a malformed one is dropped
        let te = token_end(s, i + 1);
        let digits = s.subrange(i + 1, te);
        if digits.len() > 0 && all_digits(digits) && dec_value(digits) <= u16::MAX {
            StepOut {
                events: seq![EventView::Nag(dec_value(digits) as u16)],
                next: te,
                depth: d,
                err: None,
                ended: false,
            }
        } else {
            StepOut { events: seq![], next: te, depth: d, err: None, ended: false }
        }
    } else if b == 33 {
        // '!' and its combinations
        if i + 1 < s.len() && s[i + 1] == 33 {
            StepOut { events: seq![EventView::Nag(3)], next: i + 2, depth: d, err: None, ended: false }
        } else if i + 1 < s.len() && s[i + 1] == 63 {
            StepOut { events: seq![EventView::Nag(5)], next: i + 2, depth: d, err: None, ended: false }
        } else {
            StepOut { events: seq![EventView::Nag(1)], next: i + 1, depth: d, err: None, ended: false }
        }
    } else if b == 63 {
        // '?' and its combinations
        if i + 1 < s.len() && s[i + 1] == 33 {
            StepOut { events: seq![EventView::Nag(6)], next: i + 2, depth: d, err: None, ended: false }
        } else if i + 1 < s.len() && s[i + 1] == 63 {
            StepOut { events: seq![EventView::Nag(4)], next: i + 2, depth: d, err: None, ended: false }
        } else {
            StepOut { events: seq![EventView::Nag(2)], next: i + 1, depth: d, err: None, ended: false }
        }
    } else if b == 42 {
        // '*' — an unknown outcome
        StepOut {
            events: seq![EventView::Outcome(Outcome::Unknown)],
            next: i + 1,
            depth: d,
            err: None,
            ended: false,
        }
    } else if is_san_start(b) {
        // a potential SAN token; one the SAN parser rejects is dropped
        let te = token_end(s, i + 1);
        let tok = s.subrange(i, te);
        if san_ok(tok) {
            StepOut {
                events: seq![EventView::San(SanView::Parsed(tok))],
                next: te,
                depth: d,
                err: None,
                ended: false,
            }
        } else {
            StepOut { events: seq![], next: te, depth: d, err: None, ended: false }
        }
    } else {
        // any other byte is dropped
        StepOut { events: seq![], next: i + 1, depth: d, err: None, ended: false }
    }
}

pub proof fn lemma_movetext_step(s: Seq<u8>, i: int, d: int)
    requires
        0 <= i < s.len(),
        0 <= d,
    ensures
        i < movetext_step(s, i, d).next <= s.len(),
        0 <= movetext_step(s, i, d).depth,
{
    let b = s[i];
    if b == 123 {
        lemma_find_byte(s, 125, i + 1);
    } else if b == 10 {
        if i + 1 < s.len() && s[i + 1] == 37 {
            lemma_after_line(s, i + 2);
        }
    } else if b == 59 {
        lemma_find_byte(s, 10, i + 1);
    } else if b == 48 {
        if !has2(s, i + 1, 45, 49) && !has2(s, i + 1, 45, 48) {
            lemma_token_end(s, i + 1);
        }
    } else if b == 49 {
        if !has2(s, i + 1, 45, 48) && !has_draw_tail(s, i + 1) {
            lemma_skip_digits(s, i + 1);
            lemma_skip_dots(s, skip_digits(s, i + 1));
        }
    } else if 50 <= b && b <= 57 {
        lemma_skip_digits(s, i + 1);
        lemma_skip_dots(s, skip_digits(s, i + 1));
    } else if b == 36 {
        lemma_token_end(s, i + 1);
    } else if is_san_start(b) {
        lemma_token_end(s, i + 1);
    }
}

/// The whole movetext section from position `i` at open depth `d`: the
/// events of every token, ending at a blank line, before a new tag section,
/// at the end of the input, or on a framing error.  Variations still open at
/// a game end are closed.
pub open spec fn movetext(s: Seq<u8>, i: int, d: int) -> ParseOut
    decreases s.len() - i when 0 <= i <= s.len() && 0 <= d via movetext_dec
{
    if i >= s.len() {
        ParseOut { events: closers(d), end: i, err: None }
    } else {
        let st = movetext_step(s, i, d);
        if st.err is Some {
            ParseOut { events: st.events, end: st.next, err: st.err }
        } else if st.ended {
            ParseOut { events: st.events + closers(st.depth), end: st.next, err: None }
        } else {
            let rest = movetext(s, st.next, st.depth);
            ParseOut { events: st.events + rest.events, end: rest.end, err: rest.err }
        }
    }
}

#[via_fn]
proof fn movetext_dec(s: Seq<u8>, i: int, d: int) {
    if 0 <= i < s.len() && 0 <= d {
        lemma_movetext_step(s, i, d);
    }
}

pub proof fn lemma_movetext(s: Seq<u8>, i: int, d: int)
    requires
        0 <= i <= s.len(),
        0 <= d,
    ensures
        i <= movetext(s, i, d).end <= s.len(),
    decreases s.len() - i,
{
    if i < s.len() {
        lemma_movetext_step(s, i, d);
        let st = movetext_step(s, i, d);
        if st.err is None && !st.ended {
            lemma_movetext(s, st.next, st.depth);
        }
    }
}

// ---------------------------------------------------------------------------
// A whole game
// ---------------------------------------------------------------------------

/// What reading one game from the front of `s` produces.
#[verifier::ext_equal]
pub struct GameOut {
    /// Whether a game was found at all; `false` exactly when nothing but
    /// whitespace remained.
    pub present: bool,
    /// The events of the game, in source order.
    pub events: Seq<EventView>,
    /// The position of the first byte the game did not consume.
    pub end: int,
    /// The framing error, if one was reported.
    pub err: Option<ReadError>,
}

/// Reading one game from the front of `s`: the byte-order mark and leading
/// whitespace are skipped; then the tag section and the movetext section
/// run in turn, and trailing whitespace is consumed.  On a framing error
/// the events emitted so far stand and the reader stops past the bad
/// construct.
pub open spec fn game(s: Seq<u8>) -> GameOut {
    let i0 = after_ws(s, after_bom(s));
    if i0 >= s.len() {
        GameOut { present: false, events: seq![], end: i0, err: None }
    } else {
        let su = s.skip(i0);
        let t = tags(su, 0);
        if t.err is Some {
            GameOut {
                present: true,
                events: seq![EventView::BeginTags] + t.events,
                end: i0 + t.end,
                err: t.err,
            }
        } else {
            let sm = su.skip(t.end);
            let m = movetext(sm, 0, 0);
            if m.err is Some {
                GameOut {
                    present: true,
                    events: seq![EventView::BeginTags] + t.events + seq![
                        EventView::BeginMovetext,
                    ] + m.events,
                    end: i0 + t.end + m.end,
                    err: m.err,
                }
            } else {
                GameOut {
                    present: true,
                    events: seq![EventView::BeginTags] + t.events + seq![
                        EventView::BeginMovetext,
                    ] + m.events + seq![EventView::EndGame],
                    end: i0 + t.end + after_ws(sm, m.end),
                    err: None,
                }
            }
        }
    }
}

/// Movetext started strictly inside the input consumes at least one byte.
pub proof fn lemma_movetext_progress(s: Seq<u8>, i: int, d: int)
    requires
        0 <= i < s.len(),
        0 <= d,
    ensures
        i < movetext(s, i, d).end,
{
    lemma_movetext_step(s, i, d);
    let st = movetext_step(s, i, d);
    if st.err is None && !st.ended {
        lemma_movetext(s, st.next, st.depth);
    }
}

pub proof fn lemma_game(s: Seq<u8>)
    ensures
        0 <= game(s).end <= s.len(),
        game(s).present ==> after_ws(s, after_bom(s)) < game(s).end,
        !game(s).present ==> game(s).end == s.len(),
{
    let i0 = after_ws(s, after_bom(s));
    lemma_after_ws(s, after_bom(s));
    if i0 < s.len() {
        let su = s.skip(i0);
        let t = tags(su, 0);
        lemma_tags(su, 0);
        if t.err is Some {
            lemma_tags_err_progress(su, 0);
        } else {
            let sm = su.skip(t.end);
            let m = movetext(sm, 0, 0);
            lemma_movetext(sm, 0, 0);
            if m.err is Some {
                if t.end == 0 {
                    lemma_movetext_progress(sm, 0, 0);
                }
            } else {
                lemma_after_ws(sm, m.end);
                if t.end == 0 {
                    lemma_movetext_progress(sm, 0, 0);
                }
            }
        }
    }
}

/// A tag section that reports an error has consumed at least one byte.
pub proof fn lemma_tags_err_progress(s: Seq<u8>, i: int)
    requires
        0 <= i < s.len(),
        tags(s, i).err is Some,
    ensures
        i < tags(s, i).end,
    decreases s.len() - i,
{
    if s[i] == 91 {
        let w = tag_window_end(s, i);
        lemma_find_byte3(s, 34, 10, 93, i + 1);
        let j = find_byte3(s, 34, 10, 93, i + 1);
        if j >= w {
            lemma_after_line(s, w);
        } else if s[j] != 34 {
            lemma_after_ket(s, j + 1);
            lemma_tags(s, after_ket(s, j + 1));
            lemma_tags_err_progress_sub(s, i, after_ket(s, j + 1));
        } else {
            lemma_tag_value_scan(s, j + 1, w);
            match tag_value_scan(s, j + 1, w) {
                ScanEnd::Quote(q) => {
                    lemma_after_ket(s, q + 1);
                    lemma_tags(s, after_ket(s, q + 1));
                    lemma_tags_err_progress_sub(s, i, after_ket(s, q + 1));
                },
                ScanEnd::Newline(n) => {},
                ScanEnd::Nowhere => {
                    lemma_after_line(s, w);
                },
            }
        }
    } else if s[i] == 37 {
        lemma_after_line(s, i);
        lemma_find_byte(s, 10, i);
        lemma_tags(s, after_line(s, i));
        lemma_tags_err_progress_sub(s, i, after_line(s, i));
    }
}

/// Helper: a recursive tail of the tag section keeps `end` past `i` when
/// its start is already past `i`.
proof fn lemma_tags_err_progress_sub(s: Seq<u8>, i: int, k: int)
    requires
        0 <= i < k <= s.len(),
    ensures
        i < tags(s, k).end,
{
    lemma_tags(s, k);
}

// ---------------------------------------------------------------------------
// Positions the reader passes through
//
// When a visitor rejects a game, the reader stops between two constructs
// rather than at the game's end.  These predicates name the positions at
// which it can stand: the continuation points of the tag section and of the
// movetext tokenizer.
// ---------------------------------------------------------------------------

/// The tag reader, started at `i`, passes through position `j`: `j` lies on
/// the error-free chain of tag-line boundaries from `i`.
pub open spec fn tags_reaches(s: Seq<u8>, i: int, j: int) -> bool
    decreases s.len() - i when 0 <= i <= s.len() via tags_reaches_dec
{
    ||| j == i
    ||| (i < s.len() && s[i] == 91 && {
        let w = tag_window_end(s, i);
        let jq = find_byte3(s, 34, 10, 93, i + 1);
        &&& jq < w
        &&& if s[jq] != 34 {
            tags_reaches(s, after_ket(s, jq + 1), j)
        } else {
            tag_value_scan(s, jq + 1, w) matches ScanEnd::Quote(q) && tags_reaches(
                s,
                after_ket(s, q + 1),
                j,
            )
        }
    })
    ||| (i < s.len() && s[i] == 37 && tags_reaches(s, after_line(s, i), j))
}

#[via_fn]
proof fn tags_reaches_dec(s: Seq<u8>, i: int, j: int) {
    lemma_tags_continuations(s, i);
}

/// The bounds of the tag section's continuation positions, shared by the
/// recursions that follow them.
proof fn lemma_tags_continuations(s: Seq<u8>, i: int)
    requires
        0 <= i <= s.len(),
    ensures
        i < s.len() && s[i] == 91 ==> {
            let w = tag_window_end(s, i);
            let jq = find_byte3(s, 34, 10, 93, i + 1);
            jq < w ==> {
                &&& i < after_ket(s, jq + 1) <= s.len()
                &&& ((s[jq] == 34 && (tag_value_scan(s, jq + 1, w) matches ScanEnd::Quote(q)
                    && i < after_ket(s, q + 1) <= s.len())) || s[jq] != 34 || !(tag_value_scan(
                    s,
                    jq + 1,
                    w,
                ) matches ScanEnd::Quote(_)))
            }
        },
        i < s.len() && s[i] == 37 ==> i < after_line(s, i) <= s.len(),
{
    if i < s.len() {
        if s[i] == 91 {
            let w = tag_window_end(s, i);
            lemma_find_byte3(s, 34, 10, 93, i + 1);
            let jq = find_byte3(s, 34, 10, 93, i + 1);
            if jq < w {
                lemma_after_ket(s, jq + 1);
                if s[jq] == 34 {
                    lemma_tag_value_scan(s, jq + 1, w);
                    match tag_value_scan(s, jq + 1, w) {
                        ScanEnd::Quote(q) => {
                            lemma_after_ket(s, q + 1);
                        },
                        _ => {},
                    }
                }
            }
        } else if s[i] == 37 {
            lemma_after_line(s, i);
            lemma_find_byte(s, 10, i);
        }
    }
}

/// Reached positions lie between the start and the end of the input.
pub proof fn lemma_tags_reaches_bounds(s: Seq<u8>, i: int, j: int)
    requires
        0 <= i <= s.len(),
        tags_reaches(s, i, j),
    ensures
        i <= j <= s.len(),
    decreases s.len() - i,
{
    if j != i {
        lemma_tags_continuations(s, i);
        if i < s.len() && s[i] == 91 {
            let w = tag_window_end(s, i);
            let jq = find_byte3(s, 34, 10, 93, i + 1);
            if jq < w {
                if s[jq] != 34 {
                    lemma_tags_reaches_bounds(s, after_ket(s, jq + 1), j);
                } else {
                    match tag_value_scan(s, jq + 1, w) {
                        ScanEnd::Quote(q) => {
                            lemma_tags_reaches_bounds(s, after_ket(s, q + 1), j);
                        },
                        _ => {},
                    }
                }
            }
        } else if i < s.len() && s[i] == 37 {
            lemma_tags_reaches_bounds(s, after_line(s, i), j);
        }
    }
}

/// Reachability chains: what is reached from a reached position is reached.
pub proof fn lemma_tags_reaches_trans(s: Seq<u8>, a: int, b: int, c: int)
    requires
        0 <= a <= s.len(),
        tags_reaches(s, a, b),
        tags_reaches(s, b, c),
    ensures
        tags_reaches(s, a, c),
    decreases s.len() - a,
{
    if b != a {
        lemma_tags_continuations(s, a);
        if a < s.len() && s[a] == 91 {
            let w = tag_window_end(s, a);
            let jq = find_byte3(s, 34, 10, 93, a + 1);
            if jq < w {
                if s[jq] != 34 {
                    lemma_tags_reaches_trans(s, after_ket(s, jq + 1), b, c);
                } else {
                    match tag_value_scan(s, jq + 1, w) {
                        ScanEnd::Quote(q) => {
                            lemma_tags_reaches_trans(s, after_ket(s, q + 1), b, c);
                        },
                        _ => {},
                    }
                }
            }
        } else if a < s.len() && s[a] == 37 {
            lemma_tags_reaches_trans(s, after_line(s, a), b, c);
        }
    }
}

/// The movetext tokenizer, started at `i` with open depth `d`, passes
/// through position `j` at depth `e` on its error-free chain of whole
/// tokens.
pub open spec fn movetext_reaches(s: Seq<u8>, i: int, d: int, j: int, e: int) -> bool
    decreases s.len() - i when 0 <= i <= s.len() && 0 <= d via movetext_reaches_dec
{
    ||| (j == i && e == d)
    ||| (i < s.len() && {
        let st = movetext_step(s, i, d);
        &&& st.err is None
        &&& !st.ended
        &&& movetext_reaches(s, st.next, st.depth, j, e)
    })
}

#[via_fn]
proof fn movetext_reaches_dec(s: Seq<u8>, i: int, d: int, j: int, e: int) {
    if 0 <= i < s.len() && 0 <= d {
        lemma_movetext_step(s, i, d);
    }
}

/// Reached positions lie between the start and the end of the input, at a
/// well-formed depth.
pub proof fn lemma_movetext_reaches_bounds(s: Seq<u8>, i: int, d: int, j: int, e: int)
    requires
        0 <= i <= s.len(),
        0 <= d,
        movetext_reaches(s, i, d, j, e),
    ensures
        i <= j <= s.len(),
        0 <= e,
    decreases s.len() - i,
{
    if !(j == i && e == d) {
        lemma_movetext_step(s, i, d);
        let st = movetext_step(s, i, d);
        lemma_movetext_reaches_bounds(s, st.next, st.depth, j, e);
    }
}

/// One more whole token extends the chain.
pub proof fn lemma_movetext_reaches_step(s: Seq<u8>, i: int, d: int, j: int, e: int)
    requires
        0 <= i <= s.len(),
        0 <= d,
        movetext_reaches(s, i, d, j, e),
        j < s.len(),
        movetext_step(s, j, e).err is None,
        !movetext_step(s, j, e).ended,
    ensures
        movetext_reaches(s, i, d, movetext_step(s, j, e).next, movetext_step(s, j, e).depth),
    decreases s.len() - i,
{
    lemma_movetext_reaches_bounds(s, i, d, j, e);
    if j == i && e == d {
        lemma_movetext_step(s, j, e);
        assert(movetext_reaches(
            s,
            movetext_step(s, j, e).next,
            movetext_step(s, j, e).depth,
            movetext_step(s, j, e).next,
            movetext_step(s, j, e).depth,
        ));
    } else {
        lemma_movetext_step(s, i, d);
        let st = movetext_step(s, i, d);
        lemma_movetext_reaches_step(s, st.next, st.depth, j, e);
    }
}

/// A position the reader can stand at while parsing one game: between two
/// tag lines, between two movetext tokens, at the boundary that ended the
/// movetext, or past the construct a framing error was reported at.
pub open spec fn game_reaches(s: Seq<u8>, j: int) -> bool {
    let i0 = after_ws(s, after_bom(s));
    let su = s.skip(i0);
    let t = tags(su, 0);
    let m = movetext(su.skip(t.end), 0, 0);
    ||| (i0 < s.len() && tags_reaches(su, 0, j - i0))
    ||| (i0 < s.len() && t.err is None && exists|e: int|
        #[trigger] movetext_reaches(su.skip(t.end), 0, 0, j - i0 - t.end, e))
    ||| (i0 < s.len() && t.err is None && m.err is None && j == i0 + t.end + m.end)
    ||| (game(s).err is Some && j == game(s).end)
}

// ---------------------------------------------------------------------------
// The shape of the events each section can produce
// ---------------------------------------------------------------------------

/// An event that can appear inside a movetext section.
pub open spec fn is_movetext_event(e: EventView) -> bool {
    ||| e is San
    ||| e is Nag
    ||| e is Comment
    ||| e is BeginVariation
    ||| e is EndVariation
    ||| e is Outcome
}

/// The tag section produces tag events only.
pub proof fn lemma_tags_events_shape(s: Seq<u8>, i: int)
    requires
        0 <= i <= s.len(),
    ensures
        forall|k: int| 0 <= k < tags(s, i).events.len() ==> tags(s, i).events[k] is Tag,
    decreases s.len() - i,
{
    if i < s.len() {
        if s[i] == 91 {
            let w = tag_window_end(s, i);
            lemma_find_byte3(s, 34, 10, 93, i + 1);
            let j = find_byte3(s, 34, 10, 93, i + 1);
            if j < w {
                if s[j] != 34 {
                    lemma_after_ket(s, j + 1);
                    lemma_tags_events_shape(s, after_ket(s, j + 1));
                } else {
                    lemma_tag_value_scan(s, j + 1, w);
                    match tag_value_scan(s, j + 1, w) {
                        ScanEnd::Quote(q) => {
                            lemma_after_ket(s, q + 1);
                            lemma_tags_events_shape(s, after_ket(s, q + 1));
                        },
                        _ => {},
                    }
                }
            }
        } else if s[i] == 37 {
            lemma_after_line(s, i);
            lemma_find_byte(s, 10, i);
            lemma_tags_events_shape(s, after_line(s, i));
        }
    }
}

/// Closing events are closing events.
pub proof fn lemma_closers_shape(d: int)
    requires
        0 <= d,
    ensures
        forall|k: int| 0 <= k < closers(d).len() ==> closers(d)[k] is EndVariation,
    decreases d,
{
    if d > 0 {
        lemma_closers_shape(d - 1);
    }
}

/// One movetext token produces movetext events only.
pub proof fn lemma_step_events_shape(s: Seq<u8>, i: int, d: int)
    requires
        0 <= i < s.len(),
        0 <= d,
    ensures
        forall|k: int|
            0 <= k < movetext_step(s, i, d).events.len() ==> is_movetext_event(
                movetext_step(s, i, d).events[k],
            ),
{
}

/// The movetext section produces movetext events only.
pub proof fn lemma_movetext_events_shape(s: Seq<u8>, i: int, d: int)
    requires
        0 <= i <= s.len(),
        0 <= d,
    ensures
        forall|k: int|
            0 <= k < movetext(s, i, d).events.len() ==> is_movetext_event(
                movetext(s, i, d).events[k],
            ),
    decreases s.len() - i,
{
    if i >= s.len() {
        lemma_closers_shape(d);
    } else {
        lemma_movetext_step(s, i, d);
        lemma_step_events_shape(s, i, d);
        let st = movetext_step(s, i, d);
        if st.err is Some {
        } else if st.ended {
            lemma_closers_shape(st.depth);
        } else {
            lemma_movetext_events_shape(s, st.next, st.depth);
        }
    }
}

} // verus!

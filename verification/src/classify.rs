//! Per-line classification of the raw text stream.
//!
//! Each line is classified from its own content alone, with no cross-line
//! context: blank separators and page-break control characters, standalone
//! page-number artifacts, list items, and everything else as body text.

use vstd::prelude::*;
use crate::text::{
    all_digits, all_digits_str, is_digit, is_digit_char, is_space, is_space_char,
    lemma_trim_start_at, spec_trim, spec_trim_start, trim_str,
};

verus! {

/// The class of one line of raw text.
#[derive(Clone, Copy, PartialEq, Eq, Structural, Debug)]
pub enum LineClass {
    /// Nothing but whitespace; a lone page-break control character trims to
    /// nothing and lands here as well.
    Blank,
    /// A standalone page-number artifact: only ASCII digits, at most four.
    PageNumber,
    /// A numbered, lettered or bulleted list item.
    ListItem,
    /// Anything else: ordinary prose, and so a candidate for heading
    /// detection.
    BodyCandidate,
}

/// A standalone digit line at most this long is a page-number artifact. A
/// policy constant with no principled derivation.
pub const PAGE_NUMBER_MAX_LEN: usize = 4;

/// An ASCII letter.
pub open spec fn is_ascii_alpha(c: char) -> bool {
    let u = c as u32;
    (0x41 <= u && u <= 0x5A) || (0x61 <= u && u <= 0x7A)
}

/// Runtime test for `is_ascii_alpha`.
pub fn is_ascii_alpha_char(c: char) -> (r: bool)
    ensures
        r == is_ascii_alpha(c),
{
    let u: u32 = c as u32;
    (0x41 <= u && u <= 0x5A) || (0x61 <= u && u <= 0x7A)
}

/// The length of the run of ASCII digits that starts the string.
pub open spec fn digit_run_len(t: Seq<char>) -> int
    decreases t.len(),
{
    if t.len() == 0 || !is_digit(t[0]) {
        0
    } else {
        1 + digit_run_len(t.drop_first())
    }
}

/// The digit run ends exactly at the first non-digit position.
pub proof fn lemma_digit_run_len_at(t: Seq<char>, k: int)
    requires
        0 <= k <= t.len(),
        forall|j: int| 0 <= j < k ==> is_digit(#[trigger] t[j]),
        k == t.len() || !is_digit(t[k]),
    ensures
        digit_run_len(t) == k,
    decreases k,
{
    if k > 0 {
        lemma_digit_run_len_at(t.drop_first(), k - 1);
    }
}

/// A line that reads as a list item: after leading whitespace it starts
/// with a digit run followed directly by `)`, `.` or `:`; or with a single
/// letter followed by `)` or `.`; or with a bullet glyph.
pub open spec fn spec_is_list_item(line: Seq<char>) -> bool {
    let t = spec_trim_start(line);
    t.len() > 0 && {
        let c = t[0];
        (is_digit(c) && digit_run_len(t) < t.len() && (t[digit_run_len(t)] == ')' || t[
            digit_run_len(t)
        ] == '.' || t[digit_run_len(t)] == ':')) || (is_ascii_alpha(c) && t.len() > 1 && (t[1]
            == ')' || t[1] == '.')) || c == '-' || c == '*' || c == '\u{2022}' || c == '\u{2013}'
    }
}

/// Whether `line` looks like a numbered, lettered or bulleted list item.
pub fn is_list_item(line: &str) -> (r: bool)
    ensures
        r == spec_is_list_item(line@),
{
    let n: usize = line.unicode_len();
    let mut lo: usize = 0;
    while lo < n && is_space_char(line.get_char(lo))
        invariant
            0 <= lo <= n,
            n == line@.len(),
            forall|j: int| 0 <= j < lo ==> is_space(line@[j]),
        decreases n - lo,
    {
        lo = lo + 1;
    }
    proof {
        lemma_trim_start_at(line@, lo as int);
    }
    let ghost t = spec_trim_start(line@);
    if lo == n {
        proof {
            assert(t =~= line@.skip(n as int));
        }
        return false;
    }
    proof {
        assert(t == line@.skip(lo as int));
        assert forall|j: int| 0 <= j < t.len() implies t[j] == line@[j + lo] by {}
    }
    let c = line.get_char(lo);
    if is_digit_char(c) {
        let mut k: usize = lo;
        while k < n && is_digit_char(line.get_char(k))
            invariant
                lo <= k <= n,
                n == line@.len(),
                forall|j: int| lo <= j < k ==> is_digit(#[trigger] line@[j]),
            decreases n - k,
        {
            k = k + 1;
        }
        proof {
            assert forall|j: int| 0 <= j < k - lo implies is_digit(#[trigger] t[j]) by {
                assert(t[j] == line@[j + lo]);
            }
            assert(k == n || !is_digit(t[k - lo]));
            lemma_digit_run_len_at(t, k - lo);
        }
        if k < n {
            let p = line.get_char(k);
            if p == ')' || p == '.' || p == ':' {
                return true;
            }
        }
        return false;
    }
    if is_ascii_alpha_char(c) {
        if n - lo > 1 {
            let sc = line.get_char(lo + 1);
            if sc == ')' || sc == '.' {
                return true;
            }
        }
        return false;
    }
    c == '-' || c == '*' || c == '\u{2022}' || c == '\u{2013}'
}

/// The class of a line: blank and page-number checks take precedence over
/// the list-item check, which takes precedence over the body default.
pub open spec fn spec_class(line: Seq<char>) -> LineClass {
    let t = spec_trim(line);
    if t.len() == 0 {
        LineClass::Blank
    } else if all_digits(t) && t.len() <= PAGE_NUMBER_MAX_LEN {
        LineClass::PageNumber
    } else if spec_is_list_item(t) {
        LineClass::ListItem
    } else {
        LineClass::BodyCandidate
    }
}

/// Classify one line of raw text.
pub fn classify_line(line: &str) -> (c: LineClass)
    ensures
        c == spec_class(line@),
{
    let t = trim_str(line);
    let n: usize = t.unicode_len();
    if n == 0 {
        return LineClass::Blank;
    }
    if n <= PAGE_NUMBER_MAX_LEN && all_digits_str(t) {
        return LineClass::PageNumber;
    }
    if is_list_item(t) {
        return LineClass::ListItem;
    }
    LineClass::BodyCandidate
}

} // verus!

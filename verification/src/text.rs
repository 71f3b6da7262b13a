//! Shared character and string primitives: whitespace trimming, digit
//! parsing, and splitting, each with a specification over `Seq<char>`.

use vstd::prelude::*;

verus! {

/// The characters `char::is_whitespace` recognises (the Unicode
/// `White_Space` set), identified by their scalar values.
pub open spec fn is_space(c: char) -> bool {
    let u = c as u32;
    u == 0x20 || (0x09 <= u && u <= 0x0D) || u == 0x85 || u == 0xA0 || u == 0x1680 || (0x2000
        <= u && u <= 0x200A) || u == 0x2028 || u == 0x2029 || u == 0x202F || u == 0x205F || u
        == 0x3000
}

/// Runtime test for `is_space`.
pub fn is_space_char(c: char) -> (r: bool)
    ensures
        r == is_space(c),
{
    let u: u32 = c as u32;
    u == 0x20 || (0x09 <= u && u <= 0x0D) || u == 0x85 || u == 0xA0 || u == 0x1680 || (0x2000
        <= u && u <= 0x200A) || u == 0x2028 || u == 0x2029 || u == 0x202F || u == 0x205F || u
        == 0x3000
}

/// An ASCII decimal digit.
pub open spec fn is_digit(c: char) -> bool {
    0x30 <= c as u32 && c as u32 <= 0x39
}

/// Runtime test for `is_digit`.
pub fn is_digit_char(c: char) -> (r: bool)
    ensures
        r == is_digit(c),
{
    let u: u32 = c as u32;
    0x30 <= u && u <= 0x39
}

/// `s` with its leading whitespace removed, as `str::trim_start` has it.
pub open spec fn spec_trim_start(s: Seq<char>) -> Seq<char>
    decreases s.len(),
{
    if s.len() > 0 && is_space(s[0]) {
        spec_trim_start(s.drop_first())
    } else {
        s
    }
}

/// `s` with its trailing whitespace removed, as `str::trim_end` has it.
pub open spec fn spec_trim_end(s: Seq<char>) -> Seq<char>
    decreases s.len(),
{
    if s.len() > 0 && is_space(s.last()) {
        spec_trim_end(s.drop_last())
    } else {
        s
    }
}

/// `s` with surrounding whitespace removed, as `str::trim` has it.
pub open spec fn spec_trim(s: Seq<char>) -> Seq<char> {
    spec_trim_end(spec_trim_start(s))
}

/// Removing leading whitespace keeps the suffix that starts at the first
/// non-whitespace position.
pub proof fn lemma_trim_start_at(s: Seq<char>, k: int)
    requires
        0 <= k <= s.len(),
        forall|j: int| 0 <= j < k ==> is_space(s[j]),
        k == s.len() || !is_space(s[k]),
    ensures
        spec_trim_start(s) == s.skip(k),
    decreases k,
{
    if k == 0 {
        assert(s.skip(0) =~= s);
    } else {
        lemma_trim_start_at(s.drop_first(), k - 1);
        assert(s.drop_first().skip(k - 1) =~= s.skip(k));
    }
}

/// Removing trailing whitespace keeps the prefix that ends after the last
/// non-whitespace position.
pub proof fn lemma_trim_end_at(s: Seq<char>, h: int)
    requires
        0 <= h <= s.len(),
        forall|j: int| h <= j < s.len() ==> is_space(s[j]),
        h == 0 || !is_space(s[h - 1]),
    ensures
        spec_trim_end(s) == s.take(h),
    decreases s.len(),
{
    if h == s.len() {
        assert(s.take(h) =~= s);
    } else {
        lemma_trim_end_at(s.drop_last(), h);
        assert(s.drop_last().take(h) =~= s.take(h));
    }
}

/// What is left after trimming does not end in whitespace.
pub proof fn lemma_trim_end_last_not_space(s: Seq<char>)
    ensures
        spec_trim_end(s).len() > 0 ==> !is_space(spec_trim_end(s).last()),
    decreases s.len(),
{
    if s.len() > 0 && is_space(s.last()) {
        lemma_trim_end_last_not_space(s.drop_last());
    }
}

/// Positions of the first and one-past-the-last non-whitespace character:
/// `s@.subrange(r.0, r.1)` is the trimmed content of `s`.
pub fn trim_bounds(s: &str) -> (r: (usize, usize))
    ensures
        r.0 <= r.1 <= s@.len(),
        spec_trim(s@) == s@.subrange(r.0 as int, r.1 as int),
{
    let n: usize = s.unicode_len();
    let mut lo: usize = 0;
    while lo < n && is_space_char(s.get_char(lo))
        invariant
            0 <= lo <= n,
            n == s@.len(),
            forall|j: int| 0 <= j < lo ==> is_space(s@[j]),
        decreases n - lo,
    {
        lo = lo + 1;
    }
    proof {
        lemma_trim_start_at(s@, lo as int);
    }
    if lo == n {
        proof {
            assert(spec_trim_start(s@) =~= s@.subrange(n as int, n as int));
            assert(spec_trim(s@) =~= s@.subrange(n as int, n as int));
        }
        return (n, n);
    }
    let mut hi: usize = n;
    while hi > lo && is_space_char(s.get_char(hi - 1))
        invariant
            lo <= hi <= n,
            n == s@.len(),
            lo < n,
            !is_space(s@[lo as int]),
            forall|j: int| hi <= j < n ==> is_space(s@[j]),
        decreases hi,
    {
        hi = hi - 1;
    }
    proof {
        let t = spec_trim_start(s@);
        assert(t == s@.skip(lo as int));
        assert(hi > lo) by {
            if hi == lo {
                assert(is_space(s@[lo as int]));
            }
        }
        assert forall|j: int| hi - lo <= j < t.len() implies is_space(t[j]) by {
            assert(t[j] == s@[j + lo]);
        }
        assert(t[hi - lo - 1] == s@[hi - 1]);
        lemma_trim_end_at(t, hi - lo as int);
        assert(t.take(hi - lo as int) =~= s@.subrange(lo as int, hi as int));
    }
    (lo, hi)
}

/// `str::trim`: the slice with surrounding whitespace removed.
pub fn trim_str<'a>(s: &'a str) -> (r: &'a str)
    ensures
        r@ == spec_trim(s@),
{
    let (lo, hi) = trim_bounds(s);
    s.substring_char(lo, hi)
}

/// All characters of `s` are ASCII decimal digits.
pub open spec fn all_digits(s: Seq<char>) -> bool {
    forall|i: int| 0 <= i < s.len() ==> is_digit(#[trigger] s[i])
}

/// The numeric value of a digit character.
pub open spec fn digit_val(c: char) -> int {
    c as u32 - 0x30
}

/// The number denoted by a string of decimal digits, most significant first.
pub open spec fn digits_val(s: Seq<char>) -> int
    decreases s.len(),
{
    if s.len() == 0 {
        0
    } else {
        digits_val(s.drop_last()) * 10 + digit_val(s.last())
    }
}

/// A digit string's value is at least the value of any of its prefixes.
pub proof fn lemma_digits_val_prefix(s: Seq<char>, k: int)
    requires
        0 <= k <= s.len(),
        all_digits(s),
    ensures
        0 <= digits_val(s.take(k)) <= digits_val(s),
    decreases s.len(),
{
    if s.len() == 0 {
        assert(s.take(k) =~= s);
    } else if k == s.len() {
        assert(s.take(k) =~= s);
        lemma_digits_val_prefix(s.drop_last(), s.len() - 1);
        assert(s.drop_last() =~= s.take(s.len() - 1));
    } else {
        assert(s.drop_last().take(k) =~= s.take(k));
        lemma_digits_val_prefix(s.drop_last(), k);
    }
}

/// What `str::parse::<u32>` returns: an optional leading `+`, then one or
/// more decimal digits whose value fits in a `u32`; anything else fails.
pub open spec fn spec_parse_u32(s: Seq<char>) -> Option<u32> {
    let t = if s.len() > 0 && s[0] == '+' {
        s.drop_first()
    } else {
        s
    };
    if t.len() > 0 && all_digits(t) && digits_val(t) <= u32::MAX {
        Some(digits_val(t) as u32)
    } else {
        None
    }
}

/// Parse a `u32` exactly as `str::parse::<u32>` does.
pub fn parse_u32(s: &str) -> (r: Option<u32>)
    ensures
        r == spec_parse_u32(s@),
{
    let n: usize = s.unicode_len();
    let start: usize = if n > 0 && s.get_char(0) == '+' {
        1
    } else {
        0
    };
    let ghost t = if s@.len() > 0 && s@[0] == '+' {
        s@.drop_first()
    } else {
        s@
    };
    proof {
        assert(t =~= s@.subrange(start as int, n as int));
    }
    if start == n {
        return None;
    }
    let mut acc: u32 = 0;
    let mut i: usize = start;
    while i < n
        invariant
            start <= i <= n,
            n == s@.len(),
            start < n,
            t == s@.subrange(start as int, n as int),
            t == (if s@.len() > 0 && s@[0] == '+' {
                s@.drop_first()
            } else {
                s@
            }),
            forall|j: int| 0 <= j < i - start ==> is_digit(#[trigger] t[j]),
            acc == digits_val(t.take(i - start)),
        decreases n - i,
    {
        let c = s.get_char(i);
        proof {
            assert(t[i - start] == s@[i as int]);
        }
        if !is_digit_char(c) {
            proof {
                assert(!is_digit(t[i - start]));
                assert(!all_digits(t));
            }
            return None;
        }
        let d: u32 = c as u32 - 0x30;
        if acc > (u32::MAX - d) / 10 {
            proof {
                assert(t.take(i + 1 - start).drop_last() =~= t.take(i - start));
                assert(digits_val(t.take(i + 1 - start)) == acc * 10 + d);
                assert(acc * 10 + d > u32::MAX) by {
                    assert(acc >= (u32::MAX - d) / 10 + 1);
                };
                if all_digits(t) {
                    lemma_digits_val_prefix(t, i + 1 - start);
                    assert(digits_val(t) > u32::MAX);
                }
                assert(spec_parse_u32(s@) is None);
            }
            return None;
        }
        proof {
            assert(t.take(i + 1 - start).drop_last() =~= t.take(i - start));
            assert(acc * 10 + d <= u32::MAX) by {
                assert(acc <= (u32::MAX - d) / 10);
            };
            assert(digits_val(t.take(i + 1 - start)) == acc * 10 + d);
        }
        acc = acc * 10 + d;
        i = i + 1;
    }
    proof {
        assert(t.take(n - start) =~= t);
    }
    Some(acc)
}

/// The pieces of `s` between occurrences of `sep`, as `str::split` yields
/// them: always at least one piece, and empty pieces are kept.
pub open spec fn split_on(s: Seq<char>, sep: char) -> Seq<Seq<char>>
    decreases s.len(),
{
    if s.len() == 0 {
        seq![Seq::<char>::empty()]
    } else if s[0] == sep {
        seq![Seq::<char>::empty()] + split_on(s.drop_first(), sep)
    } else {
        let rest = split_on(s.drop_first(), sep);
        seq![seq![s[0]] + rest[0]] + rest.drop_first()
    }
}

/// Splitting yields at least one piece.
pub proof fn lemma_split_on_len(s: Seq<char>, sep: char)
    ensures
        split_on(s, sep).len() >= 1,
    decreases s.len(),
{
    if s.len() > 0 {
        lemma_split_on_len(s.drop_first(), sep);
    }
}

/// A string without the separator is a single piece.
pub proof fn lemma_split_on_whole(s: Seq<char>, sep: char)
    requires
        forall|j: int| 0 <= j < s.len() ==> s[j] != sep,
    ensures
        split_on(s, sep) == seq![s],
    decreases s.len(),
{
    if s.len() == 0 {
        assert(split_on(s, sep) =~~= seq![s]);
    } else {
        lemma_split_on_whole(s.drop_first(), sep);
        assert(seq![s[0]] + s.drop_first() =~= s);
        assert(split_on(s, sep) =~~= seq![s]);
    }
}

/// Splitting at the first separator: the piece before it, then the split of
/// what follows it.
pub proof fn lemma_split_on_first(s: Seq<char>, sep: char, k: int)
    requires
        0 <= k < s.len(),
        s[k] == sep,
        forall|j: int| 0 <= j < k ==> s[j] != sep,
    ensures
        split_on(s, sep) == seq![s.take(k)] + split_on(s.skip(k + 1), sep),
    decreases k,
{
    if k == 0 {
        assert(s.take(0) =~= Seq::<char>::empty());
        assert(s.skip(1) =~= s.drop_first());
        assert(split_on(s, sep) =~~= seq![s.take(0)] + split_on(s.skip(1), sep));
    } else {
        lemma_split_on_first(s.drop_first(), sep, k - 1);
        lemma_split_on_len(s.drop_first().skip(k), sep);
        assert(s.drop_first().take(k - 1) =~= s.take(k).drop_first());
        assert(s.drop_first().skip(k) =~= s.skip(k + 1));
        assert(seq![s[0]] + s.take(k).drop_first() =~= s.take(k));
        assert(split_on(s, sep) =~~= seq![s.take(k)] + split_on(s.skip(k + 1), sep));
    }
}

/// Split `s` at every occurrence of `sep`, as `str::split` does.
pub fn split_str(s: &str, sep: char) -> (r: Vec<String>)
    ensures
        r.deep_view() == split_on(s@, sep),
{
    let n: usize = s.unicode_len();
    let mut out: Vec<String> = Vec::new();
    let mut pos: usize = 0;
    proof {
        assert(s@.skip(0) =~= s@);
        assert(out.deep_view() =~= Seq::<Seq<char>>::empty());
        assert(split_on(s@, sep) =~= out.deep_view() + split_on(s@.skip(0), sep));
    }
    loop
        invariant
            0 <= pos <= n,
            n == s@.len(),
            split_on(s@, sep) =~= out.deep_view() + split_on(s@.skip(pos as int), sep),
        decreases n - pos,
    {
        // find the next separator at or after pos
        let mut k: usize = pos;
        while k < n && s.get_char(k) != sep
            invariant
                pos <= k <= n,
                n == s@.len(),
                forall|j: int| pos <= j < k ==> s@[j] != sep,
            decreases n - k,
        {
            k = k + 1;
        }
        let piece = s.substring_char(pos, k);
        let ghost pre = out.deep_view();
        out.push(String::from_str(piece));
        proof {
            assert(out.deep_view() =~= pre.push(piece@));
        }
        if k == n {
            proof {
                let suf = s@.skip(pos as int);
                assert forall|j: int| 0 <= j < suf.len() implies suf[j] != sep by {
                    assert(suf[j] == s@[j + pos]);
                }
                lemma_split_on_whole(suf, sep);
                assert(piece@ =~= suf);
                assert(pre.push(piece@) =~= pre + seq![suf]);
                assert(split_on(s@, sep) =~= out.deep_view());
            }
            return out;
        }
        proof {
            let suf = s@.skip(pos as int);
            let kk = k - pos;
            assert(suf[kk] == s@[k as int]);
            assert forall|j: int| 0 <= j < kk implies suf[j] != sep by {
                assert(suf[j] == s@[j + pos]);
            }
            lemma_split_on_first(suf, sep, kk);
            assert(suf.take(kk) =~= piece@);
            assert(suf.skip(kk + 1) =~= s@.skip(k + 1 as int));
            assert(pre.push(piece@) =~= pre + seq![piece@]);
            assert(split_on(s@, sep) =~= out.deep_view() + split_on(s@.skip(k + 1 as int), sep));
        }
        pos = k + 1;
    }
}

/// Runtime test for `all_digits`.
pub fn all_digits_str(s: &str) -> (r: bool)
    ensures
        r == all_digits(s@),
{
    let n: usize = s.unicode_len();
    let mut i: usize = 0;
    while i < n
        invariant
            0 <= i <= n,
            n == s@.len(),
            forall|j: int| 0 <= j < i ==> is_digit(#[trigger] s@[j]),
        decreases n - i,
    {
        if !is_digit_char(s.get_char(i)) {
            return false;
        }
        i = i + 1;
    }
    true
}

/// A trailing carriage return removed, as `str::lines` strips one from a
/// piece that ended at a line feed.
pub open spec fn strip_cr(l: Seq<char>) -> Seq<char> {
    if l.len() > 0 && l.last() == '\r' {
        l.drop_last()
    } else {
        l
    }
}

/// `strip_cr` applied to every piece.
pub open spec fn strip_all_cr(ps: Seq<Seq<char>>) -> Seq<Seq<char>>
    decreases ps.len(),
{
    if ps.len() == 0 {
        Seq::empty()
    } else {
        strip_all_cr(ps.drop_last()).push(strip_cr(ps.last()))
    }
}

/// The lines of `s`, as `str::lines` yields them: pieces split at each line
/// feed, a carriage return directly before the line feed dropped, and no
/// final empty piece when `s` ends with a line feed.
pub open spec fn spec_lines(s: Seq<char>) -> Seq<Seq<char>> {
    if s.len() == 0 {
        Seq::empty()
    } else if s.last() == '\n' {
        strip_all_cr(split_on(s, '\n').drop_last())
    } else {
        let ps = split_on(s, '\n');
        strip_all_cr(ps.drop_last()).push(ps.last())
    }
}

/// Remove one trailing carriage return.
fn strip_cr_string(p: &String) -> (r: String)
    ensures
        r@ == strip_cr(p@),
{
    let n: usize = p.as_str().unicode_len();
    if n > 0 && p.as_str().get_char(n - 1) == '\r' {
        let sub = p.as_str().substring_char(0, n - 1);
        proof {
            assert(sub@ =~= p@.drop_last());
        }
        String::from_str(sub)
    } else {
        p.clone()
    }
}

/// Split `s` into its lines, as `str::lines` does.
pub fn split_lines(s: &str) -> (r: Vec<String>)
    ensures
        r.deep_view() == spec_lines(s@),
{
    let n: usize = s.unicode_len();
    let mut out: Vec<String> = Vec::new();
    if n == 0 {
        proof {
            assert(out.deep_view() =~= spec_lines(s@));
        }
        return out;
    }
    let ps = split_str(s, '\n');
    proof {
        lemma_split_on_len(s@, '\n');
    }
    let m: usize = ps.len();
    let ghost front = split_on(s@, '\n').drop_last();
    let mut i: usize = 0;
    while i < m - 1
        invariant
            0 <= i <= m - 1,
            m >= 1,
            m == ps@.len(),
            ps.deep_view() == split_on(s@, '\n'),
            front == split_on(s@, '\n').drop_last(),
            out.deep_view() == strip_all_cr(front.take(i as int)),
        decreases m - 1 - i,
    {
        let ghost pre = out.deep_view();
        let piece = strip_cr_string(&ps[i]);
        out.push(piece);
        proof {
            assert(ps.deep_view()[i as int] == ps@[i as int]@);
            assert(front[i as int] == ps.deep_view()[i as int]);
            assert(out.deep_view() =~= pre.push(strip_cr(front[i as int])));
            assert(front.take(i + 1).drop_last() =~= front.take(i as int));
            assert(front.take(i + 1).last() == front[i as int]);
            assert(out.deep_view() =~= strip_all_cr(front.take(i + 1)));
        }
        i = i + 1;
    }
    proof {
        assert(front.take(m - 1) =~= front);
    }
    if s.get_char(n - 1) == '\n' {
        proof {
            assert(out.deep_view() =~= spec_lines(s@));
        }
        out
    } else {
        let ghost pre = out.deep_view();
        let last_piece = (&ps[m - 1]).clone();
        out.push(last_piece);
        proof {
            assert(ps.deep_view()[m - 1] == ps@[m - 1]@);
            assert(out.deep_view() =~= pre.push(split_on(s@, '\n').last()));
            assert(out.deep_view() =~= spec_lines(s@));
        }
        out
    }
}

/// Character-by-character string equality.
pub fn str_eq(a: &str, b: &str) -> (r: bool)
    ensures
        r == (a@ == b@),
{
    let na: usize = a.unicode_len();
    let nb: usize = b.unicode_len();
    if na != nb {
        return false;
    }
    let mut i: usize = 0;
    while i < na
        invariant
            0 <= i <= na,
            na == a@.len(),
            nb == b@.len(),
            na == nb,
            forall|j: int| 0 <= j < i ==> a@[j] == b@[j],
        decreases na - i,
    {
        if a.get_char(i) != b.get_char(i) {
            return false;
        }
        i = i + 1;
    }
    proof {
        assert(a@ =~= b@);
    }
    true
}

} // verus!

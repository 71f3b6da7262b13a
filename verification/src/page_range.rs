//! The page range parser: a comma-separated selection expression such as
//! `1,3-5,8` becomes a canonical page list — sorted ascending, deduplicated,
//! every entry a positive page number — or the error its first bad token
//! raises.

use vstd::prelude::*;
use vstd::seq_lib::{group_to_multiset_ensures, to_multiset_build, to_multiset_insert};
use crate::text::{
    parse_u32, spec_parse_u32, spec_trim, split_on, split_str, trim_str,
};

verus! {

/// Why a page selection expression was rejected.
#[derive(Debug, PartialEq, Eq)]
pub enum RangeError {
    /// A token without a hyphen that does not parse as a page number.
    InvalidPageNumber(String),
    /// A bound of a hyphenated range that does not parse as a page number.
    InvalidRangeBound(String),
    /// A page number or range bound equal to zero.
    NonPositivePage,
    /// A range whose start exceeds its end.
    InvertedRange(u32, u32),
}

/// Specification-level mirror of `RangeError`, over character sequences.
pub enum SpecRangeError {
    InvalidPageNumber(Seq<char>),
    InvalidRangeBound(Seq<char>),
    NonPositivePage,
    InvertedRange(u32, u32),
}

impl View for RangeError {
    type V = SpecRangeError;

    open spec fn view(&self) -> SpecRangeError {
        match self {
            RangeError::InvalidPageNumber(t) => SpecRangeError::InvalidPageNumber(t@),
            RangeError::InvalidRangeBound(t) => SpecRangeError::InvalidRangeBound(t@),
            RangeError::NonPositivePage => SpecRangeError::NonPositivePage,
            RangeError::InvertedRange(a, b) => SpecRangeError::InvertedRange(*a, *b),
        }
    }
}

/// Index of the first occurrence of `c` in `t`, or -1 if there is none.
pub open spec fn find_char(t: Seq<char>, c: char) -> int
    decreases t.len(),
{
    if t.len() == 0 {
        -1
    } else if t[0] == c {
        0
    } else if find_char(t.drop_first(), c) == -1 {
        -1
    } else {
        1 + find_char(t.drop_first(), c)
    }
}

/// `find_char` is what a left-to-right scan stopping at `k` finds.
pub proof fn lemma_find_char_at(t: Seq<char>, c: char, k: int)
    requires
        0 <= k <= t.len(),
        forall|j: int| 0 <= j < k ==> t[j] != c,
        k == t.len() || t[k] == c,
    ensures
        find_char(t, c) == if k == t.len() {
            -1int
        } else {
            k
        },
    decreases k,
{
    if k > 0 {
        lemma_find_char_at(t.drop_first(), c, k - 1);
    }
}

/// The pages one comma-separated token denotes, or the error it raises.
/// The token is trimmed first; a token with a hyphen is an inclusive range
/// whose bounds are trimmed and parsed separately, any other token a single
/// page number.
pub open spec fn spec_token_pages(tok: Seq<char>) -> Result<Seq<u32>, SpecRangeError> {
    let t = spec_trim(tok);
    if find_char(t, '-') >= 0 {
        let b0 = spec_trim(t.take(find_char(t, '-')));
        let b1 = spec_trim(t.skip(find_char(t, '-') + 1));
        match spec_parse_u32(b0) {
            Option::None => Result::Err(SpecRangeError::InvalidRangeBound(b0)),
            Option::Some(start) => match spec_parse_u32(b1) {
                Option::None => Result::Err(SpecRangeError::InvalidRangeBound(b1)),
                Option::Some(end) => if start == 0 || end == 0 {
                    Result::Err(SpecRangeError::NonPositivePage)
                } else if start > end {
                    Result::Err(SpecRangeError::InvertedRange(start, end))
                } else {
                    Result::Ok(Seq::new((end - start + 1) as nat, |i: int| (start + i) as u32))
                },
            },
        }
    } else {
        match spec_parse_u32(t) {
            Option::None => Result::Err(SpecRangeError::InvalidPageNumber(t)),
            Option::Some(p) => if p == 0 {
                Result::Err(SpecRangeError::NonPositivePage)
            } else {
                Result::Ok(seq![p])
            },
        }
    }
}

/// All tokens expanded left to right into one page sequence; the first
/// failing token aborts the whole parse.
pub open spec fn spec_expand(toks: Seq<Seq<char>>) -> Result<Seq<u32>, SpecRangeError>
    decreases toks.len(),
{
    if toks.len() == 0 {
        Result::Ok(Seq::empty())
    } else {
        match spec_token_pages(toks[0]) {
            Result::Err(e) => Result::Err(e),
            Result::Ok(ps) => match spec_expand(toks.drop_first()) {
                Result::Err(e) => Result::Err(e),
                Result::Ok(rest) => Result::Ok(ps + rest),
            },
        }
    }
}

/// The outcome owed on input `s`: the pages of all its comma-separated
/// tokens, or the error of the first bad one.
pub open spec fn spec_parse_outcome(s: Seq<char>) -> Result<Seq<u32>, SpecRangeError> {
    spec_expand(split_on(s, ','))
}

/// Strictly ascending order: sorted with no duplicates.
pub open spec fn strictly_increasing(s: Seq<u32>) -> bool {
    forall|i: int, j: int| 0 <= i < j < s.len() ==> s[i] < s[j]
}

/// Every page a single token denotes is positive.
proof fn lemma_token_pages_positive(tok: Seq<char>)
    ensures
        spec_token_pages(tok) matches Result::Ok(ps) ==> forall|i: int|
            0 <= i < ps.len() ==> #[trigger] ps[i] >= 1,
{
}

/// Every page a token list denotes is positive.
proof fn lemma_expand_positive(toks: Seq<Seq<char>>)
    ensures
        spec_expand(toks) matches Result::Ok(ps) ==> forall|i: int|
            0 <= i < ps.len() ==> #[trigger] ps[i] >= 1,
    decreases toks.len(),
{
    if toks.len() > 0 {
        lemma_token_pages_positive(toks[0]);
        lemma_expand_positive(toks.drop_first());
    }
}

/// Append the pages of one token to `acc`, or report its error and leave
/// `acc` as it was.
fn token_pages_into(tok: &str, acc: &mut Vec<u32>) -> (r: Option<RangeError>)
    ensures
        match spec_token_pages(tok@) {
            Result::Ok(ps) => r is None && final(acc)@ == old(acc)@ + ps,
            Result::Err(e) => (r matches Some(er) && er@ == e) && final(acc)@ == old(acc)@,
        },
{
    let t = trim_str(tok);
    let n: usize = t.unicode_len();
    // find the first hyphen, if any
    let mut h: usize = 0;
    while h < n && t.get_char(h) != '-'
        invariant
            0 <= h <= n,
            n == t@.len(),
            forall|j: int| 0 <= j < h ==> t@[j] != '-',
        decreases n - h,
    {
        h = h + 1;
    }
    proof {
        lemma_find_char_at(t@, '-', h as int);
    }
    if h < n {
        // a range token
        let b0 = trim_str(t.substring_char(0, h));
        let b1 = trim_str(t.substring_char(h + 1, n));
        proof {
            assert(t@.subrange(0, h as int) =~= t@.take(h as int));
            assert(t@.subrange(h + 1, n as int) =~= t@.skip(h + 1));
        }
        let start = match parse_u32(b0) {
            Option::Some(v) => v,
            Option::None => {
                return Some(RangeError::InvalidRangeBound(String::from_str(b0)));
            },
        };
        let end = match parse_u32(b1) {
            Option::Some(v) => v,
            Option::None => {
                return Some(RangeError::InvalidRangeBound(String::from_str(b1)));
            },
        };
        if start == 0 || end == 0 {
            return Some(RangeError::NonPositivePage);
        }
        if start > end {
            return Some(RangeError::InvertedRange(start, end));
        }
        let ghost ps = spec_token_pages(tok@)->Ok_0;
        let ghost pre = acc@;
        let mut p: u64 = start as u64;
        while p <= end as u64
            invariant
                start <= p <= end + 1,
                ps == Seq::new((end - start + 1) as nat, |i: int| (start + i) as u32),
                acc@ == pre + ps.take(p - start),
            decreases end + 1 - p,
        {
            acc.push(p as u32);
            proof {
                assert(ps.take(p + 1 - start).drop_last() =~= ps.take(p - start));
                assert(ps.take(p + 1 - start).last() == p as u32);
                assert(acc@ =~= pre + ps.take(p + 1 - start));
            }
            p = p + 1;
        }
        proof {
            assert(ps.take(end + 1 - start) =~= ps);
        }
        None
    } else {
        // a single page token
        let page = match parse_u32(t) {
            Option::Some(v) => v,
            Option::None => {
                return Some(RangeError::InvalidPageNumber(String::from_str(t)));
            },
        };
        if page == 0 {
            return Some(RangeError::NonPositivePage);
        }
        let ghost pre = acc@;
        acc.push(page);
        proof {
            assert(acc@ =~= pre + seq![page]);
        }
        None
    }
}

/// Sort into ascending order by insertion into a fresh vector.
fn sort_u32(v: &Vec<u32>) -> (r: Vec<u32>)
    ensures
        forall|i: int, j: int| 0 <= i <= j < r@.len() ==> r@[i] <= r@[j],
        r@.to_multiset() == v@.to_multiset(),
{
    broadcast use group_to_multiset_ensures;

    let mut out: Vec<u32> = Vec::new();
    let mut i: usize = 0;
    proof {
        assert(v@.take(0) =~= out@);
    }
    while i < v.len()
        invariant
            0 <= i <= v@.len(),
            forall|a: int, b: int| 0 <= a <= b < out@.len() ==> out@[a] <= out@[b],
            out@.to_multiset() == v@.take(i as int).to_multiset(),
        decreases v@.len() - i,
    {
        let x = v[i];
        let mut k: usize = 0;
        while k < out.len() && out[k] <= x
            invariant
                0 <= k <= out@.len(),
                forall|j: int| 0 <= j < k ==> out@[j] <= x,
            decreases out@.len() - k,
        {
            k = k + 1;
        }
        let ghost pre = out@;
        out.insert(k, x);
        proof {
            assert(v@.take(i + 1).drop_last() =~= v@.take(i as int));
            assert(v@.take(i + 1) =~= v@.take(i as int).push(x));
            assert(out@ == pre.insert(k as int, x));
            to_multiset_insert(pre, k as int, x);
            to_multiset_build(v@.take(i as int), x);
            assert(out@.to_multiset() == v@.take(i + 1).to_multiset());
            assert forall|a: int, b: int| 0 <= a <= b < out@.len() implies out@[a] <= out@[b] by {
                if b < k {
                    assert(out@[a] == pre[a] && out@[b] == pre[b]);
                } else if a > k {
                    assert(out@[a] == pre[a - 1] && out@[b] == pre[b - 1]);
                } else if a == k && b == k {
                } else if a == k {
                    assert(out@[b] == pre[b - 1]);
                    assert(k < out@.len() - 1 ==> x <= pre[k as int]);
                } else if b == k {
                    assert(out@[a] == pre[a]);
                } else {
                    assert(out@[a] == pre[a]);
                    assert(out@[b] == pre[b - 1]);
                    assert(pre[a] <= x || a < k);
                }
            }
        }
        i = i + 1;
    }
    proof {
        assert(v@.take(v@.len() as int) =~= v@);
    }
    out
}

/// Appending an element inserts it into the set of values.
proof fn lemma_to_set_push(s: Seq<u32>, x: u32)
    ensures
        s.push(x).to_set() =~= s.to_set().insert(x),
{
    assert forall|a: u32| s.push(x).contains(a) implies s.to_set().insert(x).contains(a) by {
        let w = choose|w: int| 0 <= w < s.push(x).len() && s.push(x)[w] == a;
        if w < s.len() {
            assert(s[w] == a);
        }
    }
    assert forall|a: u32| s.to_set().insert(x).contains(a) implies s.push(x).contains(a) by {
        if a == x {
            assert(s.push(x)[s.len() as int] == a);
        } else {
            let w = choose|w: int| 0 <= w < s.len() && s[w] == a;
            assert(s.push(x)[w] == a);
        }
    }
}

/// Keep the first copy of each value of an ascending sequence.
fn dedup_sorted(v: &Vec<u32>) -> (r: Vec<u32>)
    requires
        forall|i: int, j: int| 0 <= i <= j < v@.len() ==> v@[i] <= v@[j],
    ensures
        strictly_increasing(r@),
        r@.to_set() == v@.to_set(),
{
    let mut out: Vec<u32> = Vec::new();
    let mut i: usize = 0;
    proof {
        assert(v@.take(0).to_set() =~= out@.to_set());
    }
    while i < v.len()
        invariant
            0 <= i <= v@.len(),
            forall|a: int, b: int| 0 <= a <= b < v@.len() ==> v@[a] <= v@[b],
            strictly_increasing(out@),
            out@.to_set() == v@.take(i as int).to_set(),
            i > 0 ==> out@.len() > 0 && out@.last() == v@[i - 1],
            i == 0 ==> out@.len() == 0,
        decreases v@.len() - i,
    {
        let x = v[i];
        let ghost pre = out@;
        if out.len() == 0 {
            out.push(x);
        } else {
            let l = out[out.len() - 1];
            if l < x {
                out.push(x);
            }
        }
        proof {
            assert(v@.take(i + 1).drop_last() =~= v@.take(i as int));
            assert(v@.take(i + 1) =~= v@.take(i as int).push(x));
            lemma_to_set_push(v@.take(i as int), x);
            if pre.len() > 0 && !(pre.last() < x) {
                // duplicate: x is already the last element kept
                assert(i > 0);
                assert(pre.last() == v@[i - 1]);
                assert(v@[i - 1] <= v@[i as int]);
                assert(pre.last() == x);
                assert(out@.to_set() =~= v@.take(i + 1).to_set()) by {
                    assert(v@.take(i + 1).to_set() =~= v@.take(i as int).to_set().insert(x));
                    assert(pre.to_set().contains(x)) by {
                        assert(pre.contains(x)) by {
                            assert(pre[pre.len() - 1] == x);
                        }
                    }
                    assert(pre.to_set().insert(x) =~= pre.to_set());
                }
            } else {
                assert(out@ == pre.push(x));
                assert(out@.to_set() =~= v@.take(i + 1).to_set()) by {
                    assert(v@.take(i + 1).to_set() =~= v@.take(i as int).to_set().insert(x));
                    lemma_to_set_push(pre, x);
                }
                assert(strictly_increasing(out@)) by {
                    if pre.len() > 0 {
                        assert(pre.last() < x);
                        assert forall|a: int, b: int|
                            0 <= a < b < out@.len() implies out@[a] < out@[b] by {
                            if b < out@.len() - 1 {
                                assert(out@[a] == pre[a] && out@[b] == pre[b]);
                            } else {
                                assert(out@[b] == x);
                                if a < pre.len() - 1 {
                                    assert(pre[a] < pre[pre.len() - 1]);
                                }
                            }
                        }
                    }
                }
            }
        }
        i = i + 1;
    }
    proof {
        assert(v@.take(v@.len() as int) =~= v@);
    }
    out
}

/// Parse a page selection expression into a sorted, deduplicated list of
/// positive page numbers, exactly when every comma-separated token is
/// valid; otherwise report the error of the first bad token.
pub fn parse_page_range(pages: &str) -> (r: Result<Vec<u32>, RangeError>)
    ensures
        r is Ok <==> spec_parse_outcome(pages@) is Ok,
        r matches Ok(v) ==> strictly_increasing(v@) && v@.to_set() == spec_parse_outcome(
            pages@,
        )->Ok_0.to_set() && (forall|i: int| 0 <= i < v@.len() ==> #[trigger] v@[i] >= 1),
        r matches Err(e) ==> e@ == spec_parse_outcome(pages@)->Err_0,
{
    let toks = split_str(pages, ',');
    let ghost tks = split_on(pages@, ',');
    let mut acc: Vec<u32> = Vec::new();
    let mut idx: usize = 0;
    proof {
        assert(tks.skip(0) =~= tks);
    }
    while idx < toks.len()
        invariant
            0 <= idx <= toks@.len(),
            toks.deep_view() == tks,
            tks == split_on(pages@, ','),
            spec_expand(tks.skip(idx as int)) is Ok ==> spec_expand(tks) is Ok && spec_expand(
                tks,
            )->Ok_0 == acc@ + spec_expand(tks.skip(idx as int))->Ok_0,
            spec_expand(tks.skip(idx as int)) is Err ==> spec_expand(tks) == spec_expand(
                tks.skip(idx as int),
            ),
        decreases toks@.len() - idx,
    {
        let ghost pre = acc@;
        let ghost suf = tks.skip(idx as int);
        proof {
            assert(toks.deep_view()[idx as int] == toks@[idx as int]@);
            assert(suf[0] == tks[idx as int]);
            assert(suf.drop_first() =~= tks.skip(idx + 1));
        }
        let e = token_pages_into((&toks[idx]).as_str(), &mut acc);
        if let Some(err) = e {
            proof {
                assert(spec_expand(suf) is Err && spec_expand(suf)->Err_0 == err@);
            }
            return Err(err);
        }
        proof {
            let ps = spec_token_pages(tks[idx as int]);
            assert(acc@ == pre + ps->Ok_0);
            if spec_expand(tks.skip(idx + 1)) is Ok {
                assert(pre + (ps->Ok_0 + spec_expand(tks.skip(idx + 1))->Ok_0) =~= acc@
                    + spec_expand(tks.skip(idx + 1))->Ok_0);
            }
        }
        idx = idx + 1;
    }
    proof {
        assert(tks.skip(toks@.len() as int) =~= Seq::<Seq<char>>::empty());
        assert(spec_expand(tks) is Ok);
        assert(acc@ + Seq::<u32>::empty() =~= acc@);
        assert(spec_expand(tks)->Ok_0 == acc@);
        lemma_expand_positive(tks);
    }
    let sorted = sort_u32(&acc);
    let result = dedup_sorted(&sorted);
    proof {
        broadcast use group_to_multiset_ensures;

        assert(sorted@.to_set() =~= acc@.to_set()) by {
            assert forall|a: u32| sorted@.contains(a) <==> acc@.contains(a) by {
                assert(sorted@.to_multiset().contains(a) == acc@.to_multiset().contains(a));
            }
        }
        assert(result@.to_set() == acc@.to_set());
        assert forall|i: int| 0 <= i < result@.len() implies #[trigger] result@[i] >= 1 by {
            assert(result@.to_set().contains(result@[i])) by {
                assert(result@.contains(result@[i]));
            }
            assert(acc@.contains(result@[i]));
            let w = choose|w: int| 0 <= w < acc@.len() && acc@[w] == result@[i];
            assert(acc@[w] >= 1);
        }
    }
    Ok(result)
}

} // verus!

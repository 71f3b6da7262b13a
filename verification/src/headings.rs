//! Heading level assignment.
//!
//! Headings are detected statistically: the corpus of body-line lengths
//! gives a per-document median, a line much shorter than that median which
//! sits directly after a blank separator (or at the start of the stream) is
//! a heading candidate, and its level depends on how short it is. Documents
//! whose typical line is already short get no headings at all.

use vstd::prelude::*;
use vstd::relations::{sorted_by, total_ordering};
use vstd::seq_lib::{lemma_sorted_unique, to_multiset_build, to_multiset_insert, to_multiset_len};
use crate::classify::{classify_line, spec_class, LineClass};
use crate::text::{spec_trim, trim_bounds};

verus! {

/// Corpora whose median body-line length is at or below this floor get no
/// heading detection: mostly-short lines carry no brevity signal. A policy
/// constant with no principled derivation.
pub const SHORT_CORPUS_FLOOR: usize = 20;

/// The shortest trimmed length a heading candidate may have. A policy
/// constant with no principled derivation.
pub const MIN_HEADING_LEN: usize = 3;

/// The trimmed lengths of every body-candidate line, in stream order.
pub open spec fn spec_corpus(ls: Seq<Seq<char>>) -> Seq<usize>
    decreases ls.len(),
{
    if ls.len() == 0 {
        Seq::empty()
    } else {
        let rest = spec_corpus(ls.drop_last());
        if spec_class(ls.last()) is BodyCandidate {
            rest.push(spec_trim(ls.last()).len() as usize)
        } else {
            rest
        }
    }
}

/// Ascending order on corpus entries.
pub open spec fn corpus_le() -> spec_fn(usize, usize) -> bool {
    |x: usize, y: usize| x <= y
}

/// The lower median of a corpus: the middle entry of the sorted corpus, or
/// the lower of the two middle entries on even counts.
pub open spec fn spec_median(c: Seq<usize>) -> usize
    recommends
        c.len() > 0,
{
    c.sort_by(corpus_le())[(c.len() - 1) as int / 2]
}

/// The length ceiling for heading candidates: half the median body-line
/// length, or zero — disabling heading detection — when the corpus is
/// empty or its median is at or below the short-corpus floor.
pub open spec fn spec_threshold(ls: Seq<Seq<char>>) -> usize {
    let c = spec_corpus(ls);
    if c.len() == 0 {
        0
    } else {
        let m = spec_median(c);
        if m > SHORT_CORPUS_FLOOR {
            m / 2
        } else {
            0
        }
    }
}

/// Whether line `i` sits at the stream start or directly after a line that
/// trims to nothing.
pub open spec fn spec_preceded_by_blank(ls: Seq<Seq<char>>, i: int) -> bool {
    i == 0 || spec_trim(ls[i - 1]).len() == 0
}

/// The heading level of line `i`: 0 for anything that is not a body
/// candidate, for disabled detection, and for non-candidates; 1 for a very
/// short isolated line, 2 for a moderately short one.
pub open spec fn spec_level_at(ls: Seq<Seq<char>>, i: int) -> u8
    recommends
        0 <= i < ls.len(),
{
    let th = spec_threshold(ls);
    if !(spec_class(ls[i]) is BodyCandidate) || th == 0 {
        0
    } else {
        let len = spec_trim(ls[i]).len();
        if MIN_HEADING_LEN <= len && len <= th && spec_preceded_by_blank(ls, i) {
            if len <= th / 2 {
                1
            } else {
                2
            }
        } else {
            0
        }
    }
}

/// `corpus_le` is a total ordering.
proof fn lemma_corpus_le_total()
    ensures
        total_ordering(corpus_le()),
{
    assert forall|x: usize, y: usize| #[trigger] corpus_le()(x, y) || corpus_le()(y, x) by {}
}

/// Sort into ascending order by insertion into a fresh vector.
fn sort_usize(v: &Vec<usize>) -> (r: Vec<usize>)
    ensures
        forall|i: int, j: int| 0 <= i <= j < r@.len() ==> r@[i] <= r@[j],
        r@.to_multiset() == v@.to_multiset(),
{
    let mut out: Vec<usize> = Vec::new();
    let mut i: usize = 0;
    proof {
        assert(v@.take(0) =~= out@);
    }
    while i < v.len()
        invariant
            0 <= i <= v@.len(),
            forall|a: int, b: int| 0 <= a <= b < out@.len() ==> out@[a] <= out@[b],
            out@.to_multiset() == v@.take(i as int).to_multiset(),
        decreases v@.len() - i,
    {
        let x = v[i];
        let mut k: usize = 0;
        while k < out.len() && out[k] <= x
            invariant
                0 <= k <= out@.len(),
                forall|j: int| 0 <= j < k ==> out@[j] <= x,
            decreases out@.len() - k,
        {
            k = k + 1;
        }
        let ghost pre = out@;
        out.insert(k, x);
        proof {
            assert(v@.take(i + 1).drop_last() =~= v@.take(i as int));
            assert(v@.take(i + 1) =~= v@.take(i as int).push(x));
            assert(out@ == pre.insert(k as int, x));
            to_multiset_insert(pre, k as int, x);
            to_multiset_build(v@.take(i as int), x);
            assert(out@.to_multiset() == v@.take(i + 1).to_multiset());
            assert forall|a: int, b: int| 0 <= a <= b < out@.len() implies out@[a] <= out@[b] by {
                if b < k {
                    assert(out@[a] == pre[a] && out@[b] == pre[b]);
                } else if a > k {
                    assert(out@[a] == pre[a - 1] && out@[b] == pre[b - 1]);
                } else if a == k && b == k {
                } else if a == k {
                    assert(out@[b] == pre[b - 1]);
                    assert(k < out@.len() - 1 ==> x <= pre[k as int]);
                } else if b == k {
                    assert(out@[a] == pre[a]);
                } else {
                    assert(out@[a] == pre[a]);
                    assert(out@[b] == pre[b - 1]);
                }
            }
        }
        i = i + 1;
    }
    proof {
        assert(v@.take(v@.len() as int) =~= v@);
    }
    out
}

/// A line directly after a line that does not trim to nothing is never
/// promoted to a heading, however short it is.
pub proof fn lemma_no_heading_after_nonblank(ls: Seq<Seq<char>>, i: int)
    requires
        0 < i < ls.len(),
        spec_trim(ls[i - 1]).len() > 0,
    ensures
        spec_level_at(ls, i) == 0,
{
}

/// A corpus that is empty, or whose median body-line length is at or below
/// the short-corpus floor, yields no headings at all, whatever short
/// isolated lines the stream holds.
pub proof fn lemma_short_corpus_no_headings(ls: Seq<Seq<char>>, i: int)
    requires
        0 <= i < ls.len(),
        spec_corpus(ls).len() == 0 || spec_median(spec_corpus(ls)) <= SHORT_CORPUS_FLOOR,
    ensures
        spec_level_at(ls, i) == 0,
{
}

/// The corpus holds the trimmed length of every body-candidate line.
proof fn lemma_corpus_contains(ls: Seq<Seq<char>>, i: int)
    requires
        0 <= i < ls.len(),
        spec_class(ls[i]) is BodyCandidate,
    ensures
        spec_corpus(ls).contains(spec_trim(ls[i]).len() as usize),
    decreases ls.len(),
{
    let x = spec_trim(ls[i]).len() as usize;
    if i == ls.len() - 1 {
        let c = spec_corpus(ls);
        assert(c[c.len() - 1] == x);
    } else {
        lemma_corpus_contains(ls.drop_last(), i);
        let rest = spec_corpus(ls.drop_last());
        let w = choose|w: int| 0 <= w < rest.len() && rest[w] == x;
        assert(spec_corpus(ls)[w] == x);
    }
}

/// When every body-candidate line has one and the same trimmed length `l`,
/// above the short-corpus floor, the heading threshold is exactly `l / 2`
/// — and no line is promoted, since every candidate is twice as long as
/// the threshold allows.
pub proof fn lemma_uniform_corpus(ls: Seq<Seq<char>>, l: usize)
    requires
        spec_corpus(ls).len() > 0,
        l > SHORT_CORPUS_FLOOR,
        forall|i: int| 0 <= i < spec_corpus(ls).len() ==> #[trigger] spec_corpus(ls)[i] == l,
    ensures
        spec_threshold(ls) == l / 2,
        forall|i: int| 0 <= i < ls.len() ==> spec_level_at(ls, i) == 0,
{
    broadcast use vstd::seq_lib::group_to_multiset_ensures;

    let c = spec_corpus(ls);
    lemma_corpus_le_total();
    c.lemma_sort_by_ensures(corpus_le());
    let s = c.sort_by(corpus_le());
    to_multiset_len(s);
    to_multiset_len(c);
    assert forall|k: int| 0 <= k < s.len() implies s[k] == l by {
        assert(s.contains(s[k]));
        assert(s.to_multiset().contains(s[k]));
        assert(c.to_multiset().contains(s[k]));
        assert(c.contains(s[k]));
        let w = choose|w: int| 0 <= w < c.len() && c[w] == s[k];
        assert(c[w] == l);
    }
    assert(spec_median(c) == l);
    assert(spec_threshold(ls) == l / 2);
    assert forall|i: int| 0 <= i < ls.len() implies spec_level_at(ls, i) == 0 by {
        if spec_class(ls[i]) is BodyCandidate {
            lemma_corpus_contains(ls, i);
            let x = spec_trim(ls[i]).len() as usize;
            let w = choose|w: int| 0 <= w < c.len() && c[w] == x;
            assert(x == l);
            assert(!(spec_trim(ls[i]).len() <= l / 2));
        }
    }
}

/// Assign a heading level to every line of the stream: 0 for body text and
/// suppressed lines, 1 for top-level headings, 2 for sub-level headings.
pub fn assign_heading_levels(lines: &Vec<String>) -> (levels: Vec<u8>)
    ensures
        levels@.len() == lines@.len(),
        forall|i: int|
            0 <= i < lines@.len() ==> levels@[i] == spec_level_at(lines.deep_view(), i),
{
    let ghost ldv = lines.deep_view();
    let n: usize = lines.len();
    let mut cls: Vec<LineClass> = Vec::new();
    let mut tlen: Vec<usize> = Vec::new();
    let mut i: usize = 0;
    while i < n
        invariant
            0 <= i <= n,
            n == lines@.len(),
            ldv == lines.deep_view(),
            cls@.len() == i,
            tlen@.len() == i,
            forall|j: int| 0 <= j < i ==> cls@[j] == spec_class(#[trigger] ldv[j]),
            forall|j: int| 0 <= j < i ==> tlen@[j] == spec_trim(#[trigger] ldv[j]).len(),
        decreases n - i,
    {
        let s = (&lines[i]).as_str();
        proof {
            assert(ldv[i as int] == lines@[i as int]@);
        }
        let c = classify_line(s);
        let (lo, hi) = trim_bounds(s);
        cls.push(c);
        tlen.push(hi - lo);
        i = i + 1;
    }
    // corpus of body-candidate line lengths
    let mut corpus: Vec<usize> = Vec::new();
    let mut j: usize = 0;
    proof {
        assert(ldv.take(0) =~= Seq::<Seq<char>>::empty());
        assert(corpus@ =~= spec_corpus(ldv.take(0)));
    }
    while j < n
        invariant
            0 <= j <= n,
            n == ldv.len(),
            cls@.len() == n,
            tlen@.len() == n,
            forall|m: int| 0 <= m < n ==> cls@[m] == spec_class(#[trigger] ldv[m]),
            forall|m: int| 0 <= m < n ==> tlen@[m] == spec_trim(#[trigger] ldv[m]).len(),
            corpus@ == spec_corpus(ldv.take(j as int)),
        decreases n - j,
    {
        let ghost pre = corpus@;
        if cls[j] == LineClass::BodyCandidate {
            corpus.push(tlen[j]);
        }
        proof {
            assert(ldv.take(j + 1).drop_last() =~= ldv.take(j as int));
            assert(ldv.take(j + 1).last() == ldv[j as int]);
            assert(corpus@ == spec_corpus(ldv.take(j + 1)));
        }
        j = j + 1;
    }
    proof {
        assert(ldv.take(n as int) =~= ldv);
        assert(corpus@ == spec_corpus(ldv));
    }
    let threshold: usize = if corpus.len() == 0 {
        0
    } else {
        let sorted = sort_usize(&corpus);
        proof {
            lemma_corpus_le_total();
            corpus@.lemma_sort_by_ensures(corpus_le());
            assert(sorted_by(sorted@, corpus_le())) by {
                assert forall|a: int, b: int|
                    0 <= a < b < sorted@.len() implies #[trigger] corpus_le()(
                    sorted@[a],
                    sorted@[b],
                ) by {
                    assert(sorted@[a] <= sorted@[b]);
                }
            }
            lemma_sorted_unique(sorted@, corpus@.sort_by(corpus_le()), corpus_le());
            assert(sorted@ == corpus@.sort_by(corpus_le()));
            to_multiset_len(sorted@);
            to_multiset_len(corpus@);
            assert(sorted@.len() == corpus@.len());
        }
        let median = sorted[(corpus.len() - 1) / 2];
        proof {
            assert(median == spec_median(corpus@));
        }
        if median > SHORT_CORPUS_FLOOR {
            median / 2
        } else {
            0
        }
    };
    proof {
        assert(threshold == spec_threshold(ldv));
    }
    let mut levels: Vec<u8> = Vec::new();
    let mut k: usize = 0;
    while k < n
        invariant
            0 <= k <= n,
            n == ldv.len(),
            cls@.len() == n,
            tlen@.len() == n,
            threshold == spec_threshold(ldv),
            forall|m: int| 0 <= m < n ==> cls@[m] == spec_class(#[trigger] ldv[m]),
            forall|m: int| 0 <= m < n ==> tlen@[m] == spec_trim(#[trigger] ldv[m]).len(),
            levels@.len() == k,
            forall|m: int| 0 <= m < k ==> levels@[m] == spec_level_at(ldv, m),
        decreases n - k,
    {
        let level: u8 = if !(cls[k] == LineClass::BodyCandidate) || threshold == 0 {
            0
        } else {
            let len = tlen[k];
            let preceded = k == 0 || tlen[k - 1] == 0;
            if MIN_HEADING_LEN <= len && len <= threshold && preceded {
                if len <= threshold / 2 {
                    1
                } else {
                    2
                }
            } else {
                0
            }
        };
        proof {
            assert(level == spec_level_at(ldv, k as int));
        }
        levels.push(level);
        k = k + 1;
    }
    levels
}

} // verus!

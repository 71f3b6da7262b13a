//! The structure renderer: the classified and leveled line stream becomes
//! normalized structured text. Blank lines and page-break artifacts
//! collapse to single separators, page numbers disappear, headings get
//! hash-mark prefixes and isolating blank separators, everything else is
//! emitted verbatim (trimmed), and a cleanup pass caps every run of blank
//! separators at one.

use vstd::prelude::*;
use crate::classify::{spec_class, LineClass, PAGE_NUMBER_MAX_LEN};
use crate::headings::{assign_heading_levels, spec_level_at};
use crate::text::{
    all_digits, all_digits_str, is_space, lemma_trim_end_last_not_space, spec_lines, spec_trim,
    spec_trim_end, spec_trim_start, split_lines, trim_str,
};

verus! {

/// `s` ends with a line feed.
pub open spec fn ends_with_nl(s: Seq<char>) -> bool {
    s.len() >= 1 && s[s.len() - 1] == '\n'
}

/// `s` ends with two line feeds: a blank separator is already in place.
pub open spec fn ends_with_2nl(s: Seq<char>) -> bool {
    s.len() >= 2 && s[s.len() - 1] == '\n' && s[s.len() - 2] == '\n'
}

/// The prefix of a heading of the given level: that many hash signs and a
/// space.
pub open spec fn heading_marks(level: u8) -> Seq<char> {
    Seq::new(level as nat, |i: int| '#') + seq![' ']
}

/// One emission step: how one line, with its assigned heading level,
/// extends the output `md` built so far. `pb` records whether the last
/// emission was a blank separator, so that consecutive blanks collapse.
pub open spec fn spec_step(md: Seq<char>, pb: bool, line: Seq<char>, level: u8) -> (Seq<
    char,
>, bool) {
    let t = spec_trim(line);
    if t.len() == 0 {
        if !pb && md.len() > 0 {
            (md + seq!['\n'], true)
        } else {
            (md, pb)
        }
    } else if all_digits(t) && t.len() <= PAGE_NUMBER_MAX_LEN {
        (md, pb)
    } else if level > 0 {
        let md1 = if md.len() > 0 && !ends_with_2nl(md) {
            if !ends_with_nl(md) {
                md + seq!['\n', '\n']
            } else {
                md + seq!['\n']
            }
        } else {
            md
        };
        (md1 + heading_marks(level) + t + seq!['\n', '\n'], false)
    } else {
        (md + t + seq!['\n'], false)
    }
}

/// The output and blank-flag after emitting the first `i` lines.
pub open spec fn spec_render_upto(ls: Seq<Seq<char>>, i: int) -> (Seq<char>, bool)
    decreases i,
{
    if i <= 0 {
        (Seq::<char>::empty(), false)
    } else {
        let st = spec_render_upto(ls, i - 1);
        spec_step(st.0, st.1, ls[i - 1], spec_level_at(ls, i - 1))
    }
}

/// Line-feed runs capped at two: a line feed standing directly after two
/// line feeds is dropped.
pub open spec fn spec_collapse(s: Seq<char>) -> Seq<char>
    decreases s.len(),
{
    if s.len() == 0 {
        Seq::<char>::empty()
    } else {
        let rest = spec_collapse(s.drop_last());
        if s.last() == '\n' && s.len() >= 3 && s[s.len() - 2] == '\n' && s[s.len() - 3] == '\n' {
            rest
        } else {
            rest.push(s.last())
        }
    }
}

/// No three consecutive line feeds anywhere: no doubled blank separator.
pub open spec fn no_triple_nl(s: Seq<char>) -> bool {
    forall|i: int|
        2 <= i < s.len() ==> !(#[trigger] s[i] == '\n' && s[i - 1] == '\n' && s[i - 2] == '\n')
}

/// The length of the run of line feeds that ends the string.
pub open spec fn tail_nl(s: Seq<char>) -> int
    decreases s.len(),
{
    if s.len() == 0 || s.last() != '\n' {
        0
    } else {
        1 + tail_nl(s.drop_last())
    }
}

/// How the trailing line-feed run shows up in the last characters.
proof fn lemma_tail_nl_facts(s: Seq<char>)
    ensures
        tail_nl(s) >= 0,
        tail_nl(s) >= 1 <==> (s.len() >= 1 && s[s.len() - 1] == '\n'),
        tail_nl(s) >= 2 <==> (s.len() >= 2 && s[s.len() - 1] == '\n' && s[s.len() - 2] == '\n'),
    decreases s.len(),
{
    if s.len() > 0 {
        lemma_tail_nl_facts(s.drop_last());
        assert(s.drop_last().len() == s.len() - 1);
        assert(s.len() >= 2 ==> s.drop_last()[s.len() - 2] == s[s.len() - 2]);
    }
}

/// The cleanup pass leaves no doubled blank separator, and keeps a trailing
/// line-feed run only up to length two.
pub proof fn lemma_collapse_props(s: Seq<char>)
    ensures
        no_triple_nl(spec_collapse(s)),
        tail_nl(spec_collapse(s)) == if tail_nl(s) <= 2 {
            tail_nl(s)
        } else {
            2int
        },
    decreases s.len(),
{
    if s.len() > 0 {
        let s1 = s.drop_last();
        let r1 = spec_collapse(s1);
        lemma_collapse_props(s1);
        lemma_tail_nl_facts(s);
        lemma_tail_nl_facts(s1);
        lemma_tail_nl_facts(r1);
        assert(s.len() >= 2 ==> s1[s.len() - 2] == s[s.len() - 2]);
        assert(s.len() >= 3 ==> s1[s.len() - 3] == s[s.len() - 3]);
        if s.last() == '\n' && s.len() >= 3 && s[s.len() - 2] == '\n' && s[s.len() - 3] == '\n' {
            // dropped: the run already shows two line feeds
            assert(spec_collapse(s) == r1);
            assert(tail_nl(s1) >= 2);
            assert(tail_nl(s) == 1 + tail_nl(s1));
        } else {
            let r = r1.push(s.last());
            assert(spec_collapse(s) == r);
            assert(r.drop_last() =~= r1);
            assert(forall|j: int| 0 <= j < r1.len() ==> r[j] == r1[j]);
            if s.last() == '\n' {
                // kept: the previous run is at most one line feed long
                assert(tail_nl(s1) <= 1);
                assert(tail_nl(r1) == tail_nl(s1));
                assert(tail_nl(r) == 1 + tail_nl(r1));
                assert(tail_nl(r) <= 2);
                assert(tail_nl(s) == 1 + tail_nl(s1));
                assert forall|i: int|
                    2 <= i < r.len() implies !(#[trigger] r[i] == '\n' && r[i - 1] == '\n' && r[i
                    - 2] == '\n') by {
                    if i == r.len() - 1 {
                        if r[i] == '\n' && r[i - 1] == '\n' && r[i - 2] == '\n' {
                            assert(r1[r1.len() - 1] == '\n' && r1[r1.len() - 2] == '\n');
                            assert(tail_nl(r1) >= 2);
                        }
                    }
                }
            } else {
                assert(tail_nl(r) == 0);
                assert(tail_nl(s) == 0);
                assert forall|i: int|
                    2 <= i < r.len() implies !(#[trigger] r[i] == '\n' && r[i - 1] == '\n' && r[i
                    - 2] == '\n') by {
                    if i == r.len() - 1 {
                        assert(r[i] != '\n');
                    }
                }
            }
        }
    }
}

/// A string with no doubled blank separator passes the cleanup unchanged.
pub proof fn lemma_collapse_identity(s: Seq<char>)
    requires
        no_triple_nl(s),
    ensures
        spec_collapse(s) == s,
    decreases s.len(),
{
    if s.len() == 0 {
        assert(spec_collapse(s) =~= s);
    } else {
        let s1 = s.drop_last();
        assert forall|i: int|
            2 <= i < s1.len() implies !(#[trigger] s1[i] == '\n' && s1[i - 1] == '\n' && s1[i - 2]
            == '\n') by {
            assert(s1[i] == s[i] && s1[i - 1] == s[i - 1] && s1[i - 2] == s[i - 2]);
        }
        lemma_collapse_identity(s1);
        assert(!(s.last() == '\n' && s.len() >= 3 && s[s.len() - 2] == '\n' && s[s.len() - 3]
            == '\n'));
        assert(spec_collapse(s) =~= s);
    }
}

/// The cleanup pass is idempotent: running it twice is running it once.
pub proof fn lemma_collapse_idempotent(s: Seq<char>)
    ensures
        spec_collapse(spec_collapse(s)) == spec_collapse(s),
{
    lemma_collapse_props(s);
    lemma_collapse_identity(spec_collapse(s));
}

/// Dropping leading whitespace cannot create a doubled blank separator.
proof fn lemma_no_triple_trim_start(s: Seq<char>)
    requires
        no_triple_nl(s),
    ensures
        no_triple_nl(spec_trim_start(s)),
    decreases s.len(),
{
    if s.len() > 0 && is_space(s[0]) {
        let s1 = s.drop_first();
        assert forall|i: int|
            2 <= i < s1.len() implies !(#[trigger] s1[i] == '\n' && s1[i - 1] == '\n' && s1[i - 2]
            == '\n') by {
            assert(s1[i] == s[i + 1] && s1[i - 1] == s[i] && s1[i - 2] == s[i - 1]);
        }
        lemma_no_triple_trim_start(s1);
    }
}

/// Dropping trailing whitespace cannot create a doubled blank separator.
proof fn lemma_no_triple_trim_end(s: Seq<char>)
    requires
        no_triple_nl(s),
    ensures
        no_triple_nl(spec_trim_end(s)),
    decreases s.len(),
{
    if s.len() > 0 && is_space(s.last()) {
        let s1 = s.drop_last();
        assert forall|i: int|
            2 <= i < s1.len() implies !(#[trigger] s1[i] == '\n' && s1[i - 1] == '\n' && s1[i - 2]
            == '\n') by {
            assert(s1[i] == s[i] && s1[i - 1] == s[i - 1] && s1[i - 2] == s[i - 2]);
        }
        lemma_no_triple_trim_end(s1);
    }
}

/// A line classed `PageNumber` contributes nothing to the emitted text: the
/// output after it is the output before it.
pub proof fn lemma_page_number_dropped(ls: Seq<Seq<char>>, i: int)
    requires
        0 <= i < ls.len(),
        spec_class(ls[i]) is PageNumber,
    ensures
        spec_render_upto(ls, i + 1).0 == spec_render_upto(ls, i).0,
        spec_render_upto(ls, i + 1).1 == spec_render_upto(ls, i).1,
{
    let t = spec_trim(ls[i]);
    assert(t.len() > 0 && all_digits(t) && t.len() <= PAGE_NUMBER_MAX_LEN);
}

/// What the renderer owes on raw input `raw`: lines emitted in order, blank
/// runs collapsed, the whole trimmed and closed with one line feed.
pub open spec fn spec_markdown(raw: Seq<char>) -> Seq<char> {
    let ls = spec_lines(raw);
    let md = spec_render_upto(ls, ls.len() as int).0;
    spec_trim(spec_collapse(md)) + seq!['\n']
}

/// The renderer's cleanup pass: cap every line-feed run at two, so that no
/// two blank separators stand together.
pub fn collapse_blank_lines(s: &str) -> (r: String)
    ensures
        r@ == spec_collapse(s@),
{
    let n: usize = s.unicode_len();
    let mut out = String::new();
    let mut i: usize = 0;
    proof {
        assert(s@.take(0) =~= Seq::<char>::empty());
    }
    while i < n
        invariant
            0 <= i <= n,
            n == s@.len(),
            out@ == spec_collapse(s@.take(i as int)),
        decreases n - i,
    {
        let c = s.get_char(i);
        let dropped = c == '\n' && i >= 2 && s.get_char(i - 1) == '\n' && s.get_char(i - 2)
            == '\n';
        let ghost pre = out@;
        if !dropped {
            let piece = s.substring_char(i, i + 1);
            out.append(piece);
            proof {
                assert(out@ =~= pre.push(s@[i as int]));
            }
        }
        proof {
            let tk = s@.take(i + 1);
            assert(tk.drop_last() =~= s@.take(i as int));
            assert(tk.last() == s@[i as int]);
            assert(i >= 1 ==> tk[tk.len() - 2] == s@[i - 1]);
            assert(i >= 2 ==> tk[tk.len() - 3] == s@[i - 2]);
            assert(out@ == spec_collapse(s@.take(i + 1)));
        }
        i = i + 1;
    }
    proof {
        assert(s@.take(n as int) =~= s@);
    }
    out
}

/// Recover document structure from raw extracted text: classify and level
/// every line, drop page-number artifacts, isolate headings with blank
/// separators and prefix them with hash marks, keep other lines verbatim
/// (trimmed), collapse repeated blank separators, and close the trimmed
/// result with exactly one line feed.
pub fn format_as_markdown(raw: &str) -> (md: String)
    ensures
        md@ == spec_markdown(raw@),
        md@.len() >= 1 && md@[md@.len() - 1] == '\n',
        md@.len() >= 2 ==> md@[md@.len() - 2] != '\n',
        no_triple_nl(md@),
{
    let lines = split_lines(raw);
    let ghost ls = spec_lines(raw@);
    let levels = assign_heading_levels(&lines);
    let n: usize = lines.len();
    let mut out = String::new();
    let mut pb: bool = false;
    let mut i: usize = 0;
    while i < n
        invariant
            0 <= i <= n,
            n == lines@.len(),
            lines.deep_view() == ls,
            ls == spec_lines(raw@),
            levels@.len() == n,
            forall|j: int| 0 <= j < n ==> levels@[j] == spec_level_at(ls, j),
            out@ == spec_render_upto(ls, i as int).0,
            pb == spec_render_upto(ls, i as int).1,
        decreases n - i,
    {
        let line = (&lines[i]).as_str();
        proof {
            assert(ls[i as int] == lines@[i as int]@);
        }
        let ghost st = spec_render_upto(ls, i as int);
        let ghost t_spec = spec_trim(ls[i as int]);
        let t = trim_str(line);
        let tn = t.unicode_len();
        let level = levels[i];
        if tn == 0 {
            if !pb && !out.as_str().is_empty() {
                out.append("\n");
                pb = true;
                proof {
                    reveal_strlit("\n");
                    assert("\n"@ =~= seq!['\n']);
                }
            }
        } else if tn <= PAGE_NUMBER_MAX_LEN && all_digits_str(t) {
            // a standalone page-number artifact: dropped entirely
        } else if level > 0 {
            let on: usize = out.as_str().unicode_len();
            let e1 = on >= 1 && out.as_str().get_char(on - 1) == '\n';
            let e2 = e1 && on >= 2 && out.as_str().get_char(on - 2) == '\n';
            proof {
                assert(e1 == ends_with_nl(st.0));
                assert(e2 == ends_with_2nl(st.0));
                reveal_strlit("\n");
                assert("\n"@ =~= seq!['\n']);
            }
            if on > 0 && !e2 {
                if !e1 {
                    out.append("\n");
                }
                out.append("\n");
            }
            let ghost md1 = if st.0.len() > 0 && !ends_with_2nl(st.0) {
                if !ends_with_nl(st.0) {
                    st.0 + seq!['\n', '\n']
                } else {
                    st.0 + seq!['\n']
                }
            } else {
                st.0
            };
            proof {
                assert(out@ =~= md1);
            }
            proof {
                assert(level == spec_level_at(ls, i as int));
                assert(level == 1 || level == 2);
            }
            if level == 1 {
                out.append("# ");
                proof {
                    reveal_strlit("# ");
                    assert("# "@ =~= heading_marks(1));
                }
            } else {
                out.append("## ");
                proof {
                    reveal_strlit("## ");
                    assert("## "@ =~= heading_marks(2));
                }
            }
            out.append(t);
            out.append("\n\n");
            pb = false;
            proof {
                reveal_strlit("\n\n");
                assert("\n\n"@ =~= seq!['\n', '\n']);
                assert(out@ =~= md1 + heading_marks(level) + t_spec + seq!['\n', '\n']);
            }
        } else {
            out.append(t);
            out.append("\n");
            pb = false;
            proof {
                reveal_strlit("\n");
                assert("\n"@ =~= seq!['\n']);
                assert(out@ =~= st.0 + t_spec + seq!['\n']);
            }
        }
        proof {
            assert(out@ == spec_render_upto(ls, i + 1).0);
            assert(pb == spec_render_upto(ls, i + 1).1);
        }
        i = i + 1;
    }
    let collapsed = collapse_blank_lines(out.as_str());
    let trimmed = trim_str(collapsed.as_str());
    let mut res = String::from_str(trimmed);
    res.append("\n");
    proof {
        reveal_strlit("\n");
        assert("\n"@ =~= seq!['\n']);
        assert(res@ =~= spec_markdown(raw@));
        assert(res@[res@.len() - 1] == '\n');
        let c = collapsed@;
        let t = trimmed@;
        lemma_collapse_props(out@);
        lemma_no_triple_trim_start(c);
        lemma_no_triple_trim_end(spec_trim_start(c));
        lemma_trim_end_last_not_space(spec_trim_start(c));
        assert(t.len() > 0 ==> t.last() != '\n') by {
            if t.len() > 0 {
                assert(is_space('\n'));
            }
        }
        assert(res@.len() >= 2 ==> res@[res@.len() - 2] != '\n') by {
            if res@.len() >= 2 {
                assert(res@[res@.len() - 2] == t.last());
            }
        }
        assert forall|i: int|
            2 <= i < res@.len() implies !(#[trigger] res@[i] == '\n' && res@[i - 1] == '\n'
            && res@[i - 2] == '\n') by {
            if i < t.len() {
                assert(res@[i] == t[i] && res@[i - 1] == t[i - 1] && res@[i - 2] == t[i - 2]);
            } else {
                assert(i == t.len());
                assert(res@[i - 1] == t.last());
            }
        }
    }
    res
}

} // verus!

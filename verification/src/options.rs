//! Pure decision helpers for the tool-invocation layer around the core:
//! mapping an output format to an interpreter device name, validating a
//! compression quality, testing a markdown file extension, stripping an
//! extension from an output name, and printing a page list.

use vstd::prelude::*;
use crate::text::{all_digits, digit_val, digits_val, is_digit, split_on, str_eq};
use crate::text::{lemma_split_on_first, lemma_split_on_whole};

verus! {

/// Map an image format name to the interpreter's device name: `png` drives
/// a 24-bit PNG device, `jpeg` and `jpg` the JPEG device; anything else is
/// rejected with a message naming the format.
pub fn gs_device(format: &str) -> (r: Result<&'static str, String>)
    ensures
        format@ == "png"@ ==> (r matches Ok(d) && d@ == "png16m"@),
        format@ == "jpeg"@ || format@ == "jpg"@ ==> (r matches Ok(d) && d@ == "jpeg"@),
        format@ != "png"@ && format@ != "jpeg"@ && format@ != "jpg"@ ==> (r matches Err(m) && m@
            == "Unsupported format '"@ + format@ + "'. Must be: png, jpeg"@),
{
    proof {
        reveal_strlit("png");
        reveal_strlit("jpeg");
        reveal_strlit("jpg");
        reveal_strlit("png16m");
    }
    if str_eq(format, "png") {
        proof {
            assert("png"@.len() == 3);
            assert("jpeg"@.len() == 4);
            assert("png"@[0] == 'p' && "jpg"@[0] == 'j');
            assert(format@ != "jpeg"@ && format@ != "jpg"@);
        }
        Ok("png16m")
    } else if str_eq(format, "jpeg") || str_eq(format, "jpg") {
        Ok("jpeg")
    } else {
        let mut m = String::from_str("Unsupported format '");
        m.append(format);
        m.append("'. Must be: png, jpeg");
        Err(m)
    }
}

/// The file extension for converted images: `jpg` is written out as
/// `jpeg`, every other format name is its own extension.
pub fn image_extension<'a>(format: &'a str) -> (r: &'a str)
    ensures
        format@ == "jpg"@ ==> r@ == "jpeg"@,
        format@ != "jpg"@ ==> r@ == format@,
{
    proof {
        reveal_strlit("jpg");
        reveal_strlit("jpeg");
    }
    if str_eq(format, "jpg") {
        "jpeg"
    } else {
        format
    }
}

/// Whether `quality` names one of the four compression presets.
pub fn valid_quality(quality: &str) -> (r: bool)
    ensures
        r == (quality@ == "screen"@ || quality@ == "ebook"@ || quality@ == "printer"@ || quality@
            == "prepress"@),
{
    str_eq(quality, "screen") || str_eq(quality, "ebook") || str_eq(quality, "printer") || str_eq(
        quality,
        "prepress",
    )
}

/// Two characters equal up to ASCII case.
pub open spec fn ascii_char_eq_ic(a: char, b: char) -> bool {
    let x = a as u32;
    let y = b as u32;
    x == y || (0x41 <= x && x <= 0x5A && y == x + 0x20) || (0x41 <= y && y <= 0x5A && x == y
        + 0x20)
}

/// Two strings equal up to ASCII case, as `str::eq_ignore_ascii_case`.
pub open spec fn spec_eq_ignore_ascii_case(a: Seq<char>, b: Seq<char>) -> bool {
    a.len() == b.len() && forall|i: int| 0 <= i < a.len() ==> ascii_char_eq_ic(a[i], b[i])
}

/// Runtime test for `spec_eq_ignore_ascii_case`.
pub fn str_eq_ignore_ascii_case(a: &str, b: &str) -> (r: bool)
    ensures
        r == spec_eq_ignore_ascii_case(a@, b@),
{
    let na: usize = a.unicode_len();
    let nb: usize = b.unicode_len();
    if na != nb {
        return false;
    }
    let mut i: usize = 0;
    while i < na
        invariant
            0 <= i <= na,
            na == a@.len(),
            nb == b@.len(),
            na == nb,
            forall|j: int| 0 <= j < i ==> ascii_char_eq_ic(a@[j], b@[j]),
        decreases na - i,
    {
        let x: u32 = a.get_char(i) as u32;
        let y: u32 = b.get_char(i) as u32;
        let ok = x == y || (0x41 <= x && x <= 0x5A && y == x + 0x20) || (0x41 <= y && y <= 0x5A
            && x == y + 0x20);
        if !ok {
            return false;
        }
        i = i + 1;
    }
    true
}

/// Whether `ext` names a markdown file: `md` or `markdown`, ASCII case
/// ignored.
pub fn is_markdown_extension(ext: &str) -> (r: bool)
    ensures
        r == (spec_eq_ignore_ascii_case(ext@, "md"@) || spec_eq_ignore_ascii_case(
            ext@,
            "markdown"@,
        )),
{
    str_eq_ignore_ascii_case(ext, "md") || str_eq_ignore_ascii_case(ext, "markdown")
}

/// Index of the last `.` in `s`, or -1 if there is none.
pub open spec fn rfind_dot(s: Seq<char>) -> int
    decreases s.len(),
{
    if s.len() == 0 {
        -1
    } else if s.last() == '.' {
        s.len() - 1
    } else {
        rfind_dot(s.drop_last())
    }
}

/// `rfind_dot` is what a right-to-left scan stopping at `k` finds.
proof fn lemma_rfind_dot_at(s: Seq<char>, k: int)
    requires
        -1 <= k < s.len(),
        forall|j: int| k < j < s.len() ==> s[j] != '.',
        k == -1 || s[k] == '.',
    ensures
        rfind_dot(s) == k,
    decreases s.len(),
{
    if s.len() > 0 && s.last() != '.' {
        lemma_rfind_dot_at(s.drop_last(), k);
    }
}

/// An output name with its extension removed: everything before the last
/// dot, except that a lone leading dot (a hidden-file name) is kept whole.
/// The name is taken as a bare file name, free of directory separators.
pub open spec fn spec_stem(s: Seq<char>) -> Seq<char> {
    if rfind_dot(s) >= 1 {
        s.take(rfind_dot(s))
    } else {
        s
    }
}

/// Strip any existing extension from a user-provided output name, so the
/// right one can be appended.
pub fn strip_extension(name: &str) -> (r: String)
    ensures
        r@ == spec_stem(name@),
{
    let n: usize = name.unicode_len();
    let mut k: usize = n;
    while k > 0 && name.get_char(k - 1) != '.'
        invariant
            0 <= k <= n,
            n == name@.len(),
            forall|j: int| k <= j < n ==> name@[j] != '.',
        decreases k,
    {
        k = k - 1;
    }
    proof {
        lemma_rfind_dot_at(name@, k - 1);
    }
    if k >= 2 {
        String::from_str(name.substring_char(0, k - 1))
    } else {
        String::from_str(name)
    }
}

/// A digit as a one-character string.
fn digit_str(d: u32) -> (r: &'static str)
    requires
        d < 10,
    ensures
        r@.len() == 1,
        is_digit(r@[0]),
        digit_val(r@[0]) == d,
{
    proof {
        reveal_strlit("0");
        reveal_strlit("1");
        reveal_strlit("2");
        reveal_strlit("3");
        reveal_strlit("4");
        reveal_strlit("5");
        reveal_strlit("6");
        reveal_strlit("7");
        reveal_strlit("8");
        reveal_strlit("9");
    }
    match d {
        0 => "0",
        1 => "1",
        2 => "2",
        3 => "3",
        4 => "4",
        5 => "5",
        6 => "6",
        7 => "7",
        8 => "8",
        _ => "9",
    }
}

/// The decimal form of `v`: digits only, no leading zero, denoting `v`.
pub fn u32_to_string(v: u32) -> (r: String)
    ensures
        all_digits(r@),
        r@.len() >= 1,
        digits_val(r@) == v,
        r@.len() > 1 ==> r@[0] != '0',
    decreases v,
{
    let d: u32 = v % 10;
    let ds = digit_str(d);
    if v < 10 {
        let r = String::from_str(ds);
        proof {
            assert(r@.drop_last() =~= Seq::<char>::empty());
            assert(digits_val(Seq::<char>::empty()) == 0);
            assert(digits_val(r@) == digits_val(r@.drop_last()) * 10 + digit_val(r@.last()));
            assert(digits_val(r@) == v);
        }
        r
    } else {
        let mut s = u32_to_string(v / 10);
        let ghost pre = s@;
        s.append(ds);
        proof {
            assert(s@ =~= pre.push(ds@[0]));
            assert(s@.drop_last() =~= pre);
            assert(digits_val(s@) == digits_val(pre) * 10 + d);
            assert(s@[0] == pre[0]);
            assert(pre[0] != '0') by {
                if pre.len() == 1 {
                    assert(pre.drop_last() =~= Seq::<char>::empty());
                    assert(digits_val(Seq::<char>::empty()) == 0);
                    assert(digits_val(pre) == digits_val(pre.drop_last()) * 10 + digit_val(
                        pre.last(),
                    ));
                    assert(digit_val(pre[0]) >= 1);
                }
            }
        }
        s
    }
}

/// The pieces joined with commas between them.
pub open spec fn join_commas(ps: Seq<Seq<char>>) -> Seq<char>
    decreases ps.len(),
{
    if ps.len() == 0 {
        Seq::<char>::empty()
    } else if ps.len() == 1 {
        ps[0]
    } else {
        ps[0] + seq![','] + join_commas(ps.drop_first())
    }
}

/// Appending one more piece to a comma join.
proof fn lemma_join_push(ps: Seq<Seq<char>>, x: Seq<char>)
    requires
        ps.len() >= 1,
    ensures
        join_commas(ps.push(x)) == join_commas(ps) + seq![','] + x,
    decreases ps.len(),
{
    if ps.len() == 1 {
        assert(ps.push(x)[0] == ps[0]);
        assert(ps.push(x).drop_first() =~= seq![x]);
        assert(join_commas(seq![x]) == x);
        assert(join_commas(ps.push(x)) == ps.push(x)[0] + seq![','] + join_commas(
            ps.push(x).drop_first(),
        ));
        assert(join_commas(ps.push(x)) =~= join_commas(ps) + seq![','] + x);
    } else {
        lemma_join_push(ps.drop_first(), x);
        assert(ps.push(x).drop_first() =~= ps.drop_first().push(x));
        assert(ps.push(x)[0] == ps[0]);
        assert(join_commas(ps.push(x)) =~= join_commas(ps) + seq![','] + x);
    }
}

/// Splitting a comma join of comma-free pieces recovers the pieces.
proof fn lemma_split_join(ps: Seq<Seq<char>>)
    requires
        ps.len() >= 1,
        forall|i: int, j: int|
            0 <= i < ps.len() && 0 <= j < ps[i].len() ==> #[trigger] ps[i][j] != ',',
    ensures
        split_on(join_commas(ps), ',') == ps,
    decreases ps.len(),
{
    let s = join_commas(ps);
    if ps.len() == 1 {
        assert(s == ps[0]);
        assert(forall|j: int| 0 <= j < s.len() ==> s[j] != ',');
        lemma_split_on_whole(s, ',');
        assert(split_on(s, ',') =~~= ps);
    } else {
        let h = ps[0];
        let rest = join_commas(ps.drop_first());
        assert(s == h + seq![','] + rest);
        assert(s[h.len() as int] == ',');
        assert forall|j: int| 0 <= j < h.len() implies s[j] != ',' by {
            assert(s[j] == h[j]);
        }
        lemma_split_on_first(s, ',', h.len() as int);
        assert(s.take(h.len() as int) =~= h);
        assert(s.skip(h.len() as int + 1) =~= rest);
        assert forall|i: int, j: int|
            0 <= i < ps.drop_first().len() && 0 <= j < ps.drop_first()[i].len() implies #[trigger] ps.drop_first()[i][j]
            != ',' by {
            assert(ps.drop_first()[i] == ps[i + 1]);
        }
        lemma_split_join(ps.drop_first());
        assert(split_on(s, ',') =~~= ps);
    }
}

/// Print a page list as comma-separated decimal numbers, the form the
/// extraction step hands to the interpreter's page selection switch.
pub fn page_list_string(pages: &Vec<u32>) -> (r: String)
    ensures
        pages@.len() == 0 ==> r@.len() == 0,
        pages@.len() > 0 ==> split_on(r@, ',').len() == pages@.len() && (forall|i: int|
            0 <= i < pages@.len() ==> {
                let p = #[trigger] split_on(r@, ',')[i];
                all_digits(p) && digits_val(p) == pages@[i] && (p.len() > 1 ==> p[0] != '0')
            }),
{
    let n: usize = pages.len();
    let mut r = String::new();
    let ghost mut ps = Seq::<Seq<char>>::empty();
    let mut i: usize = 0;
    while i < n
        invariant
            0 <= i <= n,
            n == pages@.len(),
            ps.len() == i,
            r@ == join_commas(ps),
            forall|m: int|
                0 <= m < i ==> {
                    let p = #[trigger] ps[m];
                    all_digits(p) && digits_val(p) == pages@[m] && (p.len() > 1 ==> p[0] != '0')
                },
            forall|m: int, j: int|
                0 <= m < ps.len() && 0 <= j < ps[m].len() ==> #[trigger] ps[m][j] != ',',
        decreases n - i,
    {
        let piece = u32_to_string(pages[i]);
        let ghost pv = piece@;
        let ghost pre = r@;
        if i > 0 {
            r.append(",");
            proof {
                reveal_strlit(",");
                assert(","@ =~= seq![',']);
            }
        }
        r.append(piece.as_str());
        proof {
            assert forall|j: int| 0 <= j < pv.len() implies pv[j] != ',' by {
                assert(is_digit(pv[j]));
            }
            if i > 0 {
                lemma_join_push(ps, pv);
                assert(r@ =~= join_commas(ps) + seq![','] + pv);
            } else {
                assert(r@ =~= pv);
                assert(ps.push(pv)[0] == pv);
            }
            ps = ps.push(pv);
            assert(r@ == join_commas(ps));
        }
        i = i + 1;
    }
    proof {
        if n > 0 {
            lemma_split_join(ps);
        }
    }
    r
}

} // verus!

//! Section paths: the heading path of a chunk, and compact ranges of
//! section paths (`first .. last`) for chunks that span several sections.

use vstd::prelude::*;
use crate::text::{
    chars_equal, chars_of, find_chars, first_occurrence, occurs_at, push_str, string_from_chars,
    lemma_find_from,
};

verus! {

/// The separator between the two ends of a section range: `" .. "`.
pub open spec fn range_sep() -> Seq<char> {
    seq![' ', '.', '.', ' ']
}

/// The two ends of a section path: the text before and after the first
/// `" .. "`, or the whole path twice when it holds none.
pub open spec fn path_bounds(s: Seq<char>) -> (Seq<char>, Seq<char>) {
    match first_occurrence(s, range_sep()) {
        Some(i) => (s.subrange(0, i), s.subrange(i + 4, s.len() as int)),
        None => (s, s),
    }
}

/// The compact range from the start of `left` to the end of `right`.
pub open spec fn merged_path(left: Seq<char>, right: Seq<char>) -> Seq<char> {
    let start = path_bounds(left).0;
    let end = path_bounds(right).1;
    if start == end {
        start
    } else {
        start + range_sep() + end
    }
}

/// `s` ends with `" .."`, the first three characters of the separator.
pub open spec fn ends_with_open_sep(s: Seq<char>) -> bool {
    s.len() >= 3 && s.subrange(s.len() - 3, s.len() as int) == seq![' ', '.', '.']
}

/// The prefix put before a chunk's content when headings are included.
pub open spec fn with_prefix(section: Seq<char>, content: Seq<char>) -> Seq<char> {
    "Section: "@ + section + "\n\n"@ + content
}

fn sep_chars() -> (v: Vec<char>)
    ensures
        v@ == range_sep(),
{
    let mut v: Vec<char> = Vec::new();
    v.push(' ');
    v.push('.');
    v.push('.');
    v.push(' ');
    assert(v@ =~= range_sep());
    v
}

/// Splits a section path at its first `" .. "` into start and end; a path
/// without one is its own start and end.
pub fn section_path_bounds<'a>(section: &'a str) -> (r: (&'a str, &'a str))
    ensures
        (r.0@, r.1@) == path_bounds(section@),
{
    let v = chars_of(section);
    let sep = sep_chars();
    proof {
        lemma_find_from(section@, range_sep(), 0);
    }
    match find_chars(v.as_slice(), sep.as_slice()) {
        Some(i) => {
            let n = v.len();
            (section.substring_char(0, i), section.substring_char(i + 4, n))
        },
        None => (section, section),
    }
}

/// Merges two section paths into the compact range from the start of
/// `left` to the end of `right`; equal ends collapse to one path.
pub fn merge_section_paths(left: &str, right: &str) -> (r: String)
    ensures
        r@ == merged_path(left@, right@),
{
    let (start, _) = section_path_bounds(left);
    let (_, end) = section_path_bounds(right);
    let s = chars_of(start);
    let e = chars_of(end);
    if chars_equal(s.as_slice(), e.as_slice()) {
        string_from_chars(s.as_slice())
    } else {
        let mut out = s;
        let mut sep = sep_chars();
        let mut e2 = e;
        out.append(&mut sep);
        out.append(&mut e2);
        string_from_chars(out.as_slice())
    }
}

/// Puts the section line before a chunk's content:
/// `"Section: <section>\n\n<content>"`.
pub fn with_section_prefix(section: &str, content: &str) -> (r: String)
    ensures
        r@ == with_prefix(section@, content@),
{
    let mut v: Vec<char> = Vec::new();
    push_str(&mut v, "Section: ");
    push_str(&mut v, section);
    push_str(&mut v, "\n\n");
    push_str(&mut v, content);
    proof {
        assert(v@ =~= with_prefix(section@, content@));
    }
    string_from_chars(v.as_slice())
}

/// The start of a section path holds no `" .. "`.
pub proof fn lemma_start_has_no_sep(s: Seq<char>)
    ensures
        forall|j: int| !#[trigger] occurs_at(path_bounds(s).0, range_sep(), j),
{
    lemma_find_from(s, range_sep(), 0);
    let a = path_bounds(s).0;
    match first_occurrence(s, range_sep()) {
        Some(i) => {
            assert forall|j: int| !#[trigger] occurs_at(a, range_sep(), j) by {
                if occurs_at(a, range_sep(), j) {
                    assert(a.subrange(j, j + 4) =~= s.subrange(j, j + 4));
                    assert(occurs_at(s, range_sep(), j));
                }
            }
        },
        None => {},
    }
}

/// Law: merging two section paths gives the range whose start is the
/// start of the left path and whose end is the end of the right path.
/// It fails only where the left start ends in `" .."` and the ends differ,
/// since the joined text then holds an earlier `" .. "`.
pub proof fn law_merged_path_bounds(left: Seq<char>, right: Seq<char>)
    requires
        !(ends_with_open_sep(path_bounds(left).0) && path_bounds(left).0 != path_bounds(right).1),
    ensures
        path_bounds(merged_path(left, right)) == (path_bounds(left).0, path_bounds(right).1),
{
    let a = path_bounds(left).0;
    let e = path_bounds(right).1;
    let sep = range_sep();
    lemma_start_has_no_sep(left);
    lemma_find_from(left, sep, 0);
    if a == e {
        lemma_find_from(a, sep, 0);
        assert(first_occurrence(a, sep) is None);
    } else {
        let m = a + sep + e;
        let n = a.len() as int;
        assert(m.subrange(n, n + 4) =~= sep);
        assert forall|j: int| 0 <= j < n implies !#[trigger] occurs_at(m, sep, j) by {
            if occurs_at(m, sep, j) {
                if j + 4 <= n {
                    assert(m.subrange(j, j + 4) =~= a.subrange(j, j + 4));
                    assert(occurs_at(a, sep, j));
                } else {
                    match first_occurrence(left, sep) {
                        Some(i) => {
                            assert(i == n);
                            assert(m.subrange(j, j + 4) =~= left.subrange(j, j + 4)) by {
                                assert forall|k: int| 0 <= k < 4 implies #[trigger] m.subrange(j, j + 4)[k]
                                    == left.subrange(j, j + 4)[k] by {
                                    if j + k < n {
                                        assert(left[j + k] == a[j + k]);
                                    } else {
                                        assert(left.subrange(n, n + 4)[j + k - n] == left[j + k]);
                                    }
                                }
                            }
                            assert(occurs_at(left, sep, j));
                        },
                        None => {
                            assert(m.subrange(j, j + 4)[0] == sep[0]);
                            assert(m.subrange(j, j + 4)[1] == sep[1]);
                            assert(m.subrange(j, j + 4)[2] == sep[2]);
                            assert(m.subrange(j, j + 4)[3] == sep[3]);
                            if j == n - 1 {
                                assert(m[j + 1] == sep[0]);
                            } else if j == n - 2 {
                                assert(m[j + 2] == sep[0]);
                            } else {
                                assert(j == n - 3);
                                assert(a.subrange(n - 3, n) =~= seq![' ', '.', '.']);
                            }
                        },
                    }
                }
            }
        }
        crate::text::lemma_first_occurrence_at(m, sep, n);
        assert(m.subrange(0, n) =~= a);
        assert(m.subrange(n + 4, m.len() as int) =~= e);
    }
}

} // verus!

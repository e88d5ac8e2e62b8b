//! Chunk drafts of one file and the coalescing of neighbouring drafts up
//! to a capacity in characters.

use vstd::prelude::*;
use vstd::string::StringExecFns;
use vstd::string::StrSliceExecFns;
use crate::sections::{ends_with_open_sep, law_merged_path_bounds, merged_path, merge_section_paths, path_bounds};
use crate::text::{join, trimmed, is_trimmed, chars_of, trim_chars, string_from_chars, lemma_trimmed_is_trimmed};

verus! {

/// Where a chunk comes from: the Markdown file, the source document it was
/// converted from, and its section path.
#[derive(Debug)]
pub struct ChunkMetadata {
    pub source_file: String,
    pub original_file: String,
    pub section: String,
}

/// A chunk of a file before it is embedded.
#[derive(Debug)]
pub struct ChunkDraft {
    pub content: String,
    pub metadata: ChunkMetadata,
}

/// The plain value of a chunk draft.
pub struct DraftView {
    pub content: Seq<char>,
    pub source_file: Seq<char>,
    pub original_file: Seq<char>,
    pub section: Seq<char>,
}

impl View for ChunkDraft {
    type V = DraftView;

    open spec fn view(&self) -> DraftView {
        DraftView {
            content: self.content@,
            source_file: self.metadata.source_file@,
            original_file: self.metadata.original_file@,
            section: self.metadata.section@,
        }
    }
}

/// The plain values of a list of drafts.
pub open spec fn draft_views(v: Seq<ChunkDraft>) -> Seq<DraftView> {
    v.map_values(|d: ChunkDraft| d@)
}

/// The separator put between the contents of coalesced drafts.
pub open spec fn para_sep() -> Seq<char> {
    "\n\n"@
}

/// `next` can join `last` without going over `max_chars` characters.
pub open spec fn fits(last: DraftView, next: DraftView, max_chars: int) -> bool {
    last.content.len() + 2 + next.content.len() <= max_chars
}

/// `last` with `next` appended: contents joined by a blank line, and the
/// section widened to the range from `last` to `next`.
pub open spec fn absorb(last: DraftView, next: DraftView) -> DraftView {
    DraftView {
        content: last.content + para_sep() + next.content,
        source_file: last.source_file,
        original_file: last.original_file,
        section: merged_path(last.section, next.section),
    }
}

/// Greedy coalescing: each draft joins the previous output chunk when the
/// joined content fits in `max_chars` characters, else starts a new one.
pub open spec fn coalesce(chunks: Seq<DraftView>, max_chars: int) -> Seq<DraftView>
    decreases chunks.len(),
{
    if chunks.len() == 0 {
        Seq::empty()
    } else {
        let out = coalesce(chunks.drop_last(), max_chars);
        let c = chunks.last();
        if out.len() > 0 && fits(out.last(), c, max_chars) {
            out.drop_last().push(absorb(out.last(), c))
        } else {
            out.push(c)
        }
    }
}

/// The contents of a list of drafts.
pub open spec fn contents(ds: Seq<DraftView>) -> Seq<Seq<char>> {
    ds.map_values(|d: DraftView| d.content)
}

/// Merges adjacent drafts of one file while the merged content stays within
/// `max_chars` characters (counting the blank line between them).
pub fn coalesce_chunks_for_file(chunks: Vec<ChunkDraft>, max_chars: usize) -> (out: Vec<
    ChunkDraft,
>)
    ensures
        draft_views(out@) == coalesce(draft_views(chunks@), max_chars as int),
{
    let ghost input = draft_views(chunks@);
    let mut out: Vec<ChunkDraft> = Vec::new();
    let mut cur: Option<ChunkDraft> = None;
    let mut cur_len: usize = 0;
    for chunk in it: chunks.into_iter()
        invariant
            input == draft_views(it.seq()),
            it.index() > 0 <==> cur is Some,
            cur matches Some(c) ==> cur_len == c@.content.len(),
            ({
                let done = coalesce(input.take(it.index() as int), max_chars as int);
                match cur {
                    Some(c) => draft_views(out@).push(c@) == done,
                    None => draft_views(out@) == done,
                }
            }),
    {
        let ghost k = it.index() as int;
        let ghost prefix = input.take(k + 1);
        proof {
            assert(prefix.drop_last() =~= input.take(k));
            assert(prefix.last() == chunk@);
        }
        let next_len = chunk.content.as_str().unicode_len();
        match cur.take() {
            Some(mut c) => {
                let ghost before = draft_views(out@).push(c@);
                let fit = match cur_len.checked_add(2) {
                    Some(x) => match x.checked_add(next_len) {
                        Some(y) => y <= max_chars,
                        None => false,
                    },
                    None => false,
                };
                if fit {
                    let ghost old_c = c@;
                    c.content.append("\n\n");
                    c.content.append(chunk.content.as_str());
                    let merged = merge_section_paths(
                        c.metadata.section.as_str(),
                        chunk.metadata.section.as_str(),
                    );
                    c.metadata.section = merged;
                    proof {
                        reveal_strlit("\n\n");
                        assert(c@ == absorb(old_c, chunk@));
                        assert(before.last() == old_c);
                        assert(before.drop_last() =~= draft_views(out@));
                        assert(draft_views(out@).push(c@) =~= before.drop_last().push(
                            absorb(before.last(), chunk@),
                        ));
                    }
                    cur_len = cur_len + 2 + next_len;
                    cur = Some(c);
                } else {
                    proof {
                        reveal_strlit("\n\n");
                    }
                    out.push(c);
                    proof {
                        assert(draft_views(out@) =~= before);
                        assert(draft_views(out@).push(chunk@) =~= before.push(chunk@));
                    }
                    cur_len = next_len;
                    cur = Some(chunk);
                }
            },
            None => {
                proof {
                    assert(k == 0);
                    assert(input.take(0) =~= Seq::<DraftView>::empty());
                    assert(draft_views(out@).push(chunk@) =~= seq![chunk@]);
                }
                cur_len = next_len;
                cur = Some(chunk);
            },
        }
    }
    proof {
        assert(input.take(input.len() as int) =~= input);
    }
    match cur {
        Some(c) => {
            out.push(c);
            proof {
                assert(draft_views(out@) =~= draft_views(out@.drop_last()).push(c@));
            }
        },
        None => {},
    }
    out
}


/// Joining one more part adds the separator and the part.
pub proof fn lemma_join_push(s: Seq<Seq<char>>, x: Seq<char>, sep: Seq<char>)
    ensures
        join(s.push(x), sep) == if s.len() == 0 {
            x
        } else {
            join(s, sep) + sep + x
        },
{
    assert(s.push(x).drop_last() =~= s);
    if s.len() == 0 {
        assert(s.push(x)[0] == x);
    }
}

proof fn lemma_contents_push(ds: Seq<DraftView>, d: DraftView)
    ensures
        contents(ds.push(d)) == contents(ds).push(d.content),
{
    assert(contents(ds.push(d)) =~= contents(ds).push(d.content));
}

proof fn lemma_contents_drop_last(ds: Seq<DraftView>)
    requires
        ds.len() > 0,
    ensures
        contents(ds.drop_last()) == contents(ds).drop_last(),
        contents(ds).last() == ds.last().content,
{
    assert(contents(ds.drop_last()) =~= contents(ds).drop_last());
}

/// Law: coalescing keeps the number of chunks at most the number of drafts,
/// and yields some chunk exactly when there is some draft.
pub proof fn law_coalesce_count(chunks: Seq<DraftView>, max_chars: int)
    ensures
        coalesce(chunks, max_chars).len() <= chunks.len(),
        coalesce(chunks, max_chars).len() > 0 <==> chunks.len() > 0,
    decreases chunks.len(),
{
    if chunks.len() > 0 {
        law_coalesce_count(chunks.drop_last(), max_chars);
    }
}

/// Law: coalescing loses and reorders no text. Joining the coalesced
/// contents with blank lines gives the drafts' contents joined the same way.
pub proof fn law_coalesce_preserves_text(chunks: Seq<DraftView>, max_chars: int)
    ensures
        join(contents(coalesce(chunks, max_chars)), para_sep()) == join(
            contents(chunks),
            para_sep(),
        ),
    decreases chunks.len(),
{
    if chunks.len() > 0 {
        let rest = chunks.drop_last();
        let c = chunks.last();
        let out = coalesce(rest, max_chars);
        law_coalesce_preserves_text(rest, max_chars);
        law_coalesce_count(rest, max_chars);
        lemma_contents_drop_last(chunks);
        assert(contents(chunks) =~= contents(rest).push(c.content));
        lemma_join_push(contents(rest), c.content, para_sep());
        if out.len() > 0 && fits(out.last(), c, max_chars) {
            let l = out.last();
            lemma_contents_drop_last(out);
            lemma_contents_push(out.drop_last(), absorb(l, c));
            lemma_join_push(contents(out.drop_last()), absorb(l, c).content, para_sep());
            assert(contents(out) =~= contents(out.drop_last()).push(l.content));
            lemma_join_push(contents(out.drop_last()), l.content, para_sep());
            if out.len() > 1 {
                assert(join(contents(out.drop_last()), para_sep()) + para_sep() + (l.content
                    + para_sep() + c.content) =~= join(contents(out.drop_last()), para_sep())
                    + para_sep() + l.content + para_sep() + c.content);
            }
        } else {
            lemma_contents_push(out, c);
            lemma_join_push(contents(out), c.content, para_sep());
        }
    }
}

/// Law: every coalesced chunk is either one of the drafts, untouched, or
/// holds at most `max_chars` characters.
pub proof fn law_coalesce_within_capacity(chunks: Seq<DraftView>, max_chars: int)
    ensures
        forall|i: int|
            0 <= i < coalesce(chunks, max_chars).len() ==> {
                let c = #[trigger] coalesce(chunks, max_chars)[i];
                c.content.len() <= max_chars || chunks.contains(c)
            },
    decreases chunks.len(),
{
    if chunks.len() > 0 {
        let rest = chunks.drop_last();
        let c = chunks.last();
        let out = coalesce(rest, max_chars);
        law_coalesce_within_capacity(rest, max_chars);
        reveal_strlit("\n\n");
        assert(chunks[chunks.len() - 1] == c);
        assert forall|j: int| 0 <= j < rest.len() implies chunks.contains(#[trigger] rest[j]) by {
            assert(chunks[j] == rest[j]);
        }
        let res = coalesce(chunks, max_chars);
        assert forall|i: int| 0 <= i < res.len() implies {
            let d = #[trigger] res[i];
            d.content.len() <= max_chars || chunks.contains(d)
        } by {
            if i < res.len() - 1 {
                assert(res[i] == out[i]);
            }
        }
    }
}

/// Law: coalescing leaves no two neighbouring chunks that would fit
/// together: each chunk and the one after it, joined by a blank line, hold
/// more than `max_chars` characters.
pub proof fn law_coalesce_neighbours_apart(chunks: Seq<DraftView>, max_chars: int)
    ensures
        forall|i: int|
            0 <= i < coalesce(chunks, max_chars).len() - 1 ==> !fits(
                #[trigger] coalesce(chunks, max_chars)[i],
                coalesce(chunks, max_chars)[i + 1],
                max_chars,
            ),
    decreases chunks.len(),
{
    if chunks.len() > 0 {
        let rest = chunks.drop_last();
        let c = chunks.last();
        let out = coalesce(rest, max_chars);
        law_coalesce_neighbours_apart(rest, max_chars);
        reveal_strlit("\n\n");
        let res = coalesce(chunks, max_chars);
        assert forall|i: int| 0 <= i < res.len() - 1 implies !fits(#[trigger] res[i], res[i + 1], max_chars) by {
            if out.len() > 0 && fits(out.last(), c, max_chars) {
                assert(res[i] == out[i]);
                if i < out.len() - 2 {
                    assert(res[i + 1] == out[i + 1]);
                } else {
                    assert(out[i + 1] == out.last());
                    assert(res[i + 1] == absorb(out.last(), c));
                }
            } else {
                assert(res[i] == out[i]);
                if i < out.len() - 1 {
                    assert(res[i + 1] == out[i + 1]);
                } else {
                    assert(out[i] == out.last());
                    assert(res[i + 1] == c);
                }
            }
        }
    }
}

/// The drafts `chunks[a..b]` make up `d`: their contents joined by blank
/// lines, the file names of the first draft, and a section range from the
/// start of the first draft's section to the end of the last one's.
pub open spec fn made_of(d: DraftView, chunks: Seq<DraftView>, a: int, b: int) -> bool {
    &&& 0 <= a < b <= chunks.len()
    &&& d.content == join(contents(chunks.subrange(a, b)), para_sep())
    &&& d.source_file == chunks[a].source_file
    &&& d.original_file == chunks[a].original_file
    &&& path_bounds(d.section) == (path_bounds(chunks[a].section).0, path_bounds(chunks[b - 1].section).1)
}

/// `cuts` splits `chunks` into consecutive runs, one per chunk of `out`,
/// each run making up its chunk.
pub open spec fn grouped_by(out: Seq<DraftView>, chunks: Seq<DraftView>, cuts: Seq<int>) -> bool {
    &&& cuts.len() == out.len() + 1
    &&& cuts[0] == 0
    &&& cuts[out.len() as int] == chunks.len()
    &&& forall|k: int| 0 <= k < out.len() ==> made_of(#[trigger] out[k], chunks, cuts[k], cuts[k + 1])
}

proof fn lemma_coalesce_groups(chunks: Seq<DraftView>, max_chars: int) -> (cuts: Seq<int>)
    requires
        forall|i: int| 0 <= i < chunks.len() ==> !ends_with_open_sep(path_bounds(#[trigger] chunks[i].section).0),
    ensures
        grouped_by(coalesce(chunks, max_chars), chunks, cuts),
    decreases chunks.len(),
{
    let n = chunks.len() as int;
    if n == 0 {
        seq![0int]
    } else {
        let rest = chunks.drop_last();
        let c = chunks.last();
        assert(chunks[n - 1] == c);
        assert forall|i: int| 0 <= i < rest.len() implies !ends_with_open_sep(path_bounds(#[trigger] rest[i].section).0) by {
            assert(rest[i] == chunks[i]);
        }
        let cuts0 = lemma_coalesce_groups(rest, max_chars);
        let out = coalesce(rest, max_chars);
        let res = coalesce(chunks, max_chars);
        if out.len() > 0 && fits(out.last(), c, max_chars) {
            let m = out.len() - 1;
            let l = out.last();
            assert(out[m] == l);
            let cuts = cuts0.update(m + 1, n);
            assert(made_of(l, rest, cuts0[m], cuts0[m + 1]));
            let a = cuts0[m];
            assert forall|k: int| 0 <= k < res.len() implies made_of(#[trigger] res[k], chunks, cuts[k], cuts[k + 1]) by {
                if k < m {
                    assert(res[k] == out[k]);
                    assert(made_of(out[k], rest, cuts0[k], cuts0[k + 1]));
                    assert(rest.subrange(cuts0[k], cuts0[k + 1]) =~= chunks.subrange(cuts0[k], cuts0[k + 1]));
                    assert(rest[cuts0[k]] == chunks[cuts0[k]]);
                    assert(rest[cuts0[k + 1] - 1] == chunks[cuts0[k + 1] - 1]);
                } else {
                    assert(res[k] == absorb(l, c));
                    assert(rest[a] == chunks[a]);
                    assert(rest[n - 2] == chunks[n - 2]);
                    law_merged_path_bounds(l.section, c.section);
                    assert(chunks.subrange(a, n) =~= rest.subrange(a, n - 1).push(c));
                    lemma_contents_push(rest.subrange(a, n - 1), c);
                    lemma_join_push(contents(rest.subrange(a, n - 1)), c.content, para_sep());
                }
            }
            cuts
        } else {
            let cuts = cuts0.push(n);
            assert forall|k: int| 0 <= k < res.len() implies made_of(#[trigger] res[k], chunks, cuts[k], cuts[k + 1]) by {
                if k < out.len() {
                    assert(res[k] == out[k]);
                    assert(made_of(out[k], rest, cuts0[k], cuts0[k + 1]));
                    assert(rest.subrange(cuts0[k], cuts0[k + 1]) =~= chunks.subrange(cuts0[k], cuts0[k + 1]));
                    assert(rest[cuts0[k]] == chunks[cuts0[k]]);
                    assert(rest[cuts0[k + 1] - 1] == chunks[cuts0[k + 1] - 1]);
                } else {
                    assert(res[k] == c);
                    assert(chunks.subrange(n - 1, n) =~= seq![c]);
                    assert(contents(seq![c]) =~= seq![c.content]);
                }
            }
            cuts
        }
    }
}

/// Law: each coalesced chunk is made of a run of consecutive drafts, and the
/// runs cover the drafts in order: the chunk holds their contents joined by
/// blank lines, the file names of the first draft, and a section range from
/// the start of the first draft's section to the end of the last one's. It
/// holds where no draft's section starts with text ending in `" .."`.
pub proof fn law_coalesce_groups(chunks: Seq<DraftView>, max_chars: int)
    requires
        forall|i: int| 0 <= i < chunks.len() ==> !ends_with_open_sep(path_bounds(#[trigger] chunks[i].section).0),
    ensures
        exists|cuts: Seq<int>| grouped_by(coalesce(chunks, max_chars), chunks, cuts),
{
    let cuts = lemma_coalesce_groups(chunks, max_chars);
    assert(grouped_by(coalesce(chunks, max_chars), chunks, cuts));
}

/// Law: a larger capacity never yields more chunks. With `a <= b`, the
/// drafts coalesced under `b` are at most as many as under `a`.
pub proof fn law_coalesce_monotone(chunks: Seq<DraftView>, a: int, b: int)
    requires
        a <= b,
    ensures
        coalesce(chunks, b).len() <= coalesce(chunks, a).len(),
{
    lemma_coalesce_monotone_inv(chunks, a, b);
}

proof fn lemma_coalesce_monotone_inv(chunks: Seq<DraftView>, a: int, b: int)
    requires
        a <= b,
    ensures
        ({
            let oa = coalesce(chunks, a);
            let ob = coalesce(chunks, b);
            ob.len() < oa.len() || (ob.len() == oa.len() && (ob.len() == 0
                || ob.last().content.len() <= oa.last().content.len()))
        }),
    decreases chunks.len(),
{
    reveal_strlit("\n\n");
    if chunks.len() > 0 {
        lemma_coalesce_monotone_inv(chunks.drop_last(), a, b);
    }
}


/// What `text_splitter::MarkdownSplitter` yields for `text` with a character
/// capacity of `capacity` (chunks trimmed as the splitter trims), in order.
pub uninterp spec fn markdown_split(text: Seq<char>, capacity: usize) -> Seq<Seq<char>>;

/// Every piece holds at most `capacity` characters.
pub open spec fn pieces_within(pieces: Seq<Seq<char>>, capacity: int) -> bool {
    forall|i: int| 0 <= i < pieces.len() ==> #[trigger] pieces[i].len() <= capacity
}

/// Splits Markdown text with `text_splitter::MarkdownSplitter`, sizing
/// chunks by characters and trimming them. The contract claims that the
/// pieces are what the splitter yields for this text and capacity, and that
/// none is longer than the capacity (`ChunkCapacity`: "never above max";
/// the character fallback level sizes one `char` as 1). A capacity of zero
/// is left out: the splitter computes `max - size` with `size >= 1`.
#[verifier::external_body]
pub(crate) fn split_markdown(text: &str, capacity: usize) -> (pieces: Vec<String>)
    requires
        capacity > 0,
    ensures
        pieces@.map_values(|p: String| p@) == markdown_split(text@, capacity),
        pieces_within(pieces@.map_values(|p: String| p@), capacity as int),
{
    let config = text_splitter::ChunkConfig::new(capacity).with_sizer(text_splitter::Characters).with_trim(true);
    text_splitter::MarkdownSplitter::new(config).chunks(text).map(|p| p.to_string()).collect()
}

/// The separator put between merged small pieces: one newline.
pub open spec fn line_sep() -> Seq<char> {
    "\n"@
}

/// The pieces trimmed, with those left empty dropped.
pub open spec fn clean_pieces(pieces: Seq<Seq<char>>) -> Seq<Seq<char>>
    decreases pieces.len(),
{
    if pieces.len() == 0 {
        Seq::empty()
    } else {
        let rest = clean_pieces(pieces.drop_last());
        let t = trimmed(pieces.last());
        if t.len() == 0 {
            rest
        } else {
            rest.push(t)
        }
    }
}

/// `pending` with `t` after it, joined by a newline when `pending` is not empty.
pub open spec fn attach(pending: Seq<char>, t: Seq<char>) -> Seq<char> {
    if pending.len() == 0 {
        t
    } else {
        pending + line_sep() + t
    }
}

/// Regrouping of cleaned pieces: pieces shorter than `min_chars` wait in a
/// pending text, which goes in front of the next piece that is long enough.
/// Returns the finished pieces and the pending text.
pub open spec fn regroup(pieces: Seq<Seq<char>>, min_chars: int) -> (Seq<Seq<char>>, Seq<char>)
    decreases pieces.len(),
{
    if pieces.len() == 0 {
        (Seq::empty(), Seq::empty())
    } else {
        let (out, pending) = regroup(pieces.drop_last(), min_chars);
        let t = pieces.last();
        if t.len() < min_chars {
            (out, attach(pending, t))
        } else {
            (out.push(attach(pending, t)), Seq::empty())
        }
    }
}

/// Pending text left at the end joins the last finished piece, or stands
/// alone when there is none.
pub open spec fn finish(out: Seq<Seq<char>>, pending: Seq<char>) -> Seq<Seq<char>> {
    if pending.len() == 0 {
        out
    } else if out.len() > 0 {
        out.update(out.len() - 1, out.last() + line_sep() + pending)
    } else {
        out.push(pending)
    }
}

/// The normalised pieces of a section: splitter pieces trimmed, empty ones
/// dropped, and pieces under `min_chars` characters merged into neighbours.
pub open spec fn normalized(pieces: Seq<Seq<char>>, min_chars: int) -> Seq<Seq<char>> {
    let (out, pending) = regroup(clean_pieces(pieces), min_chars);
    finish(out, pending)
}

/// Normalises splitter pieces: trims them, drops empty ones, and merges
/// pieces shorter than `min_chunk_chars` characters into the next piece
/// (or, at the end, into the previous one), joined by newlines.
pub fn normalize_pieces(pieces: Vec<String>, min_chunk_chars: usize) -> (out: Vec<String>)
    ensures
        out@.map_values(|p: String| p@) == normalized(
            pieces@.map_values(|p: String| p@),
            min_chunk_chars as int,
        ),
{
    let ghost input = pieces@.map_values(|p: String| p@);
    let mut done: Vec<Vec<char>> = Vec::new();
    let mut pending: Vec<char> = Vec::new();
    for piece in it: pieces.into_iter()
        invariant
            input == it.seq().map_values(|p: String| p@),
            regroup(clean_pieces(input.take(it.index() as int)), min_chunk_chars as int) == (
                done@.map_values(|v: Vec<char>| v@),
                pending@,
            ),
    {
        let ghost k = it.index() as int;
        let ghost before = clean_pieces(input.take(k));
        proof {
            assert(input.take(k + 1).drop_last() =~= input.take(k));
            assert(input.take(k + 1).last() == piece@);
        }
        let raw = chars_of(piece.as_str());
        let t = trim_chars(raw.as_slice());
        if t.len() == 0 {
            proof {
                assert(clean_pieces(input.take(k + 1)) == before);
            }
        } else {
            proof {
                assert(clean_pieces(input.take(k + 1)) == before.push(t@));
                assert(before.push(t@).drop_last() =~= before);
            }
            if t.len() < min_chunk_chars {
                if pending.len() > 0 {
                    pending.push('\n');
                }
                let mut t2 = t;
                pending.append(&mut t2);
                proof {
                    reveal_strlit("\n");
                    assert(pending@ =~= attach(regroup(before, min_chunk_chars as int).1, trimmed(piece@)));
                }
            } else {
                let ghost pend0 = pending@;
                let mut joined = pending;
                if joined.len() > 0 {
                    joined.push('\n');
                }
                let mut t2 = t;
                joined.append(&mut t2);
                proof {
                    reveal_strlit("\n");
                    assert(joined@ =~= attach(pend0, t@));
                }
                let ghost old_done = done@.map_values(|v: Vec<char>| v@);
                done.push(joined);
                pending = Vec::new();
                proof {
                    reveal_strlit("\n");
                    assert(done@.map_values(|v: Vec<char>| v@) =~= old_done.push(
                        attach(regroup(before, min_chunk_chars as int).1, trimmed(piece@)),
                    ));
                }
            }
        }
    }
    proof {
        assert(input.take(input.len() as int) =~= input);
    }
    let ghost groups = done@.map_values(|v: Vec<char>| v@);
    let mut out: Vec<String> = Vec::new();
    let n = done.len();
    let mut i: usize = 0;
    while i < n
        invariant
            i <= n,
            n == done@.len(),
            groups == done@.map_values(|v: Vec<char>| v@),
            out@.map_values(|p: String| p@) == groups.take(i as int),
        decreases n - i,
    {
        let s = string_from_chars(done[i].as_slice());
        proof {
            assert(s@ == groups[i as int]);
        }
        let ghost old_out = out@;
        out.push(s);
        proof {
            assert(out@ == old_out.push(s));
            assert(out@.map_values(|p: String| p@) =~= old_out.map_values(|p: String| p@).push(s@));
            assert(groups.take(i + 1) =~= groups.take(i as int).push(groups[i as int]));
            assert(out@.map_values(|p: String| p@) =~= groups.take(i + 1));
        }
        i = i + 1;
    }
    proof {
        assert(groups.take(n as int) =~= groups);
    }
    let ghost pend = pending@;
    let ghost before_out = out@.map_values(|p: String| p@);
    if pending.len() > 0 {
        if n > 0 {
            let last = match out.pop() {
                Some(x) => x,
                None => String::new(),
            };
            proof {
                assert(last@ == before_out.last());
                assert(out@.map_values(|p: String| p@) =~= before_out.drop_last());
            }
            let mut tail: Vec<char> = chars_of(last.as_str());
            tail.push('\n');
            let mut p2 = pending;
            tail.append(&mut p2);
            let joined = string_from_chars(tail.as_slice());
            proof {
                reveal_strlit("\n");
                assert(joined@ =~= before_out.last() + line_sep() + pend);
                assert(before_out.len() == n);
            }
            out.push(joined);
            proof {
                assert(out@.map_values(|p: String| p@) =~= finish(before_out, pend));
            }
        } else {
            out.push(string_from_chars(pending.as_slice()));
            proof {
                assert(out@.map_values(|p: String| p@) =~= finish(before_out, pend));
            }
        }
    }
    out
}


/// Every piece is non-empty and has no whitespace at either end.
pub open spec fn all_clean(ps: Seq<Seq<char>>) -> bool {
    forall|i: int| 0 <= i < ps.len() ==> #[trigger] ps[i].len() > 0 && is_trimmed(ps[i])
}

/// The finished pieces with the pending text after them, if any.
pub open spec fn flush(out: Seq<Seq<char>>, pending: Seq<char>) -> Seq<Seq<char>> {
    if pending.len() == 0 {
        out
    } else {
        out.push(pending)
    }
}

proof fn lemma_clean_pieces(ps: Seq<Seq<char>>)
    ensures
        all_clean(clean_pieces(ps)),
    decreases ps.len(),
{
    if ps.len() > 0 {
        lemma_clean_pieces(ps.drop_last());
        lemma_trimmed_is_trimmed(ps.last());
        let rest = clean_pieces(ps.drop_last());
        let t = trimmed(ps.last());
        if t.len() > 0 {
            assert forall|i: int| 0 <= i < rest.push(t).len() implies #[trigger] rest.push(t)[i].len()
                > 0 && is_trimmed(rest.push(t)[i]) by {
                if i < rest.len() {
                    assert(rest.push(t)[i] == rest[i]);
                }
            }
        }
    }
}

proof fn lemma_attach_clean(pending: Seq<char>, t: Seq<char>)
    requires
        pending.len() > 0 ==> is_trimmed(pending),
        t.len() > 0,
        is_trimmed(t),
    ensures
        attach(pending, t).len() >= t.len(),
        is_trimmed(attach(pending, t)),
{
    if pending.len() > 0 {
        let a = pending + line_sep() + t;
        assert(a[0] == pending[0]);
        assert(a.last() == t.last());
    }
}

proof fn lemma_regroup_inv(ps: Seq<Seq<char>>, m: int)
    requires
        all_clean(ps),
    ensures
        ({
            let (out, pending) = regroup(ps, m);
            &&& join(flush(out, pending), line_sep()) == join(ps, line_sep())
            &&& (flush(out, pending).len() == 0 <==> ps.len() == 0)
            &&& all_clean(out)
            &&& (pending.len() > 0 ==> is_trimmed(pending))
            &&& forall|i: int| 0 <= i < out.len() ==> #[trigger] out[i].len() >= m
            &&& (out.len() == 0 ==> forall|j: int| 0 <= j < ps.len() ==> #[trigger] ps[j].len() < m)
        }),
    decreases ps.len(),
{
    if ps.len() > 0 {
        let rest = ps.drop_last();
        let t = ps.last();
        assert(ps[ps.len() - 1] == t);
        assert forall|i: int| 0 <= i < rest.len() implies #[trigger] rest[i].len() > 0 && is_trimmed(
            rest[i],
        ) by {
            assert(rest[i] == ps[i]);
        }
        lemma_regroup_inv(rest, m);
        let (out, pending) = regroup(rest, m);
        lemma_attach_clean(pending, t);
        let x = attach(pending, t);
        assert(ps =~= rest.push(t));
        lemma_join_push(rest, t, line_sep());
        lemma_join_push(out, x, line_sep());
        if pending.len() == 0 {
            lemma_join_push(out, t, line_sep());
        } else {
            lemma_join_push(out, pending, line_sep());
            if out.len() > 0 {
                assert(join(out, line_sep()) + line_sep() + (pending + line_sep() + t) =~= join(
                    out,
                    line_sep(),
                ) + line_sep() + pending + line_sep() + t);
            }
        }
        let (out2, pending2) = regroup(ps, m);
        assert(flush(out2, pending2) =~= out.push(x));
        assert forall|i: int| 0 <= i < out2.len() implies #[trigger] out2[i].len() >= m by {
            if i < out.len() {
                assert(out2[i] == out[i]);
            }
        }
        assert forall|i: int| 0 <= i < out2.len() implies #[trigger] out2[i].len() > 0 && is_trimmed(
            out2[i],
        ) by {
            if i < out.len() {
                assert(out2[i] == out[i]);
            }
        }
        if out2.len() == 0 {
            assert forall|j: int| 0 <= j < ps.len() implies #[trigger] ps[j].len() < m by {
                if j < rest.len() {
                    assert(ps[j] == rest[j]);
                }
            }
        }
    }
}

/// Law: normalising loses and reorders no text. Joining the normalised
/// pieces with newlines gives the trimmed non-empty splitter pieces joined
/// the same way.
pub proof fn law_normalized_preserves_text(pieces: Seq<Seq<char>>, min_chars: int)
    ensures
        join(normalized(pieces, min_chars), line_sep()) == join(clean_pieces(pieces), line_sep()),
{
    let ps = clean_pieces(pieces);
    lemma_clean_pieces(pieces);
    lemma_regroup_inv(ps, min_chars);
    let (out, pending) = regroup(ps, min_chars);
    if pending.len() > 0 && out.len() > 0 {
        let u = out.update(out.len() - 1, out.last() + line_sep() + pending);
        assert(u =~= out.drop_last().push(out.last() + line_sep() + pending));
        assert(out =~= out.drop_last().push(out.last()));
        lemma_join_push(out.drop_last(), out.last() + line_sep() + pending, line_sep());
        lemma_join_push(out.drop_last(), out.last(), line_sep());
        lemma_join_push(out, pending, line_sep());
        if out.len() > 1 {
            assert(join(out.drop_last(), line_sep()) + line_sep() + (out.last() + line_sep()
                + pending) =~= join(out.drop_last(), line_sep()) + line_sep() + out.last()
                + line_sep() + pending);
        }
    }
}

/// Law: every normalised piece is non-empty with no whitespace at either
/// end, and every one holds at least `min_chars` characters, except when
/// all pieces were shorter and were merged into a single one.
pub proof fn law_normalized_shape(pieces: Seq<Seq<char>>, min_chars: int)
    ensures
        all_clean(normalized(pieces, min_chars)),
        (forall|i: int|
            0 <= i < normalized(pieces, min_chars).len() ==> #[trigger] normalized(
                pieces,
                min_chars,
            )[i].len() >= min_chars) || (normalized(pieces, min_chars).len() == 1 && forall|j: int|
            0 <= j < clean_pieces(pieces).len() ==> #[trigger] clean_pieces(pieces)[j].len()
                < min_chars),
{
    let ps = clean_pieces(pieces);
    lemma_clean_pieces(pieces);
    lemma_regroup_inv(ps, min_chars);
    let (out, pending) = regroup(ps, min_chars);
    let res = normalized(pieces, min_chars);
    if pending.len() > 0 && out.len() > 0 {
        let l = out.last() + line_sep() + pending;
        assert(out[out.len() - 1] == out.last());
        assert(l[0] == out.last()[0]);
        assert(l.last() == pending.last());
        assert forall|i: int| 0 <= i < res.len() implies #[trigger] res[i].len() > 0 && is_trimmed(
            res[i],
        ) by {
            if i < out.len() - 1 {
                assert(res[i] == out[i]);
            }
        }
        assert forall|i: int| 0 <= i < res.len() implies #[trigger] res[i].len() >= min_chars by {
            if i < out.len() - 1 {
                assert(res[i] == out[i]);
            }
        }
    } else if pending.len() > 0 {
        assert(res =~= seq![pending]);
        assert(res[0] == pending);
    }
}

/// Trimming and dropping empty pieces makes no piece longer.
pub proof fn lemma_clean_pieces_within(ps: Seq<Seq<char>>, capacity: int)
    requires
        pieces_within(ps, capacity),
    ensures
        pieces_within(clean_pieces(ps), capacity),
    decreases ps.len(),
{
    if ps.len() > 0 {
        let rest = ps.drop_last();
        assert forall|i: int| 0 <= i < rest.len() implies #[trigger] rest[i].len() <= capacity by {
            assert(rest[i] == ps[i]);
        }
        lemma_clean_pieces_within(rest, capacity);
        lemma_trimmed_is_trimmed(ps.last());
        assert(ps[ps.len() - 1] == ps.last());
        let r = clean_pieces(rest);
        let t = trimmed(ps.last());
        assert forall|i: int| 0 <= i < r.push(t).len() implies #[trigger] r.push(t)[i].len() <= capacity by {
            if i < r.len() {
                assert(r.push(t)[i] == r[i]);
            }
        }
    }
}

/// `s` ends with `t`.
pub open spec fn ends_with(s: Seq<char>, t: Seq<char>) -> bool {
    t.len() <= s.len() && s.subrange(s.len() - t.len(), s.len() as int) == t
}

/// `s` ends with one of the pieces `ps` that holds at least `m` characters.
pub open spec fn ends_with_long_piece(s: Seq<char>, ps: Seq<Seq<char>>, m: int) -> bool {
    exists|j: int| 0 <= j < ps.len() && ps[j].len() >= m && #[trigger] ends_with(s, ps[j])
}

proof fn lemma_regroup_ends_long(ps: Seq<Seq<char>>, m: int)
    ensures
        forall|i: int|
            0 <= i < regroup(ps, m).0.len() ==> #[trigger] ends_with_long_piece(regroup(ps, m).0[i], ps, m),
    decreases ps.len(),
{
    if ps.len() > 0 {
        let rest = ps.drop_last();
        let t = ps.last();
        lemma_regroup_ends_long(rest, m);
        let (out, pending) = regroup(rest, m);
        let out2 = regroup(ps, m).0;
        assert(ps[ps.len() - 1] == t);
        assert forall|i: int| 0 <= i < out2.len() implies #[trigger] ends_with_long_piece(out2[i], ps, m) by {
            if i < out.len() {
                assert(out2[i] == out[i]);
                assert(ends_with_long_piece(out[i], rest, m));
                let j = choose|j: int| 0 <= j < rest.len() && rest[j].len() >= m && #[trigger] ends_with(out[i], rest[j]);
                assert(rest[j] == ps[j]);
                assert(ends_with(out2[i], ps[j]));
            } else {
                let x = attach(pending, t);
                assert(out2[i] == x);
                assert(x.subrange(x.len() - t.len(), x.len() as int) =~= t);
                assert(ends_with(out2[i], ps[ps.len() - 1]));
            }
        }
    }
}

/// Law: a piece shorter than `min_chars` is never put behind the piece
/// before it: it waits and goes in front of the next piece of at least
/// `min_chars` characters. So every normalised piece but the last ends with
/// a trimmed splitter piece of at least `min_chars` characters.
pub proof fn law_normalized_short_pieces_go_forward(pieces: Seq<Seq<char>>, min_chars: int)
    ensures
        forall|i: int|
            0 <= i < normalized(pieces, min_chars).len() - 1 ==> #[trigger] ends_with_long_piece(
                normalized(pieces, min_chars)[i],
                clean_pieces(pieces),
                min_chars,
            ),
{
    let ps = clean_pieces(pieces);
    lemma_regroup_ends_long(ps, min_chars);
    let (out, pending) = regroup(ps, min_chars);
    let res = normalized(pieces, min_chars);
    assert forall|i: int| 0 <= i < res.len() - 1 implies #[trigger] ends_with_long_piece(res[i], ps, min_chars) by {
        assert(res[i] == out[i]);
        assert(ends_with_long_piece(out[i], ps, min_chars));
    }
}

/// Law: with no minimum size, normalising only trims the pieces and drops
/// those left empty.
pub proof fn law_normalized_without_minimum(pieces: Seq<Seq<char>>)
    ensures
        normalized(pieces, 0) == clean_pieces(pieces),
{
    let ps = clean_pieces(pieces);
    lemma_clean_pieces(pieces);
    lemma_regroup_identity(ps);
}

proof fn lemma_regroup_identity(ps: Seq<Seq<char>>)
    requires
        all_clean(ps),
    ensures
        regroup(ps, 0) == (ps, Seq::<char>::empty()),
    decreases ps.len(),
{
    if ps.len() > 0 {
        let rest = ps.drop_last();
        assert forall|i: int| 0 <= i < rest.len() implies #[trigger] rest[i].len() > 0 && is_trimmed(
            rest[i],
        ) by {
            assert(rest[i] == ps[i]);
        }
        lemma_regroup_identity(rest);
        assert(ps =~= rest.push(ps.last()));
    }
}

} // verus!

//! Indexing and querying rules: options, the chunks of one Markdown file,
//! and the checks made before and after embedding.

use vstd::prelude::*;
use vstd::string::StringExecFns;
use crate::chunking::{
    ChunkDraft, ChunkMetadata, DraftView, absorb, coalesce, fits, coalesce_chunks_for_file, draft_views,
    markdown_split, normalize_pieces, normalized, split_markdown, pieces_within,
    law_normalized_without_minimum, lemma_clean_pieces_within, clean_pieces, contents, para_sep,
    law_coalesce_count, law_coalesce_preserves_text,
};
use crate::error::{AppError, ErrorView, fails_with};
use crate::markdown::{Section, SectionView, extract_sections, markdown_events, section_views, sections_of};
use crate::sections::{
    ends_with_open_sep, law_merged_path_bounds, path_bounds, range_sep, with_prefix,
    with_section_prefix,
};
use crate::text::{
    chars_of, decimal, find_chars, first_occurrence, is_blank, join, lemma_find_from, occurs_at, push_decimal,
    push_str, string_from_chars, trimmed,
};

verus! {

/// How Markdown is cut into chunks.
#[derive(Debug)]
pub struct IndexOptions {
    /// Target chunk capacity in characters.
    pub chunk_size: usize,
    /// Pieces shorter than this many characters are merged into neighbours.
    pub min_chunk_chars: usize,
    /// Put a `Section: <path>` line before each piece's text.
    pub include_headings_in_content: bool,
}

impl Default for IndexOptions {
    /// Capacity 1200, no minimum, headings included.
    fn default() -> (o: Self)
        ensures
            o.chunk_size == 1200,
            o.min_chunk_chars == 0,
            o.include_headings_in_content,
    {
        IndexOptions { chunk_size: 1200, min_chunk_chars: 0, include_headings_in_content: true }
    }
}

impl IndexOptions {
    /// Whether these are the default options.
    pub fn uses_defaults(&self) -> (b: bool)
        ensures
            b == (self.chunk_size == 1200 && self.min_chunk_chars == 0
                && self.include_headings_in_content),
    {
        self.chunk_size == 1200 && self.min_chunk_chars == 0 && self.include_headings_in_content
    }
}

/// What an indexing run did.
#[derive(Debug)]
pub struct IndexSummary {
    pub indexed_files: usize,
    pub indexed_chunks: usize,
}

/// Rejects a chunk capacity of zero.
pub fn check_index_options(options: &IndexOptions) -> (r: Result<(), AppError>)
    ensures
        options.chunk_size > 0 ==> r is Ok,
        options.chunk_size == 0 ==> fails_with(r, ErrorView::InvalidInput(
            "chunk-size must be greater than zero"@,
        )),
{
    if options.chunk_size == 0 {
        Err(AppError::invalid_input("chunk-size must be greater than zero"))
    } else {
        Ok(())
    }
}

/// The source document name of a Markdown file: its first `.md` replaced by `.adoc`.
pub open spec fn original_name(source: Seq<char>) -> Seq<char> {
    match first_occurrence(source, ".md"@) {
        Some(i) => source.subrange(0, i) + ".adoc"@ + source.subrange(i + 3, source.len() as int),
        None => source,
    }
}

proof fn lemma_first_md_at_end(p: Seq<char>)
    requires
        forall|j: int| !#[trigger] occurs_at(p, ".md"@, j),
    ensures
        first_occurrence(p + ".md"@, ".md"@) == Some(p.len() as int),
{
    reveal_strlit(".md");
    let q = p + ".md"@;
    let n = p.len() as int;
    lemma_find_from(q, ".md"@, 0);
    assert(q.subrange(n, n + 3) =~= ".md"@);
    assert(occurs_at(q, ".md"@, n));
    assert forall|j: int| 0 <= j < n implies !#[trigger] occurs_at(q, ".md"@, j) by {
        if j + 3 <= n {
            if occurs_at(q, ".md"@, j) {
                assert(p.subrange(j, j + 3) =~= q.subrange(j, j + 3));
                assert(occurs_at(p, ".md"@, j));
            }
        } else if j == n - 1 {
            assert(q.subrange(j, j + 3)[1] == q[j + 1]);
        } else {
            assert(q.subrange(j, j + 3)[2] == q[j + 2]);
        }
    }
}

/// Law: a name made of some `p` that holds no `.md`, followed by `.md`,
/// becomes `p` followed by `.adoc`; a name that holds no `.md` is kept as
/// it is.
pub proof fn law_original_name(p: Seq<char>, s: Seq<char>)
    ensures
        (forall|j: int| !#[trigger] occurs_at(p, ".md"@, j)) ==> original_name(p + ".md"@) == p + ".adoc"@,
        (forall|j: int| !#[trigger] occurs_at(s, ".md"@, j)) ==> original_name(s) == s,
{
    lemma_find_from(s, ".md"@, 0);
    if forall|j: int| !#[trigger] occurs_at(p, ".md"@, j) {
        reveal_strlit(".md");
        let q = p + ".md"@;
        let n = p.len() as int;
        lemma_first_md_at_end(p);
        assert(q.subrange(0, n) =~= p);
        assert(q.subrange(n + 3, q.len() as int) =~= Seq::<char>::empty());
        assert(original_name(q) =~= p + ".adoc"@);
    }
}

/// The name of the document a Markdown file was converted from: the first
/// `.md` in the name becomes `.adoc`.
pub fn original_file_name(source_file: &str) -> (r: String)
    ensures
        r@ == original_name(source_file@),
{
    let v = chars_of(source_file);
    let pat = chars_of(".md");
    proof {
        reveal_strlit(".md");
        crate::text::lemma_find_from(v@, pat@, 0);
    }
    match find_chars(v.as_slice(), pat.as_slice()) {
        Some(i) => {
            let mut out: Vec<char> = vstd::slice::slice_to_vec(vstd::slice::slice_subrange(v.as_slice(), 0, i));
            push_str(&mut out, ".adoc");
            let n = v.len();
            let mut rest = vstd::slice::slice_to_vec(vstd::slice::slice_subrange(v.as_slice(), i + 3, n));
            out.append(&mut rest);
            proof {
                assert(out@ =~= source_file@.subrange(0, i as int) + ".adoc"@ + source_file@.subrange(i + 3, source_file@.len() as int));
            }
            string_from_chars(out.as_slice())
        },
        None => String::from_str(source_file),
    }
}

/// The normalised pieces of one section's text.
pub open spec fn section_pieces(content: Seq<char>, options: IndexOptions) -> Seq<Seq<char>> {
    normalized(markdown_split(content, options.chunk_size), options.min_chunk_chars as int)
}

/// Law: the pieces of a section honour the options' own minimum size: each
/// is non-empty with no whitespace at either end, and each holds at least
/// `min_chunk_chars` characters, unless every trimmed splitter piece was
/// shorter and they were all merged into one.
pub proof fn law_section_pieces_shape(content: Seq<char>, options: IndexOptions)
    ensures
        crate::chunking::all_clean(section_pieces(content, options)),
        (forall|i: int|
            0 <= i < section_pieces(content, options).len() ==> #[trigger] section_pieces(content, options)[i].len()
                >= options.min_chunk_chars) || (section_pieces(content, options).len() == 1 && forall|j: int|
            0 <= j < clean_pieces(markdown_split(content, options.chunk_size)).len()
                ==> #[trigger] clean_pieces(markdown_split(content, options.chunk_size))[j].len()
                < options.min_chunk_chars),
{
    crate::chunking::law_normalized_shape(markdown_split(content, options.chunk_size), options.min_chunk_chars as int);
}

/// Splits a section's text with the Markdown splitter at the chunk capacity
/// and normalises the pieces. With no minimum size, no piece is longer than
/// the capacity.
pub fn normalize_section_chunks(section_content: &str, options: &IndexOptions) -> (out: Vec<String>)
    requires
        options.chunk_size > 0,
    ensures
        out@.map_values(|p: String| p@) == section_pieces(section_content@, *options),
        options.min_chunk_chars == 0 ==> pieces_within(out@.map_values(|p: String| p@), options.chunk_size as int),
{
    let pieces = split_markdown(section_content, options.chunk_size);
    proof {
        let ps = pieces@.map_values(|p: String| p@);
        if options.min_chunk_chars == 0 {
            law_normalized_without_minimum(ps);
            lemma_clean_pieces_within(ps, options.chunk_size as int);
        }
    }
    normalize_pieces(pieces, options.min_chunk_chars)
}

/// The draft made of one piece of a section.
pub open spec fn piece_draft(
    source: Seq<char>,
    original: Seq<char>,
    path: Seq<char>,
    piece: Seq<char>,
    include_headings: bool,
) -> DraftView {
    DraftView {
        content: if include_headings {
            with_prefix(path, piece)
        } else {
            piece
        },
        source_file: source,
        original_file: original,
        section: path,
    }
}

/// The drafts made of the pieces of one section.
pub open spec fn section_drafts(
    source: Seq<char>,
    original: Seq<char>,
    path: Seq<char>,
    pieces: Seq<Seq<char>>,
    include_headings: bool,
) -> Seq<DraftView> {
    pieces.map_values(|p: Seq<char>| piece_draft(source, original, path, p, include_headings))
}

/// The drafts of all sections of a file, in order, before coalescing.
pub open spec fn file_drafts(
    source: Seq<char>,
    original: Seq<char>,
    sections: Seq<SectionView>,
    options: IndexOptions,
) -> Seq<DraftView>
    decreases sections.len(),
{
    if sections.len() == 0 {
        Seq::empty()
    } else {
        let s = sections.last();
        file_drafts(source, original, sections.drop_last(), options) + section_drafts(
            source,
            original,
            s.section_path,
            section_pieces(s.content, options),
            options.include_headings_in_content,
        )
    }
}

/// The chunks of one Markdown file: its sections, their pieces (prefixed
/// with the section line when headings are included), coalesced up to the
/// chunk capacity.
pub open spec fn file_chunks(source: Seq<char>, events: Seq<crate::markdown::EventView>, options: IndexOptions) -> Seq<DraftView> {
    coalesce(
        file_drafts(source, original_name(source), sections_of(events), options),
        options.chunk_size as int,
    )
}

/// The texts a section contributes to its file's chunks: its pieces, each
/// under the section line when headings are included.
pub open spec fn labelled_pieces(s: SectionView, options: IndexOptions) -> Seq<Seq<char>> {
    section_pieces(s.content, options).map_values(
        |p: Seq<char>|
            if options.include_headings_in_content {
                with_prefix(s.section_path, p)
            } else {
                p
            },
    )
}

proof fn lemma_file_drafts_contents(
    source: Seq<char>,
    original: Seq<char>,
    sections: Seq<SectionView>,
    options: IndexOptions,
)
    ensures
        contents(file_drafts(source, original, sections, options)) == sections.map_values(
            |s: SectionView| labelled_pieces(s, options),
        ).flatten(),
        file_drafts(source, original, sections, options).len() > 0 <==> exists|k: int|
            0 <= k < sections.len() && #[trigger] section_pieces(sections[k].content, options).len() > 0,
    decreases sections.len(),
{
    let f = |s: SectionView| labelled_pieces(s, options);
    if sections.len() == 0 {
        assert(contents(file_drafts(source, original, sections, options)) =~= Seq::<Seq<char>>::empty());
        assert(sections.map_values(f) =~= Seq::<Seq<Seq<char>>>::empty());
    } else {
        let rest = sections.drop_last();
        let s = sections.last();
        lemma_file_drafts_contents(source, original, rest, options);
        let a = file_drafts(source, original, rest, options);
        let b = section_drafts(source, original, s.section_path, section_pieces(s.content, options), options.include_headings_in_content);
        assert(contents(a + b) =~= contents(a) + contents(b));
        assert(contents(b) =~= labelled_pieces(s, options));
        assert(sections.map_values(f) =~= rest.map_values(f).push(f(s)));
        rest.map_values(f).lemma_flatten_push(f(s));
        assert(sections[sections.len() - 1] == s);
        if exists|k: int| 0 <= k < sections.len() && #[trigger] section_pieces(sections[k].content, options).len() > 0 {
            let k = choose|k: int| 0 <= k < sections.len() && #[trigger] section_pieces(sections[k].content, options).len() > 0;
            if k < rest.len() {
                assert(rest[k] == sections[k]);
            }
        }
        if exists|k: int| 0 <= k < rest.len() && #[trigger] section_pieces(rest[k].content, options).len() > 0 {
            let k = choose|k: int| 0 <= k < rest.len() && #[trigger] section_pieces(rest[k].content, options).len() > 0;
            assert(rest[k] == sections[k]);
        }
    }
}

/// Law: chunking loses no section and keeps their order: the chunk
/// contents joined by blank lines are the texts of every section of the
/// document (its pieces, under the section line when headings are
/// included) joined the same way; and the file yields some chunk exactly
/// when some section has a piece.
pub proof fn law_file_chunks_cover_sections(
    source: Seq<char>,
    events: Seq<crate::markdown::EventView>,
    options: IndexOptions,
)
    ensures
        join(contents(file_chunks(source, events, options)), para_sep()) == join(
            sections_of(events).map_values(|s: SectionView| labelled_pieces(s, options)).flatten(),
            para_sep(),
        ),
        file_chunks(source, events, options).len() > 0 <==> exists|k: int|
            0 <= k < sections_of(events).len() && #[trigger] section_pieces(sections_of(events)[k].content, options).len() > 0,
{
    let drafts = file_drafts(source, original_name(source), sections_of(events), options);
    lemma_file_drafts_contents(source, original_name(source), sections_of(events), options);
    law_coalesce_preserves_text(drafts, options.chunk_size as int);
    law_coalesce_count(drafts, options.chunk_size as int);
}

/// Turns the normalised pieces of one section into drafts of the file
/// `source_file` (converted from `original_file`).
pub fn drafts_for_section(
    source_file: &str,
    original_file: &str,
    section: &Section,
    pieces: Vec<String>,
    include_headings_in_content: bool,
) -> (out: Vec<ChunkDraft>)
    ensures
        draft_views(out@) == section_drafts(
            source_file@,
            original_file@,
            section.section_path@,
            pieces@.map_values(|p: String| p@),
            include_headings_in_content,
        ),
{
    let ghost ps = pieces@.map_values(|p: String| p@);
    let mut out: Vec<ChunkDraft> = Vec::new();
    let n = pieces.len();
    let mut i: usize = 0;
    while i < n
        invariant
            i <= n,
            n == pieces@.len(),
            ps == pieces@.map_values(|p: String| p@),
            draft_views(out@) == section_drafts(
                source_file@,
                original_file@,
                section.section_path@,
                ps.take(i as int),
                include_headings_in_content,
            ),
        decreases n - i,
    {
        let content = if include_headings_in_content {
            with_section_prefix(section.section_path.as_str(), pieces[i].as_str())
        } else {
            pieces[i].clone()
        };
        let draft = ChunkDraft {
            content: content,
            metadata: ChunkMetadata {
                source_file: String::from_str(source_file),
                original_file: String::from_str(original_file),
                section: section.section_path.clone(),
            },
        };
        let ghost old_out = out@;
        out.push(draft);
        proof {
            assert(ps[i as int] == pieces@[i as int]@);
            assert(draft_views(out@) =~= draft_views(old_out).push(draft@));
            assert(ps.take(i + 1) =~= ps.take(i as int).push(ps[i as int]));
            assert(section_drafts(
                source_file@,
                original_file@,
                section.section_path@,
                ps.take(i + 1),
                include_headings_in_content,
            ) =~= section_drafts(
                source_file@,
                original_file@,
                section.section_path@,
                ps.take(i as int),
                include_headings_in_content,
            ).push(draft@));
        }
        i = i + 1;
    }
    proof {
        assert(ps.take(n as int) =~= ps);
    }
    out
}

/// Cuts one Markdown file into chunks: sections, split and normalised
/// pieces, the optional section line, and coalescing up to the capacity.
pub fn chunk_markdown_file(source_file: &str, markdown: &str, options: &IndexOptions) -> (out: Vec<ChunkDraft>)
    requires
        options.chunk_size > 0,
    ensures
        draft_views(out@) == file_chunks(source_file@, markdown_events(markdown@), *options),
{
    let original = original_file_name(source_file);
    let sections = extract_sections(markdown);
    let ghost secs = section_views(sections@);
    let mut drafts: Vec<ChunkDraft> = Vec::new();
    let n = sections.len();
    let mut i: usize = 0;
    proof {
        assert(secs.take(0) =~= Seq::<SectionView>::empty());
    }
    while i < n
        invariant
            i <= n,
            n == sections@.len(),
            secs == section_views(sections@),
            original@ == original_name(source_file@),
            options.chunk_size > 0,
            draft_views(drafts@) == file_drafts(source_file@, original@, secs.take(i as int), *options),
        decreases n - i,
    {
        let section = &sections[i];
        let pieces = normalize_section_chunks(section.content.as_str(), options);
        let mut more = drafts_for_section(
            source_file,
            original.as_str(),
            section,
            pieces,
            options.include_headings_in_content,
        );
        let ghost old_drafts = draft_views(drafts@);
        let ghost added = draft_views(more@);
        drafts.append(&mut more);
        proof {
            assert(secs[i as int] == sections@[i as int]@);
            assert(secs.take(i + 1).drop_last() =~= secs.take(i as int));
            assert(secs.take(i + 1).last() == secs[i as int]);
            assert(draft_views(drafts@) =~= old_drafts + added);
        }
        i = i + 1;
    }
    proof {
        assert(secs.take(n as int) =~= secs);
    }
    coalesce_chunks_for_file(drafts, options.chunk_size)
}

/// Rejects a run that found no Markdown text to index.
pub fn check_chunks_found(chunk_count: usize) -> (r: Result<(), AppError>)
    ensures
        chunk_count > 0 ==> r is Ok,
        chunk_count == 0 ==> fails_with(r, ErrorView::InvalidInput(
            "No Markdown content found to index (*.md)"@,
        )),
{
    if chunk_count == 0 {
        Err(AppError::invalid_input("No Markdown content found to index (*.md)"))
    } else {
        Ok(())
    }
}

/// Rejects an embedding backend that returned a different number of
/// vectors than chunks were sent.
pub fn check_embedding_count(expected: usize, got: usize) -> (r: Result<(), AppError>)
    ensures
        expected == got ==> r is Ok,
        expected != got ==> fails_with(r, ErrorView::Embedding(
            "Embedding count mismatch: expected "@ + decimal(expected as nat) + ", got "@ + decimal(
                got as nat,
            ),
        )),
{
    if expected == got {
        Ok(())
    } else {
        let mut m: Vec<char> = Vec::new();
        push_str(&mut m, "Embedding count mismatch: expected ");
        push_decimal(&mut m, expected);
        push_str(&mut m, ", got ");
        push_decimal(&mut m, got);
        let s = string_from_chars(m.as_slice());
        Err(AppError::embedding(s.as_str()))
    }
}

/// Rejects a blank query and a result count of zero, in that order.
pub fn check_query(query: &str, top_k: usize) -> (r: Result<(), AppError>)
    ensures
        trimmed(query@).len() > 0 && top_k > 0 ==> r is Ok,
        trimmed(query@).len() == 0 ==> fails_with(r, ErrorView::InvalidInput(
            "Query must not be empty"@,
        )),
        trimmed(query@).len() > 0 && top_k == 0 ==> fails_with(r, ErrorView::InvalidInput("top-k must be greater than zero"@)),
{
    if is_blank(query) {
        return Err(AppError::invalid_input("Query must not be empty"));
    }
    if top_k == 0 {
        return Err(AppError::invalid_input("top-k must be greater than zero"));
    }
    Ok(())
}

/// Rejects a query whose embedding dimension differs from the index's.
pub fn check_dimension(index_dimension: usize, provider_dimension: usize) -> (r: Result<(), AppError>)
    ensures
        index_dimension == provider_dimension ==> r is Ok,
        index_dimension != provider_dimension ==> fails_with(r, ErrorView::Embedding(
            "Embedding dimension mismatch: index="@ + decimal(index_dimension as nat) + ", provider="@
                + decimal(provider_dimension as nat),
        )),
{
    if index_dimension == provider_dimension {
        Ok(())
    } else {
        let mut m: Vec<char> = Vec::new();
        push_str(&mut m, "Embedding dimension mismatch: index=");
        push_decimal(&mut m, index_dimension);
        push_str(&mut m, ", provider=");
        push_decimal(&mut m, provider_dimension);
        let s = string_from_chars(m.as_slice());
        Err(AppError::embedding(s.as_str()))
    }
}


/// A chunk of the file `source` converted from `original`, whose content
/// starts with the section line when headings are included.
pub open spec fn chunk_labelled(d: DraftView, source: Seq<char>, original: Seq<char>, include_headings: bool) -> bool {
    &&& d.source_file == source
    &&& d.original_file == original
    &&& include_headings ==> "Section: "@.is_prefix_of(d.content)
}

proof fn lemma_file_drafts_labelled(
    source: Seq<char>,
    original: Seq<char>,
    sections: Seq<SectionView>,
    options: IndexOptions,
)
    ensures
        forall|i: int|
            0 <= i < file_drafts(source, original, sections, options).len() ==> chunk_labelled(
                #[trigger] file_drafts(source, original, sections, options)[i],
                source,
                original,
                options.include_headings_in_content,
            ),
    decreases sections.len(),
{
    if sections.len() > 0 {
        lemma_file_drafts_labelled(source, original, sections.drop_last(), options);
        let a = file_drafts(source, original, sections.drop_last(), options);
        let s = sections.last();
        let b = section_drafts(
            source,
            original,
            s.section_path,
            section_pieces(s.content, options),
            options.include_headings_in_content,
        );
        let all = a + b;
        assert forall|i: int| 0 <= i < all.len() implies chunk_labelled(
            #[trigger] all[i],
            source,
            original,
            options.include_headings_in_content,
        ) by {
            if i < a.len() {
                assert(all[i] == a[i]);
            } else {
                assert(all[i] == b[i - a.len()]);
                if options.include_headings_in_content {
                    let d = b[i - a.len()];
                    assert("Section: "@.is_prefix_of(d.content)) by {
                        assert(d.content.subrange(0, "Section: "@.len() as int) =~= "Section: "@);
                    }
                }
            }
        }
    }
}

proof fn lemma_coalesce_labelled(
    chunks: Seq<DraftView>,
    max_chars: int,
    source: Seq<char>,
    original: Seq<char>,
    include_headings: bool,
)
    requires
        forall|i: int| 0 <= i < chunks.len() ==> chunk_labelled(#[trigger] chunks[i], source, original, include_headings),
    ensures
        forall|i: int|
            0 <= i < coalesce(chunks, max_chars).len() ==> chunk_labelled(
                #[trigger] coalesce(chunks, max_chars)[i],
                source,
                original,
                include_headings,
            ),
    decreases chunks.len(),
{
    if chunks.len() > 0 {
        let rest = chunks.drop_last();
        assert forall|i: int| 0 <= i < rest.len() implies chunk_labelled(#[trigger] rest[i], source, original, include_headings) by {
            assert(rest[i] == chunks[i]);
        }
        lemma_coalesce_labelled(rest, max_chars, source, original, include_headings);
        let out = coalesce(rest, max_chars);
        let c = chunks.last();
        assert(chunks[chunks.len() - 1] == c);
        let res = coalesce(chunks, max_chars);
        assert forall|i: int| 0 <= i < res.len() implies chunk_labelled(#[trigger] res[i], source, original, include_headings) by {
            if i < out.len() - 1 {
                assert(res[i] == out[i]);
            } else if out.len() > 0 && fits(out.last(), c, max_chars) {
                let l = out.last();
                assert(out[out.len() - 1] == l);
                if include_headings {
                    let m = absorb(l, c).content;
                    assert(m.subrange(0, "Section: "@.len() as int) =~= l.content.subrange(0, "Section: "@.len() as int));
                }
            } else if i < out.len() {
                assert(res[i] == out[i]);
            }
        }
    }
}

/// Law: every chunk of a file names that file and the document it was
/// converted from, and, when headings are included, starts with the
/// `Section: ` line.
pub proof fn law_file_chunks_labelled(source: Seq<char>, events: Seq<crate::markdown::EventView>, options: IndexOptions)
    ensures
        forall|i: int|
            0 <= i < file_chunks(source, events, options).len() ==> chunk_labelled(
                #[trigger] file_chunks(source, events, options)[i],
                source,
                original_name(source),
                options.include_headings_in_content,
            ),
{
    let drafts = file_drafts(source, original_name(source), sections_of(events), options);
    lemma_file_drafts_labelled(source, original_name(source), sections_of(events), options);
    lemma_coalesce_labelled(drafts, options.chunk_size as int, source, original_name(source), options.include_headings_in_content);
}


/// A section path that names one section: it holds no `" .. "` and does not
/// end with `" .."`.
pub open spec fn single_section_path(p: Seq<char>) -> bool {
    &&& forall|j: int| !#[trigger] occurs_at(p, range_sep(), j)
    &&& !ends_with_open_sep(p)
}

/// The line that opens a chunk's content when headings are included: the
/// start of its section range, then a blank line.
pub open spec fn section_line(section: Seq<char>) -> Seq<char> {
    "Section: "@ + path_bounds(section).0 + "\n\n"@
}

/// A draft opens with its section line, and the start of its range does not
/// end with `" .."`.
pub open spec fn opens_with_section_line(d: DraftView) -> bool {
    &&& section_line(d.section).is_prefix_of(d.content)
    &&& !ends_with_open_sep(path_bounds(d.section).0)
}

proof fn lemma_file_drafts_section_line(
    source: Seq<char>,
    original: Seq<char>,
    sections: Seq<SectionView>,
    options: IndexOptions,
)
    requires
        options.include_headings_in_content,
        forall|i: int| 0 <= i < sections.len() ==> single_section_path(#[trigger] sections[i].section_path),
    ensures
        forall|i: int|
            0 <= i < file_drafts(source, original, sections, options).len() ==> opens_with_section_line(
                #[trigger] file_drafts(source, original, sections, options)[i],
            ),
    decreases sections.len(),
{
    if sections.len() > 0 {
        let rest = sections.drop_last();
        assert forall|i: int| 0 <= i < rest.len() implies single_section_path(#[trigger] rest[i].section_path) by {
            assert(rest[i] == sections[i]);
        }
        lemma_file_drafts_section_line(source, original, rest, options);
        let a = file_drafts(source, original, rest, options);
        let s = sections.last();
        assert(sections[sections.len() - 1] == s);
        let path = s.section_path;
        lemma_find_from(path, range_sep(), 0);
        assert(path_bounds(path).0 == path);
        let b = section_drafts(
            source,
            original,
            path,
            section_pieces(s.content, options),
            options.include_headings_in_content,
        );
        let all = a + b;
        assert forall|i: int| 0 <= i < all.len() implies opens_with_section_line(#[trigger] all[i]) by {
            if i < a.len() {
                assert(all[i] == a[i]);
            } else {
                assert(all[i] == b[i - a.len()]);
                let d = b[i - a.len()];
                let line = section_line(d.section);
                assert(d.content.subrange(0, line.len() as int) =~= line);
            }
        }
    }
}

proof fn lemma_coalesce_section_line(chunks: Seq<DraftView>, max_chars: int)
    requires
        forall|i: int| 0 <= i < chunks.len() ==> opens_with_section_line(#[trigger] chunks[i]),
    ensures
        forall|i: int|
            0 <= i < coalesce(chunks, max_chars).len() ==> opens_with_section_line(
                #[trigger] coalesce(chunks, max_chars)[i],
            ),
    decreases chunks.len(),
{
    if chunks.len() > 0 {
        let rest = chunks.drop_last();
        assert forall|i: int| 0 <= i < rest.len() implies opens_with_section_line(#[trigger] rest[i]) by {
            assert(rest[i] == chunks[i]);
        }
        lemma_coalesce_section_line(rest, max_chars);
        let out = coalesce(rest, max_chars);
        let c = chunks.last();
        assert(chunks[chunks.len() - 1] == c);
        let res = coalesce(chunks, max_chars);
        assert forall|i: int| 0 <= i < res.len() implies opens_with_section_line(#[trigger] res[i]) by {
            if i < out.len() - 1 {
                assert(res[i] == out[i]);
            } else if out.len() > 0 && fits(out.last(), c, max_chars) {
                let l = out.last();
                assert(out[out.len() - 1] == l);
                let m = absorb(l, c);
                assert(res[i] == m);
                law_merged_path_bounds(l.section, c.section);
                assert(path_bounds(m.section).0 == path_bounds(l.section).0);
                let line = section_line(l.section);
                assert(m.content.subrange(0, line.len() as int) =~= l.content.subrange(0, line.len() as int));
            } else if i < out.len() {
                assert(res[i] == out[i]);
            }
        }
    }
}

/// Law: when headings are included and every section path of the file names
/// one section (no `" .. "` in it, no `" .."` at its end), every chunk opens
/// with `Section: `, the first section it covers, and a blank line.
pub proof fn law_file_chunks_section_line(
    source: Seq<char>,
    events: Seq<crate::markdown::EventView>,
    options: IndexOptions,
)
    requires
        options.include_headings_in_content,
        forall|i: int|
            0 <= i < sections_of(events).len() ==> single_section_path(#[trigger] sections_of(events)[i].section_path),
    ensures
        forall|i: int|
            0 <= i < file_chunks(source, events, options).len() ==> section_line(
                #[trigger] file_chunks(source, events, options)[i].section,
            ).is_prefix_of(file_chunks(source, events, options)[i].content),
{
    let drafts = file_drafts(source, original_name(source), sections_of(events), options);
    lemma_file_drafts_section_line(source, original_name(source), sections_of(events), options);
    lemma_coalesce_section_line(drafts, options.chunk_size as int);
    let out = file_chunks(source, events, options);
    assert forall|i: int| 0 <= i < out.len() implies section_line(#[trigger] out[i].section).is_prefix_of(
        out[i].content,
    ) by {
        assert(opens_with_section_line(out[i]));
    }
}


/// Whether a path names a Markdown file: its extension is exactly `md`.
pub fn is_markdown_file(path: &str) -> (b: bool)
    ensures
        b ==> exists|i: int| crate::text::occurs_at(path@, seq!['.'] + "md"@, i),
        crate::convert::plain_file_path(path@) ==> (b == (crate::convert::file_extension(path@) == Some("md"@))),
{
    match crate::convert::path_extension(path) {
        Some(e) => crate::text::str_equal(e.as_str(), "md"),
        None => false,
    }
}


/// The state of an indexing run: its options, the files read so far and
/// the chunks cut from them.
#[derive(Debug)]
pub struct IndexRun {
    pub options: IndexOptions,
    pub indexed_files: usize,
    pub chunks: Vec<ChunkDraft>,
}

impl IndexRun {
    /// Starts a run; a chunk capacity of zero is rejected.
    pub fn start(options: IndexOptions) -> (r: Result<IndexRun, AppError>)
        ensures
            options.chunk_size == 0 ==> fails_with(r, ErrorView::InvalidInput(
                "chunk-size must be greater than zero"@,
            )),
            options.chunk_size > 0 ==> (r matches Ok(run) && run.options == options
                && run.indexed_files == 0 && run.chunks@.len() == 0),
    {
        match check_index_options(&options) {
            Ok(()) => Ok(IndexRun { options, indexed_files: 0, chunks: Vec::new() }),
            Err(e) => Err(e),
        }
    }

    /// Adds one Markdown file: counts it and appends its chunks.
    pub fn add_file(&mut self, source_file: &str, markdown: &str)
        requires
            old(self).indexed_files < usize::MAX,
            old(self).options.chunk_size > 0,
        ensures
            final(self).options == old(self).options,
            final(self).indexed_files == old(self).indexed_files + 1,
            draft_views(final(self).chunks@) == draft_views(old(self).chunks@) + file_chunks(
                source_file@,
                markdown_events(markdown@),
                old(self).options,
            ),
    {
        let mut more = chunk_markdown_file(source_file, markdown, &self.options);
        let ghost before = draft_views(self.chunks@);
        let ghost added = draft_views(more@);
        self.chunks.append(&mut more);
        proof {
            assert(draft_views(self.chunks@) =~= before + added);
        }
        self.indexed_files = self.indexed_files + 1;
    }

    /// The texts to embed: the chunk contents, in order.
    pub fn texts(&self) -> (texts: Vec<String>)
        ensures
            texts@.map_values(|t: String| t@) == crate::chunking::contents(draft_views(self.chunks@)),
    {
        let ghost want = crate::chunking::contents(draft_views(self.chunks@));
        let mut texts: Vec<String> = Vec::new();
        let n = self.chunks.len();
        let mut i: usize = 0;
        while i < n
            invariant
                i <= n,
                n == self.chunks@.len(),
                want == crate::chunking::contents(draft_views(self.chunks@)),
                texts@.map_values(|t: String| t@) == want.take(i as int),
            decreases n - i,
        {
            let t = self.chunks[i].content.clone();
            let ghost old_texts = texts@;
            texts.push(t);
            proof {
                assert(want[i as int] == self.chunks@[i as int].content@);
                assert(texts@.map_values(|t: String| t@) =~= old_texts.map_values(|t: String| t@).push(t@));
                assert(want.take(i + 1) =~= want.take(i as int).push(want[i as int]));
            }
            i = i + 1;
        }
        proof {
            assert(want.take(n as int) =~= want);
        }
        texts
    }

    /// Checks that some chunk was found, then that the backend returned one
    /// vector per chunk.
    pub fn check_embeddings(&self, vector_count: usize) -> (r: Result<(), AppError>)
        ensures
            self.chunks@.len() == 0 ==> fails_with(r, ErrorView::InvalidInput(
                "No Markdown content found to index (*.md)"@,
            )),
            self.chunks@.len() > 0 && vector_count == self.chunks@.len() ==> r is Ok,
            self.chunks@.len() > 0 && vector_count != self.chunks@.len() ==> fails_with(r, ErrorView::Embedding(
                "Embedding count mismatch: expected "@ + decimal(self.chunks@.len()) + ", got "@
                    + decimal(vector_count as nat),
            )),
    {
        match check_chunks_found(self.chunks.len()) {
            Err(e) => Err(e),
            Ok(()) => check_embedding_count(self.chunks.len(), vector_count),
        }
    }

    /// The summary of the run once `records` records are stored.
    pub fn summary(&self, records: usize) -> (s: IndexSummary)
        ensures
            s.indexed_files == self.indexed_files,
            s.indexed_chunks == records,
    {
        IndexSummary { indexed_files: self.indexed_files, indexed_chunks: records }
    }
}

} // verus!

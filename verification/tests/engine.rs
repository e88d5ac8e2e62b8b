use docu_retriever::chunking::{coalesce_chunks_for_file, ChunkDraft, ChunkMetadata};
use docu_retriever::sections::{merge_section_paths, section_path_bounds, with_section_prefix};

fn draft(content: &str, section: &str) -> ChunkDraft {
    ChunkDraft {
        content: content.to_string(),
        metadata: ChunkMetadata {
            source_file: "doc.md".to_string(),
            original_file: "doc.adoc".to_string(),
            section: section.to_string(),
        },
    }
}

#[test]
fn merge_section_paths_creates_compact_range() {
    assert_eq!(merge_section_paths("A > B", "A > B"), "A > B");
    assert_eq!(merge_section_paths("A > B", "A > C"), "A > B .. A > C");
    assert_eq!(
        merge_section_paths("A > B .. A > C", "A > D"),
        "A > B .. A > D"
    );
}

#[test]
fn coalesce_chunks_for_file_merges_adjacent_sections_when_capacity_allows() {
    let chunks = vec![
        ChunkDraft {
            content: "A".repeat(8),
            metadata: ChunkMetadata {
                source_file: "doc.md".to_string(),
                original_file: "doc.adoc".to_string(),
                section: "Intro".to_string(),
            },
        },
        ChunkDraft {
            content: "B".repeat(8),
            metadata: ChunkMetadata {
                source_file: "doc.md".to_string(),
                original_file: "doc.adoc".to_string(),
                section: "Details".to_string(),
            },
        },
        ChunkDraft {
            content: "C".repeat(10),
            metadata: ChunkMetadata {
                source_file: "doc.md".to_string(),
                original_file: "doc.adoc".to_string(),
                section: "Appendix".to_string(),
            },
        },
    ];

    let merged = coalesce_chunks_for_file(chunks, 20);
    assert_eq!(merged.len(), 2);
    assert_eq!(merged[0].metadata.section, "Intro .. Details");
    assert_eq!(merged[1].metadata.section, "Appendix");
}

#[test]
fn with_section_prefix_adds_section_line() {
    let out = with_section_prefix("Guide > Setup", "Install dependencies.");
    assert_eq!(out, "Section: Guide > Setup\n\nInstall dependencies.");
}

#[test]
fn coalesce_joins_contents_with_blank_line() {
    let merged = coalesce_chunks_for_file(vec![draft("one", "A"), draft("two", "A")], 100);
    assert_eq!(merged.len(), 1);
    assert_eq!(merged[0].content, "one\n\ntwo");
    assert_eq!(merged[0].metadata.section, "A");
    assert_eq!(merged[0].metadata.source_file, "doc.md");
    assert_eq!(merged[0].metadata.original_file, "doc.adoc");
}

#[test]
fn coalesce_counts_characters_not_bytes() {
    // "éé" is 2 characters (4 bytes): 2 + 2 + 2 = 6 fits exactly.
    let merged = coalesce_chunks_for_file(vec![draft("éé", "A"), draft("üü", "B")], 6);
    assert_eq!(merged.len(), 1);
    assert_eq!(merged[0].content, "éé\n\nüü");
    let split = coalesce_chunks_for_file(vec![draft("éé", "A"), draft("üü", "B")], 5);
    assert_eq!(split.len(), 2);
}

#[test]
fn coalesce_keeps_oversized_draft_alone() {
    let merged = coalesce_chunks_for_file(
        vec![draft("xxxxxxxxxx", "A"), draft("y", "B"), draft("z", "C")],
        4,
    );
    assert_eq!(merged.len(), 2);
    assert_eq!(merged[0].content, "xxxxxxxxxx");
    assert_eq!(merged[1].content, "y\n\nz");
    assert_eq!(merged[1].metadata.section, "B .. C");
}

#[test]
fn coalesce_of_nothing_and_of_one() {
    assert!(coalesce_chunks_for_file(Vec::new(), 10).is_empty());
    let one = coalesce_chunks_for_file(vec![draft("only", "S")], 1);
    assert_eq!(one.len(), 1);
    assert_eq!(one[0].content, "only");
}

#[test]
fn coalesce_larger_capacity_gives_no_more_chunks() {
    let make = || {
        vec![
            draft("aaaa", "A"),
            draft("bb", "B"),
            draft("cccccc", "C"),
            draft("d", "D"),
            draft("eeeee", "E"),
        ]
    };
    let mut last = usize::MAX;
    for cap in 0..40 {
        let n = coalesce_chunks_for_file(make(), cap).len();
        assert!(n <= last, "capacity {} gave {} chunks after {}", cap, n, last);
        last = n;
    }
    assert_eq!(last, 1);
}

#[test]
fn coalesce_preserves_text_when_joined() {
    let merged = coalesce_chunks_for_file(
        vec![draft("a", "A"), draft("bbbb", "B"), draft("c", "C"), draft("dd", "D")],
        7,
    );
    let joined: Vec<&str> = merged.iter().map(|c| c.content.as_str()).collect();
    assert_eq!(joined.join("\n\n"), "a\n\nbbbb\n\nc\n\ndd");
}

#[test]
fn merge_of_ranges_keeps_outer_ends() {
    assert_eq!(merge_section_paths("A .. B", "C .. D"), "A .. D");
    assert_eq!(merge_section_paths("A .. B", "X .. A"), "A");
    assert_eq!(merge_section_paths("A", "B .. C .. D"), "A .. C .. D");
}

#[test]
fn merge_law_on_values() {
    // Start of the merge is the start of the left; end is the end of the right.
    let m = merge_section_paths("Intro .. Setup", "Usage .. Faq");
    assert_eq!(section_path_bounds(&m), ("Intro", "Faq"));
}

#[test]
fn section_path_bounds_splits_at_first_separator() {
    assert_eq!(section_path_bounds("A > B"), ("A > B", "A > B"));
    assert_eq!(section_path_bounds("A .. B"), ("A", "B"));
    assert_eq!(section_path_bounds("A .. B .. C"), ("A", "B .. C"));
    assert_eq!(section_path_bounds(""), ("", ""));
}

#[test]
fn with_section_prefix_on_empty_parts() {
    assert_eq!(with_section_prefix("", ""), "Section: \n\n");
}

#[test]
fn merge_when_left_start_ends_with_open_separator() {
    // The joined path holds an earlier " .. ", so its start is not "A ..".
    let m = merge_section_paths("A ..", "B");
    assert_eq!(m, "A .. .. B");
    assert_eq!(section_path_bounds(&m), ("A", ".. B"));
}

#[test]
fn coalesced_neighbours_never_fit_together() {
    let capacity: usize = 12;
    let chunks = vec![
        draft("aaaa", "S1"),
        draft("bbbb", "S2"),
        draft("cccccccc", "S3"),
        draft("dd", "S4"),
        draft("eeeeeeeeeeeee", "S5"),
        draft("f", "S6"),
    ];
    let merged = coalesce_chunks_for_file(chunks, capacity);
    let contents: Vec<&str> = merged.iter().map(|c| c.content.as_str()).collect();
    assert_eq!(contents, vec!["aaaa\n\nbbbb", "cccccccc\n\ndd", "eeeeeeeeeeeee", "f"]);
    for pair in merged.windows(2) {
        let joined = pair[0].content.chars().count() + 2 + pair[1].content.chars().count();
        assert!(joined > capacity);
    }
}

#[test]
fn coalesced_chunk_joins_a_run_of_drafts() {
    let chunks = vec![
        draft("one", "A"),
        draft("two", "A > B .. A > C"),
        draft("three", "D"),
        draft("a much longer closing paragraph", "E"),
    ];
    let merged = coalesce_chunks_for_file(chunks, 20);
    assert_eq!(merged.len(), 2);
    assert_eq!(merged[0].content, "one\n\ntwo\n\nthree");
    assert_eq!(merged[0].metadata.section, "A .. D");
    assert_eq!(merged[0].metadata.source_file, "doc.md");
    assert_eq!(merged[0].metadata.original_file, "doc.adoc");
    assert_eq!(merged[1].content, "a much longer closing paragraph");
    assert_eq!(merged[1].metadata.section, "E");
}

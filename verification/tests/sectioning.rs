use docu_retriever::chunking::normalize_pieces;
use docu_retriever::index::{
    chunk_markdown_file, normalize_section_chunks, original_file_name, IndexOptions,
};
use docu_retriever::markdown::{extract_sections, sections_from_events, MarkdownEvent};

const SETUP_MD: &str =
    "# Database Setup\n\nPostgreSQL requires 16GB RAM.\n\n## Connection\n\nSet DATABASE_URL.\n";

fn strings(v: &[&str]) -> Vec<String> {
    v.iter().map(|s| s.to_string()).collect()
}

#[test]
fn extract_sections_follows_heading_path() {
    let sections = extract_sections(SETUP_MD);
    assert_eq!(sections.len(), 2);
    assert_eq!(sections[0].section_path, "Database Setup");
    assert_eq!(sections[0].content, "PostgreSQL requires 16GB RAM.");
    assert_eq!(sections[1].section_path, "Database Setup > Connection");
    assert_eq!(sections[1].content, "Set DATABASE_URL.");
}

#[test]
fn extract_sections_uses_document_before_first_heading() {
    let sections = extract_sections("Intro text.\n\n# Title\n\nBody.\n");
    assert_eq!(sections.len(), 2);
    assert_eq!(sections[0].section_path, "Document");
    assert_eq!(sections[0].content, "Intro text.");
    assert_eq!(sections[1].section_path, "Title");
}

#[test]
fn extract_sections_pops_deeper_headings() {
    let md = "# A\n\nx\n\n### C\n\ny\n\n## B\n\nz\n";
    let sections = extract_sections(md);
    let paths: Vec<&str> = sections.iter().map(|s| s.section_path.as_str()).collect();
    assert_eq!(paths, vec!["A", "A > C", "A > B"]);
}

#[test]
fn extract_sections_skips_blank_sections_and_empty_input() {
    assert!(extract_sections("").is_empty());
    assert!(extract_sections("# Only a heading\n").is_empty());
    let sections = extract_sections("# A\n\n# B\n\ntext\n");
    assert_eq!(sections.len(), 1);
    assert_eq!(sections[0].section_path, "B");
}

#[test]
fn extract_sections_keeps_inline_code_and_breaks() {
    let sections = extract_sections("# T\n\nuse `cargo`\nnow\n");
    assert_eq!(sections.len(), 1);
    assert_eq!(sections[0].content, "use cargo\nnow");
}

#[test]
fn sections_from_events_builds_paths() {
    let events = vec![
        MarkdownEvent::HeadingStart(1),
        MarkdownEvent::Text("  Guide ".to_string()),
        MarkdownEvent::HeadingEnd,
        MarkdownEvent::HeadingStart(2),
        MarkdownEvent::Text("Setup".to_string()),
        MarkdownEvent::SoftBreak,
        MarkdownEvent::Code("now".to_string()),
        MarkdownEvent::HeadingEnd,
        MarkdownEvent::Text(" Install ".to_string()),
        MarkdownEvent::HardBreak,
        MarkdownEvent::Other,
        MarkdownEvent::Text("it.".to_string()),
    ];
    let sections = sections_from_events(&events);
    assert_eq!(sections.len(), 1);
    assert_eq!(sections[0].section_path, "Guide > Setup now");
    assert_eq!(sections[0].content, "Install \nit.");
}

#[test]
fn sections_from_events_ignores_blank_heading() {
    let events = vec![
        MarkdownEvent::HeadingStart(1),
        MarkdownEvent::Text("   ".to_string()),
        MarkdownEvent::HeadingEnd,
        MarkdownEvent::Text("body".to_string()),
    ];
    let sections = sections_from_events(&events);
    assert_eq!(sections.len(), 1);
    assert_eq!(sections[0].section_path, "Document");
}

#[test]
fn normalize_pieces_merges_small_pieces() {
    let out = normalize_pieces(strings(&["  a ", "", "bb", "c"]), 2);
    assert_eq!(out, vec!["a\nbb\nc".to_string()]);
}

#[test]
fn normalize_pieces_without_minimum_only_trims() {
    let out = normalize_pieces(strings(&["  a ", " \n ", "bb", "c"]), 0);
    assert_eq!(out, strings(&["a", "bb", "c"]));
}

#[test]
fn normalize_pieces_all_small_become_one() {
    let out = normalize_pieces(strings(&["a", "b"]), 5);
    assert_eq!(out, vec!["a\nb".to_string()]);
}

#[test]
fn normalize_pieces_pending_goes_before_next_large() {
    let out = normalize_pieces(strings(&["x", "long piece", "tail piece"]), 3);
    assert_eq!(out, strings(&["x\nlong piece", "tail piece"]));
}

#[test]
fn normalize_section_chunks_keeps_short_text_whole() {
    let opts = IndexOptions { chunk_size: 1200, min_chunk_chars: 0, include_headings_in_content: true };
    let out = normalize_section_chunks("  Short paragraph.  ", &opts);
    assert_eq!(out, strings(&["Short paragraph."]));
}

#[test]
fn normalize_section_chunks_respects_capacity() {
    let opts = IndexOptions { chunk_size: 10, min_chunk_chars: 0, include_headings_in_content: true };
    let text = "alpha beta gamma delta epsilon zeta";
    let out = normalize_section_chunks(text, &opts);
    assert!(out.len() > 1);
    for piece in &out {
        assert!(piece.chars().count() <= 10, "piece too long: {:?}", piece);
        assert_eq!(piece.trim(), piece);
    }
}

#[test]
fn chunk_markdown_file_coalesces_sections_with_prefix() {
    let chunks = chunk_markdown_file("setup.md", SETUP_MD, &IndexOptions::default());
    assert_eq!(chunks.len(), 1);
    assert_eq!(
        chunks[0].content,
        "Section: Database Setup\n\nPostgreSQL requires 16GB RAM.\n\nSection: Database Setup > Connection\n\nSet DATABASE_URL."
    );
    assert_eq!(chunks[0].metadata.source_file, "setup.md");
    assert_eq!(chunks[0].metadata.original_file, "setup.adoc");
    assert_eq!(chunks[0].metadata.section, "Database Setup .. Database Setup > Connection");
}

#[test]
fn chunk_markdown_file_without_headings_has_no_prefix() {
    let opts = IndexOptions { chunk_size: 1200, min_chunk_chars: 0, include_headings_in_content: false };
    let chunks = chunk_markdown_file("setup.md", SETUP_MD, &opts);
    assert_eq!(chunks.len(), 1);
    assert!(!chunks[0].content.starts_with("Section: "));
    assert_eq!(chunks[0].content, "PostgreSQL requires 16GB RAM.\n\nSet DATABASE_URL.");
}

#[test]
fn chunk_markdown_file_small_capacity_keeps_sections_apart() {
    let opts = IndexOptions { chunk_size: 60, min_chunk_chars: 0, include_headings_in_content: true };
    let chunks = chunk_markdown_file("setup.md", SETUP_MD, &opts);
    assert_eq!(chunks.len(), 2);
    for c in &chunks {
        assert!(c.content.starts_with("Section: "));
    }
    assert_eq!(chunks[1].metadata.section, "Database Setup > Connection");
}

#[test]
fn chunks_open_with_the_first_section_of_their_range() {
    let md = "# A\n\none\n\n## B\n\ntwo\n\n# C\n\nthree\n";
    let opts = IndexOptions { chunk_size: 40, min_chunk_chars: 0, include_headings_in_content: true };
    let chunks = chunk_markdown_file("doc.md", md, &opts);
    assert!(!chunks.is_empty());
    for c in &chunks {
        let start = c.metadata.section.split(" .. ").next().unwrap();
        let line = format!("Section: {}\n\n", start);
        assert!(c.content.starts_with(&line), "{:?} does not open with {:?}", c.content, line);
    }
    assert_eq!(chunks[0].metadata.section, "A .. A > B");
}

#[test]
fn chunk_markdown_file_of_empty_file_is_empty() {
    assert!(chunk_markdown_file("empty.md", "", &IndexOptions::default()).is_empty());
}

#[test]
fn original_file_name_replaces_first_md_only() {
    assert_eq!(original_file_name("setup.md"), "setup.adoc");
    assert_eq!(original_file_name("dir.md/a.md"), "dir.adoc/a.md");
    assert_eq!(original_file_name("readme.txt"), "readme.txt");
}

#[test]
fn index_options_default_values() {
    let o = IndexOptions::default();
    assert_eq!(o.chunk_size, 1200);
    assert_eq!(o.min_chunk_chars, 0);
    assert!(o.include_headings_in_content);
    assert!(o.uses_defaults());
    let other = IndexOptions { chunk_size: 10, ..IndexOptions::default() };
    assert!(!other.uses_defaults());
}

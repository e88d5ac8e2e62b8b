use docu_retriever::cli::{check_output_format, embedding_config, is_json_format, provider_kind, EmbeddingBackendArg};
use docu_retriever::convert::{check_convert_input, check_tool, finish_conversion, is_asciidoc, is_asciidoc_extension, tool_failure, ToolProbe};
use docu_retriever::embeddings::{check_vectors_returned, embedding_order, probe_dimension, resolve_openai_key, EmbeddingProviderKind, OPENAI_EMBEDDING_DIMENSION};
use docu_retriever::error::{AppError, ErrorOutput};
use docu_retriever::index::{is_markdown_file, check_chunks_found, check_dimension, check_embedding_count, check_index_options, check_query, IndexOptions};
use docu_retriever::storage::{database_error, index_not_found, IndexStorage, RecordShape, TABLE_NAME, VECTOR_INDEX_MIN_RECORDS};

fn message(e: &AppError) -> String {
    e.message()
}

#[test]
fn error_codes_per_kind() {
    assert_eq!(AppError::index_not_found("x").code(), "INDEX_NOT_FOUND");
    assert_eq!(AppError::invalid_input("x").code(), "INVALID_INPUT");
    assert_eq!(AppError::embedding("x").code(), "EMBEDDING_ERROR");
    assert_eq!(AppError::storage("x").code(), "STORAGE_ERROR");
    assert_eq!(AppError::internal("x").code(), "INTERNAL_ERROR");
}

#[test]
fn error_output_from_error() {
    let out = ErrorOutput::from_app_error(&AppError::storage("disk full"));
    assert_eq!(out.status, "error");
    assert_eq!(out.error_code, "STORAGE_ERROR");
    assert_eq!(out.message, "disk full");
}

#[test]
fn index_not_found_message() {
    let e = index_not_found("./.doc_index");
    assert!(matches!(e, AppError::IndexNotFound(_)));
    assert_eq!(
        message(&e),
        "The index at ./.doc_index could not be found. Please run the 'index' command."
    );
}

#[test]
fn index_options_reject_zero_capacity() {
    let bad = IndexOptions { chunk_size: 0, min_chunk_chars: 0, include_headings_in_content: true };
    let e = check_index_options(&bad).unwrap_err();
    assert!(matches!(e, AppError::InvalidInput(_)));
    assert_eq!(message(&e), "chunk-size must be greater than zero");
    assert!(check_index_options(&IndexOptions::default()).is_ok());
}

#[test]
fn chunks_found_and_embedding_count() {
    assert_eq!(message(&check_chunks_found(0).unwrap_err()), "No Markdown content found to index (*.md)");
    assert!(check_chunks_found(3).is_ok());
    let e = check_embedding_count(12, 7).unwrap_err();
    assert!(matches!(e, AppError::Embedding(_)));
    assert_eq!(message(&e), "Embedding count mismatch: expected 12, got 7");
    assert!(check_embedding_count(5, 5).is_ok());
    let e = check_embedding_count(0, 1234567890).unwrap_err();
    assert_eq!(message(&e), "Embedding count mismatch: expected 0, got 1234567890");
}

#[test]
fn query_checks() {
    assert_eq!(message(&check_query("   \n", 3).unwrap_err()), "Query must not be empty");
    assert_eq!(message(&check_query("", 0).unwrap_err()), "Query must not be empty");
    assert_eq!(message(&check_query("database", 0).unwrap_err()), "top-k must be greater than zero");
    assert!(check_query("database", 1).is_ok());
}

#[test]
fn dimension_mismatch_is_embedding_error() {
    let e = check_dimension(4, 3).unwrap_err();
    assert!(matches!(e, AppError::Embedding(_)));
    assert_eq!(message(&e), "Embedding dimension mismatch: index=4, provider=3");
    assert!(check_dimension(384, 384).is_ok());
}

#[test]
fn persist_checks() {
    let store = IndexStorage;
    let recs = vec![
        RecordShape { chunk_id: "a".to_string(), embedding_len: 4 },
        RecordShape { chunk_id: "b".to_string(), embedding_len: 3 },
        RecordShape { chunk_id: "c".to_string(), embedding_len: 2 },
    ];
    assert_eq!(message(&store.check_persist(0, &recs).unwrap_err()), "Embedding dimension must be greater than zero");
    assert_eq!(message(&store.check_persist(4, &Vec::new()).unwrap_err()), "Cannot persist empty record set");
    let e = store.check_persist(4, &recs).unwrap_err();
    assert!(matches!(e, AppError::Storage(_)));
    assert_eq!(message(&e), "Invalid embedding length for chunk 'b': expected 4, got 3");
    let ok = vec![RecordShape { chunk_id: "a".to_string(), embedding_len: 4 }];
    assert!(store.check_persist(4, &ok).is_ok());
}

#[test]
fn vector_index_threshold_and_search_checks() {
    let store = IndexStorage;
    assert_eq!(VECTOR_INDEX_MIN_RECORDS, 256);
    assert!(!store.builds_vector_index(255));
    assert!(store.builds_vector_index(256));
    assert_eq!(message(&store.check_search(0, 3).unwrap_err()), "Query embedding must not be empty");
    assert_eq!(message(&store.check_search(4, 0).unwrap_err()), "top-k must be greater than zero");
    assert!(store.check_search(4, 3).is_ok());
    assert_eq!(TABLE_NAME, "chunks");
    assert_eq!(message(&database_error("boom")), "LanceDB error: boom");
}

#[test]
fn asciidoc_detection() {
    assert!(is_asciidoc("docs/a.adoc"));
    assert!(is_asciidoc("b.asciidoc"));
    assert!(!is_asciidoc("c.md"));
    assert!(!is_asciidoc("adoc"));
    assert!(!is_asciidoc(".adoc"));
    assert!(!is_asciidoc("dir/.asciidoc"));
    assert!(!is_asciidoc("x.ADOC"));
    assert!(is_asciidoc("a/b.adoc"));
    assert!(is_asciidoc("..adoc"));
    assert!(is_asciidoc_extension(Some("adoc")));
    assert!(!is_asciidoc_extension(Some("ADOC")));
    assert!(!is_asciidoc_extension(None));
}

#[test]
fn convert_checks() {
    assert_eq!(message(&check_convert_input(false, false, "in").unwrap_err()), "Input path does not exist: in");
    assert_eq!(message(&check_convert_input(true, false, "in").unwrap_err()), "Input path must be a directory: in");
    assert!(check_convert_input(true, true, "in").is_ok());
    assert!(check_tool("pandoc", &ToolProbe::Ran(true)).is_ok());
    assert_eq!(
        message(&check_tool("pandoc", &ToolProbe::Ran(false)).unwrap_err()),
        "Required tool 'pandoc' is installed but not executable"
    );
    assert_eq!(
        message(&check_tool("pandoc", &ToolProbe::NotStarted("not found".to_string())).unwrap_err()),
        "Required tool 'pandoc' is not available in PATH: not found"
    );
    assert_eq!(
        message(&tool_failure("asciidoctor", "a.adoc", "  bad include \n")),
        "asciidoctor failed for 'a.adoc': bad include"
    );
    assert_eq!(
        message(&finish_conversion(0, "out".to_string()).unwrap_err()),
        "No AsciiDoc files found (*.adoc, *.asciidoc)"
    );
    let s = finish_conversion(3, "out".to_string()).unwrap();
    assert_eq!(s.converted_files, 3);
    assert_eq!(s.output_dir, "out");
}

#[test]
fn cli_format_and_backend() {
    assert!(is_json_format("json"));
    assert!(is_json_format("JSON"));
    assert!(is_json_format("Json"));
    assert!(!is_json_format("yaml"));
    assert!(!is_json_format("json "));
    assert_eq!(message(&check_output_format("xml").unwrap_err()), "Only '--format json' is currently supported");
    assert!(matches!(provider_kind(&EmbeddingBackendArg::Openai), EmbeddingProviderKind::OpenAi));
    let c = embedding_config(&EmbeddingBackendArg::Fastembed, None, "m".to_string());
    assert!(matches!(c.provider, EmbeddingProviderKind::FastEmbed));
    assert_eq!(c.openai_model, "m");
}

#[test]
fn openai_key_and_dimensions() {
    assert_eq!(resolve_openai_key(Some("k1".to_string()), Some("k2".to_string())).unwrap(), "k1");
    assert_eq!(resolve_openai_key(None, Some("k2".to_string())).unwrap(), "k2");
    let e = resolve_openai_key(None, None).unwrap_err();
    assert_eq!(message(&e), "Missing OpenAI API key. Provide '--openai-api-key' or set OPENAI_API_KEY.");
    assert_eq!(OPENAI_EMBEDDING_DIMENSION, 1536);
    assert_eq!(probe_dimension(Some(384)).unwrap(), 384);
    assert_eq!(message(&probe_dimension(None).unwrap_err()), "Fastembed returned no vectors during initialization");
    assert_eq!(message(&check_vectors_returned(0).unwrap_err()), "Embedding backend returned no vectors");
    assert!(check_vectors_returned(1).is_ok());
}

#[test]
fn embedding_order_is_stable_sort_by_index() {
    assert_eq!(embedding_order(&vec![2, 0, 1]), vec![1, 2, 0]);
    assert_eq!(embedding_order(&vec![1, 0, 1, 0]), vec![1, 3, 0, 2]);
    assert!(embedding_order(&Vec::new()).is_empty());
}

#[test]
fn markdown_file_detection() {
    assert!(is_markdown_file("docs/setup.md"));
    assert!(is_markdown_file("./a.b.md"));
    assert!(!is_markdown_file("docs/setup.adoc"));
    assert!(!is_markdown_file("md"));
    assert!(!is_markdown_file(".md"));
    assert!(!is_markdown_file("dir/.md"));
    assert!(!is_markdown_file("a.md/x"));
    assert!(!is_markdown_file("notes.mdx"));
}

//! Verified core of a local documentation retriever: Markdown sectioning,
//! chunk normalisation and coalescing, section-path ranges, and the
//! validation rules and error model around indexing and querying.

pub mod text;
pub mod sections;
pub mod chunking;
pub mod markdown;
pub mod error;
pub mod index;
pub mod storage;
pub mod convert;
pub mod embeddings;
pub mod cli;

pub use chunking::{coalesce_chunks_for_file, normalize_pieces, ChunkDraft, ChunkMetadata};
pub use cli::{check_output_format, is_json_format, Cli, Commands, EmbeddingBackendArg};
pub use convert::{is_asciidoc, ConvertSummary};
pub use embeddings::{EmbeddingConfig, EmbeddingProviderKind};
pub use error::{AppError, ErrorOutput};
pub use index::{chunk_markdown_file, IndexOptions, IndexSummary};
pub use markdown::{extract_sections, Section};
pub use sections::{merge_section_paths, section_path_bounds, with_section_prefix};
pub use storage::{index_not_found, IndexStorage};

//! The command line: its arguments as plain values, and the decisions the
//! commands make before any work is done.

use vstd::prelude::*;
use crate::embeddings::{EmbeddingConfig, EmbeddingProviderKind};
use crate::error::{AppError, ErrorView, fails_with};
use crate::text::chars_of;

verus! {

/// The embedding backend chosen on the command line.
#[derive(Debug)]
pub enum EmbeddingBackendArg {
    Fastembed,
    Openai,
}

/// The subcommands.
#[derive(Debug)]
pub enum Commands {
    /// Convert AsciiDoc files under `input` to Markdown under `output`.
    Convert { input: String, output: String },
    /// Index the Markdown files under `input` into the store at `db_path`.
    Index {
        input: String,
        db_path: String,
        chunk_size: usize,
        min_chunk_chars: usize,
        include_headings_in_content: bool,
    },
    /// Answer `query` with the `top_k` best chunks of the store at `db_path`.
    Query { query: String, db_path: String, top_k: usize, format: String },
}

/// The parsed command line.
#[derive(Debug)]
pub struct Cli {
    pub backend: EmbeddingBackendArg,
    pub openai_api_key: Option<String>,
    pub openai_model: String,
    pub command: Commands,
}

/// The backend kind for a command-line choice.
pub fn provider_kind(backend: &EmbeddingBackendArg) -> (k: EmbeddingProviderKind)
    ensures
        backend is Fastembed ==> k is FastEmbed,
        backend is Openai ==> k is OpenAi,
{
    match backend {
        EmbeddingBackendArg::Fastembed => EmbeddingProviderKind::FastEmbed,
        EmbeddingBackendArg::Openai => EmbeddingProviderKind::OpenAi,
    }
}

/// The embedding configuration for the command-line options.
pub fn embedding_config(backend: &EmbeddingBackendArg, openai_api_key: Option<String>, openai_model: String) -> (c: EmbeddingConfig)
    ensures
        backend is Fastembed ==> c.provider is FastEmbed,
        backend is Openai ==> c.provider is OpenAi,
        c.openai_api_key == openai_api_key,
        c.openai_model == openai_model,
{
    EmbeddingConfig { provider: provider_kind(backend), openai_api_key, openai_model }
}

/// `c` is the letter `lower` in either case.
pub open spec fn is_letter(c: char, lower: char, upper: char) -> bool {
    c == lower || c == upper
}

/// The output format is `json` in any letter case.
pub open spec fn is_json(f: Seq<char>) -> bool {
    &&& f.len() == 4
    &&& is_letter(f[0], 'j', 'J')
    &&& is_letter(f[1], 's', 'S')
    &&& is_letter(f[2], 'o', 'O')
    &&& is_letter(f[3], 'n', 'N')
}

/// Whether the requested output format is JSON, compared without regard to case.
pub fn is_json_format(format: &str) -> (b: bool)
    ensures
        b == is_json(format@),
{
    let v = chars_of(format);
    v.len() == 4 && (v[0] == 'j' || v[0] == 'J') && (v[1] == 's' || v[1] == 'S') && (v[2] == 'o'
        || v[2] == 'O') && (v[3] == 'n' || v[3] == 'N')
}

/// Rejects any output format but JSON.
pub fn check_output_format(format: &str) -> (r: Result<(), AppError>)
    ensures
        is_json(format@) ==> r is Ok,
        !is_json(format@) ==> fails_with(r, ErrorView::InvalidInput(
            "Only '--format json' is currently supported"@,
        )),
{
    if is_json_format(format) {
        Ok(())
    } else {
        Err(AppError::invalid_input("Only '--format json' is currently supported"))
    }
}

} // verus!

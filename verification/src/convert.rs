//! Rules of the AsciiDoc-to-Markdown conversion: which files are converted,
//! the checks on the input and on the external tools, and the summary.

use vstd::prelude::*;
use crate::error::{AppError, ErrorView, fails_with};
use crate::text::{occurs_at, push_str, str_equal, string_from_chars, trim_str, trimmed};

verus! {

/// What a conversion run did.
#[derive(Debug)]
pub struct ConvertSummary {
    pub converted_files: usize,
    pub output_dir: String,
}

/// The index of the last `c` in `s`, or -1 when `c` does not occur.
pub open spec fn last_index_of(s: Seq<char>, c: char) -> int
    decreases s.len(),
{
    if s.len() == 0 {
        -1
    } else if s.last() == c {
        s.len() - 1
    } else {
        last_index_of(s.drop_last(), c)
    }
}

/// The last `/`-separated component of a path.
pub open spec fn file_name(path: Seq<char>) -> Seq<char> {
    path.subrange(last_index_of(path, '/') + 1, path.len() as int)
}

/// A path that every platform reads the same way and that ends in a file
/// name: it holds no `\\` and no `:`, does not start with `//`, and its last
/// `/`-separated component is neither empty, `.` nor `..`.
pub open spec fn plain_file_path(path: Seq<char>) -> bool {
    &&& forall|i: int| 0 <= i < path.len() ==> #[trigger] path[i] != '\\' && path[i] != ':'
    &&& !(path.len() >= 2 && path[0] == '/' && path[1] == '/')
    &&& file_name(path).len() > 0
    &&& file_name(path) != seq!['.']
    &&& file_name(path) != seq!['.', '.']
}

/// The extension of a file name as `std::path::Path::extension` documents
/// it: none when the name holds no `.`, or only a leading one; otherwise the
/// text after the last `.`.
pub open spec fn name_extension(name: Seq<char>) -> Option<Seq<char>> {
    let d = last_index_of(name, '.');
    if d <= 0 {
        None
    } else {
        Some(name.subrange(d + 1, name.len() as int))
    }
}

/// The extension of the file a plain path names.
pub open spec fn file_extension(path: Seq<char>) -> Option<Seq<char>> {
    name_extension(file_name(path))
}

/// The characters of an optional string.
pub open spec fn opt_chars(s: Option<String>) -> Option<Seq<char>> {
    match s {
        Some(t) => Some(t@),
        None => None,
    }
}

/// `std::path::Path::extension` of a path, as UTF-8. The contract claims
/// that an extension, when there is one, follows a dot in the path, and that
/// for a plain file path (see `plain_file_path`) it is the one that
/// `file_extension` gives. It does not state the extension of other paths,
/// which depends on the platform's separators and prefixes.
#[verifier::external_body]
pub(crate) fn path_extension(path: &str) -> (ext: Option<String>)
    ensures
        ext matches Some(e) ==> exists|i: int| occurs_at(path@, seq!['.'] + e@, i),
        plain_file_path(path@) ==> opt_chars(ext) == file_extension(path@),
{
    std::path::Path::new(path).extension().and_then(|e| e.to_str()).map(|e| e.to_string())
}

/// Whether a file extension marks an AsciiDoc file: `adoc` or `asciidoc`.
pub fn is_asciidoc_extension(ext: Option<&str>) -> (b: bool)
    ensures
        b == (ext matches Some(e) && (e@ == "adoc"@ || e@ == "asciidoc"@)),
{
    match ext {
        Some(e) => str_equal(e, "adoc") || str_equal(e, "asciidoc"),
        None => false,
    }
}

/// Whether a path names an AsciiDoc file, by its extension.
pub fn is_asciidoc(path: &str) -> (b: bool)
    ensures
        b ==> (exists|i: int| occurs_at(path@, seq!['.'] + "adoc"@, i)) || (exists|i: int|
            occurs_at(path@, seq!['.'] + "asciidoc"@, i)),
        plain_file_path(path@) ==> (b == (file_extension(path@) == Some("adoc"@)
            || file_extension(path@) == Some("asciidoc"@))),
{
    match path_extension(path) {
        Some(e) => is_asciidoc_extension(Some(e.as_str())),
        None => false,
    }
}

/// Checks the conversion input: it must exist, then be a directory.
pub fn check_convert_input(exists: bool, is_dir: bool, input_display: &str) -> (r: Result<(), AppError>)
    ensures
        exists && is_dir ==> r is Ok,
        !exists ==> fails_with(r, ErrorView::InvalidInput("Input path does not exist: "@ + input_display@)),
        exists && !is_dir ==> fails_with(r, ErrorView::InvalidInput(
            "Input path must be a directory: "@ + input_display@,
        )),
{
    if !exists {
        let mut m: Vec<char> = Vec::new();
        push_str(&mut m, "Input path does not exist: ");
        push_str(&mut m, input_display);
        let s = string_from_chars(m.as_slice());
        return Err(AppError::invalid_input(s.as_str()));
    }
    if !is_dir {
        let mut m: Vec<char> = Vec::new();
        push_str(&mut m, "Input path must be a directory: ");
        push_str(&mut m, input_display);
        let s = string_from_chars(m.as_slice());
        return Err(AppError::invalid_input(s.as_str()));
    }
    Ok(())
}

/// What happened when a required tool was run with `--version`.
#[derive(Debug)]
pub enum ToolProbe {
    /// The tool ran; whether it exited successfully.
    Ran(bool),
    /// The tool could not be started; the reason.
    NotStarted(String),
}

/// Checks that a required tool is available and runs.
pub fn check_tool(tool: &str, probe: &ToolProbe) -> (r: Result<(), AppError>)
    ensures
        probe matches ToolProbe::Ran(true) ==> r is Ok,
        probe matches ToolProbe::Ran(false) ==> fails_with(r, ErrorView::InvalidInput(
            "Required tool '"@ + tool@ + "' is installed but not executable"@,
        )),
        probe matches ToolProbe::NotStarted(reason) ==> fails_with(r, ErrorView::InvalidInput(
            "Required tool '"@ + tool@ + "' is not available in PATH: "@ + reason@,
        )),
{
    match probe {
        ToolProbe::Ran(ok) => {
            if *ok {
                Ok(())
            } else {
                let mut m: Vec<char> = Vec::new();
                push_str(&mut m, "Required tool '");
                push_str(&mut m, tool);
                push_str(&mut m, "' is installed but not executable");
                let s = string_from_chars(m.as_slice());
                Err(AppError::invalid_input(s.as_str()))
            }
        },
        ToolProbe::NotStarted(reason) => {
            let mut m: Vec<char> = Vec::new();
            push_str(&mut m, "Required tool '");
            push_str(&mut m, tool);
            push_str(&mut m, "' is not available in PATH: ");
            push_str(&mut m, reason.as_str());
            let s = string_from_chars(m.as_slice());
            Err(AppError::invalid_input(s.as_str()))
        },
    }
}

/// The error for a tool that failed on one file, with its trimmed error output.
pub fn tool_failure(tool: &str, file_display: &str, stderr: &str) -> (e: AppError)
    ensures
        e@ == ErrorView::InvalidInput(
            tool@ + " failed for '"@ + file_display@ + "': "@ + trimmed(stderr@),
        ),
{
    let mut m: Vec<char> = Vec::new();
    push_str(&mut m, tool);
    push_str(&mut m, " failed for '");
    push_str(&mut m, file_display);
    push_str(&mut m, "': ");
    let t = trim_str(stderr);
    push_str(&mut m, t.as_str());
    let s = string_from_chars(m.as_slice());
    AppError::invalid_input(s.as_str())
}

/// The summary of a conversion run; a run that converted nothing fails.
pub fn finish_conversion(converted_files: usize, output_dir: String) -> (r: Result<ConvertSummary, AppError>)
    ensures
        converted_files > 0 ==> (r matches Ok(s) && s.converted_files == converted_files
            && s.output_dir@ == output_dir@),
        converted_files == 0 ==> fails_with(r, ErrorView::InvalidInput(
            "No AsciiDoc files found (*.adoc, *.asciidoc)"@,
        )),
{
    if converted_files == 0 {
        Err(AppError::invalid_input("No AsciiDoc files found (*.adoc, *.asciidoc)"))
    } else {
        Ok(ConvertSummary { converted_files, output_dir })
    }
}

} // verus!

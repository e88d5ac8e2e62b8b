//! The rules of the vector store: what may be persisted, when a vector
//! index is built, what a search needs, and how a missing index is reported.

use vstd::prelude::*;
use crate::error::{AppError, ErrorView, fails_with};
use crate::text::{decimal, push_decimal, push_str, string_from_chars};

verus! {

/// Name of the table that holds the chunks.
pub const TABLE_NAME: &'static str = "chunks";

/// Fewest records for which an approximate vector index is built.
pub const VECTOR_INDEX_MIN_RECORDS: usize = 256;

/// What the store checks of one record before persisting it: its id and
/// the length of its embedding.
#[derive(Debug)]
pub struct RecordShape {
    pub chunk_id: String,
    pub embedding_len: usize,
}

/// The message for a record whose embedding has the wrong length.
pub open spec fn bad_length_message(chunk_id: Seq<char>, expected: nat, got: nat) -> Seq<char> {
    "Invalid embedding length for chunk '"@ + chunk_id + "': expected "@ + decimal(expected)
        + ", got "@ + decimal(got)
}

/// The local vector store.
#[derive(Debug)]
pub struct IndexStorage;

impl IndexStorage {
    /// Checks records before they are persisted: the dimension must be
    /// positive, there must be records, and every embedding must have the
    /// dimension's length; the first offending record is reported.
    pub fn check_persist(&self, dimension: usize, records: &Vec<RecordShape>) -> (r: Result<(), AppError>)
        ensures
            dimension == 0 ==> fails_with(r, ErrorView::Storage(
                "Embedding dimension must be greater than zero"@,
            )),
            dimension > 0 && records@.len() == 0 ==> fails_with(r, ErrorView::Storage(
                "Cannot persist empty record set"@,
            )),
            dimension > 0 && records@.len() > 0 ==> match r {
                Ok(_) => forall|i: int| 0 <= i < records@.len() ==> #[trigger] records@[i].embedding_len == dimension,
                Err(e) => exists|k: int| {
                    &&& 0 <= k < records@.len()
                    &&& #[trigger] records@[k].embedding_len != dimension
                    &&& forall|j: int| 0 <= j < k ==> #[trigger] records@[j].embedding_len == dimension
                    &&& e@ == ErrorView::Storage(bad_length_message(
                        records@[k].chunk_id@,
                        dimension as nat,
                        records@[k].embedding_len as nat,
                    ))
                },
            },
    {
        if dimension == 0 {
            return Err(AppError::storage("Embedding dimension must be greater than zero"));
        }
        if records.len() == 0 {
            return Err(AppError::storage("Cannot persist empty record set"));
        }
        let n = records.len();
        let mut i: usize = 0;
        while i < n
            invariant
                i <= n,
                n == records@.len(),
                dimension > 0,
                forall|j: int| 0 <= j < i ==> #[trigger] records@[j].embedding_len == dimension,
            decreases n - i,
        {
            let rec = &records[i];
            if rec.embedding_len != dimension {
                let mut m: Vec<char> = Vec::new();
                push_str(&mut m, "Invalid embedding length for chunk '");
                push_str(&mut m, rec.chunk_id.as_str());
                push_str(&mut m, "': expected ");
                push_decimal(&mut m, dimension);
                push_str(&mut m, ", got ");
                push_decimal(&mut m, rec.embedding_len);
                let s = string_from_chars(m.as_slice());
                let e = AppError::storage(s.as_str());
                proof {
                    assert(m@ =~= bad_length_message(rec.chunk_id@, dimension as nat, rec.embedding_len as nat));
                    assert(records@[i as int].embedding_len != dimension);
                }
                return Err(e);
            }
            i = i + 1;
        }
        Ok(())
    }

    /// Whether a run of `record_count` records gets an approximate vector index.
    pub fn builds_vector_index(&self, record_count: usize) -> (b: bool)
        ensures
            b == (record_count >= VECTOR_INDEX_MIN_RECORDS),
    {
        record_count >= VECTOR_INDEX_MIN_RECORDS
    }

    /// Checks a search request: a non-empty query embedding, then a
    /// positive result count.
    pub fn check_search(&self, embedding_len: usize, top_k: usize) -> (r: Result<(), AppError>)
        ensures
            embedding_len > 0 && top_k > 0 ==> r is Ok,
            embedding_len == 0 ==> fails_with(r, ErrorView::InvalidInput(
                "Query embedding must not be empty"@,
            )),
            embedding_len > 0 && top_k == 0 ==> fails_with(r, ErrorView::InvalidInput(
                "top-k must be greater than zero"@,
            )),
    {
        if embedding_len == 0 {
            return Err(AppError::invalid_input("Query embedding must not be empty"));
        }
        if top_k == 0 {
            return Err(AppError::invalid_input("top-k must be greater than zero"));
        }
        Ok(())
    }
}

/// The message for a missing index at `db_path`.
pub open spec fn index_not_found_message(db_path: Seq<char>) -> Seq<char> {
    "The index at "@ + db_path + " could not be found. Please run the 'index' command."@
}

/// The error for a missing index at `db_path`.
pub fn index_not_found(db_path: &str) -> (e: AppError)
    ensures
        e@ == ErrorView::IndexNotFound(index_not_found_message(db_path@)),
{
    let mut m: Vec<char> = Vec::new();
    push_str(&mut m, "The index at ");
    push_str(&mut m, db_path);
    push_str(&mut m, " could not be found. Please run the 'index' command.");
    let s = string_from_chars(m.as_slice());
    proof {
        assert(m@ =~= index_not_found_message(db_path@));
    }
    AppError::index_not_found(s.as_str())
}

/// The storage error for a failure reported by the database.
pub fn database_error(detail: &str) -> (e: AppError)
    ensures
        e@ == ErrorView::Storage("LanceDB error: "@ + detail@),
{
    let mut m: Vec<char> = Vec::new();
    push_str(&mut m, "LanceDB error: ");
    push_str(&mut m, detail);
    let s = string_from_chars(m.as_slice());
    AppError::storage(s.as_str())
}

} // verus!

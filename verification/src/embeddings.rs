//! Embedding backends: their configuration, the OpenAI key lookup, the
//! dimension probe, and the order in which returned vectors are used.

use vstd::prelude::*;
use crate::error::{AppError, ErrorView, fails_with};

verus! {

/// Which embedding backend to use.
#[derive(Debug)]
pub enum EmbeddingProviderKind {
    FastEmbed,
    OpenAi,
}

/// Configuration of the embedding backend.
#[derive(Debug)]
pub struct EmbeddingConfig {
    pub provider: EmbeddingProviderKind,
    pub openai_api_key: Option<String>,
    pub openai_model: String,
}

/// Vector length of the OpenAI model used by default (`text-embedding-3-small`).
pub const OPENAI_EMBEDDING_DIMENSION: usize = 1536;

/// The OpenAI key: the one given, else the one from the environment.
pub fn resolve_openai_key(api_key: Option<String>, env_key: Option<String>) -> (r: Result<String, AppError>)
    ensures
        api_key matches Some(k) ==> (r matches Ok(x) && x@ == k@),
        api_key is None ==> (env_key matches Some(k) ==> (r matches Ok(x) && x@ == k@)),
        api_key is None && env_key is None ==> fails_with(r, ErrorView::InvalidInput(
            "Missing OpenAI API key. Provide '--openai-api-key' or set OPENAI_API_KEY."@,
        )),
{
    match api_key {
        Some(k) => Ok(k),
        None => match env_key {
            Some(k) => Ok(k),
            None => Err(AppError::invalid_input(
                "Missing OpenAI API key. Provide '--openai-api-key' or set OPENAI_API_KEY.",
            )),
        },
    }
}

/// The dimension of a local model, from the length of the vector it gave
/// for a probe text; no vector is an error.
pub fn probe_dimension(first_vector_len: Option<usize>) -> (r: Result<usize, AppError>)
    ensures
        first_vector_len matches Some(n) ==> r == Ok::<usize, AppError>(n),
        first_vector_len is None ==> fails_with(r, ErrorView::Embedding(
            "Fastembed returned no vectors during initialization"@,
        )),
{
    match first_vector_len {
        Some(n) => Ok(n),
        None => Err(AppError::embedding("Fastembed returned no vectors during initialization")),
    }
}

/// Rejects an embedding call that returned no vector for the query.
pub fn check_vectors_returned(count: usize) -> (r: Result<(), AppError>)
    ensures
        count > 0 ==> r is Ok,
        count == 0 ==> fails_with(r, ErrorView::Embedding("Embedding backend returned no vectors"@)),
{
    if count == 0 {
        Err(AppError::embedding("Embedding backend returned no vectors"))
    } else {
        Ok(())
    }
}

/// `p` lists each of the positions `0..n` exactly once.
pub open spec fn is_permutation(p: Seq<usize>, n: nat) -> bool {
    &&& p.len() == n
    &&& forall|i: int| 0 <= i < p.len() ==> #[trigger] p[i] < n
    &&& forall|i: int, j: int| 0 <= i < j < p.len() ==> p[i] != p[j]
}

/// The positions in `p` come in order of their keys, and positions with
/// equal keys keep their relative order.
pub open spec fn stably_sorted(p: Seq<usize>, keys: Seq<u32>) -> bool {
    forall|i: int, j: int|
        0 <= i < j < p.len() ==> keys[p[i] as int] < keys[p[j] as int] || (keys[p[i] as int]
            == keys[p[j] as int] && p[i] < p[j])
}

/// The order in which to take items that carry the given indices: sorted
/// by index, ties kept in arrival order (a stable sort by key).
pub fn embedding_order(indices: &Vec<u32>) -> (order: Vec<usize>)
    ensures
        is_permutation(order@, indices@.len()),
        stably_sorted(order@, indices@),
{
    let n = indices.len();
    let mut order: Vec<usize> = Vec::new();
    let mut j: usize = 0;
    while j < n
        invariant
            j <= n,
            n == indices@.len(),
            is_permutation(order@, j as nat),
            stably_sorted(order@, indices@),
        decreases n - j,
    {
        let key = indices[j];
        let m = order.len();
        let mut k: usize = 0;
        while k < m && indices[order[k]] <= key
            invariant
                k <= m,
                m == order@.len(),
                n == indices@.len(),
                is_permutation(order@, j as nat),
                j < n,
                key == indices@[j as int],
                forall|t: int| 0 <= t < k ==> indices@[#[trigger] order@[t] as int] <= key,
            decreases m - k,
        {
            k = k + 1;
        }
        let ghost old_order = order@;
        order.insert(k, j);
        proof {
            assert(order@ == old_order.insert(k as int, j));
            assert forall|t: int| 0 <= t < order@.len() implies #[trigger] order@[t] < j + 1 by {
                if t < k {
                    assert(order@[t] == old_order[t]);
                } else if t > k {
                    assert(order@[t] == old_order[t - 1]);
                }
            }
            assert forall|a: int, b: int| 0 <= a < b < order@.len() implies order@[a] != order@[b] by {
                if a < k {
                    assert(order@[a] == old_order[a]);
                } else if a > k {
                    assert(order@[a] == old_order[a - 1]);
                }
                if b < k {
                    assert(order@[b] == old_order[b]);
                } else if b > k {
                    assert(order@[b] == old_order[b - 1]);
                }
            }
            assert forall|a: int, b: int| 0 <= a < b < order@.len() implies indices@[order@[a] as int]
                < indices@[order@[b] as int] || (indices@[order@[a] as int] == indices@[order@[b] as int]
                && order@[a] < order@[b]) by {
                if a < k {
                    assert(order@[a] == old_order[a]);
                } else if a > k {
                    assert(order@[a] == old_order[a - 1]);
                }
                if b < k {
                    assert(order@[b] == old_order[b]);
                } else if b > k {
                    assert(order@[b] == old_order[b - 1]);
                }
                if k < m && b > k {
                    // The element first past `k` has a larger key.
                    assert(indices@[old_order[k as int] as int] > key);
                }
            }
        }
        j = j + 1;
    }
    order
}

} // verus!

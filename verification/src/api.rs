use vstd::prelude::*;

verus! {

/// A request to delete every chunk of one document in one namespace.
pub struct DeleteRequest {
    pub doc_id: String,
    pub namespace: String,
}

/// Marker for the served application.
#[derive(Clone, Default)]
pub struct App;

/// Default number of results a search request asks for when the caller
/// does not say otherwise.
pub fn default_k() -> (k: u32)
    ensures
        k == 10u32,
{
    10
}

/// Pick the embedding a search query carries, in the documented priority
/// order: the query's own metadata embedding wins over a top-level
/// embedding, which wins over the legacy metadata location. `None` means
/// the caller must generate an embedding or reject the request.
pub fn resolve_query_embedding(
    query_meta: Option<serde_json::Value>,
    top_level: Option<serde_json::Value>,
    legacy_meta: Option<serde_json::Value>,
) -> (r: Option<serde_json::Value>)
    ensures
        query_meta.is_some() ==> r == query_meta,
        query_meta.is_none() && top_level.is_some() ==> r == top_level,
        query_meta.is_none() && top_level.is_none() ==> r == legacy_meta,
{
    match query_meta {
        Some(v) => Some(v),
        None => match top_level {
            Some(v) => Some(v),
            None => legacy_meta,
        },
    }
}

}

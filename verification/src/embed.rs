use vstd::prelude::*;

verus! {

/// Configuration for the embedding-provider client: where to reach it,
/// which model to ask for, and the vector width its embeddings are
/// declared to have, which callers check against the store's latched
/// dimensionality before trusting generated vectors.
pub struct OllamaConfig {
    pub base_url: String,
    pub model: String,
    pub dim: usize,
}

impl OllamaConfig {
    /// The declared width of the embeddings this configuration asks for.
    pub fn dim(&self) -> (d: usize)
        ensures
            d == self.dim,
    {
        self.dim
    }
}

}

//! Embedding providers: what the engine asks of a model, and the
//! configuration of the deterministic one the library ships.
use vstd::prelude::*;

verus! {

/// Default embedding dimension for the deterministic mock provider.
pub const DEFAULT_EMBEDDING_DIM: usize = 128;

/// Abstraction over embedding providers.
pub trait EmbeddingProvider {
    /// Whether `v` is an embedding of `text` by this provider. An
    /// implementation states what its vectors are by defining this; one
    /// that does not admits any vector.
    open spec fn embeds_text(&self, text: Seq<char>, v: Seq<u64>) -> bool {
        true
    }

    /// Whether this provider states its model and dimension through
    /// `model_spec` and `dim_spec`. A verified implementation defines this
    /// as true together with them; by default, as for implementations that
    /// Verus does not check, nothing is stated of either.
    open spec fn obeys_provider_spec(&self) -> bool {
        false
    }

    /// The identifier of the model behind this provider, where it states one.
    open spec fn model_spec(&self) -> Seq<char> {
        Seq::empty()
    }

    /// The dimension of the vectors this provider gives, where it states one.
    open spec fn dim_spec(&self) -> nat {
        0
    }

    /// Embed text into a vector of the provider's dimension, given as the
    /// bit patterns of its `f64` values.
    fn embed(&self, text: &str) -> (r: Vec<u64>)
        ensures
            self.embeds_text(text@, r@),
            self.obeys_provider_spec() ==> r@.len() == self.dim_spec(),
    ;

    /// Identifier of the embedding model backing this provider.
    fn model_id(&self) -> (r: &str)
        ensures
            self.obeys_provider_spec() ==> r@ == self.model_spec(),
    ;

    /// Dimension of produced vectors.
    fn dimension(&self) -> (n: usize)
        ensures
            self.obeys_provider_spec() ==> n == self.dim_spec(),
    ;
}

/// The configuration of the deterministic, dependency-free provider based
/// on feature hashing: the model it names and the dimension of its vectors.
#[derive(Debug)]
pub struct MockEmbeddingProvider {
    model_id: String,
    dimension: usize,
}

impl MockEmbeddingProvider {
    pub fn new(model_id: &str, dimension: usize) -> (p: MockEmbeddingProvider)
        requires
            dimension > 0,
        ensures
            p.model_name() == model_id@,
            p.dim() == dimension,
    {
        MockEmbeddingProvider { model_id: model_id.to_owned(), dimension }
    }

    /// The model it names.
    pub closed spec fn model_name(&self) -> Seq<char> {
        self.model_id@
    }

    /// The dimension of its vectors.
    pub closed spec fn dim(&self) -> nat {
        self.dimension as nat
    }

    pub fn model_id(&self) -> (r: &str)
        ensures
            r@ == self.model_name(),
    {
        self.model_id.as_str()
    }

    pub fn dimension(&self) -> (n: usize)
        ensures
            n == self.dim(),
    {
        self.dimension
    }
}

/// The default provider: model "model-v1" with the default dimension. Each
/// call gives a value of its own, equal to every other: the library holds
/// no static items, and the provider is only this configuration.
pub fn default_embedding_provider() -> (p: MockEmbeddingProvider)
    ensures
        p.model_name() == "model-v1"@,
        p.dim() == DEFAULT_EMBEDDING_DIM,
{
    MockEmbeddingProvider::new("model-v1", DEFAULT_EMBEDDING_DIM)
}

} // verus!

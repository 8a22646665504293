//! Embeddings of chunks, the providers that compute them, and the text
//! features the hashing provider reads.
pub mod features;
pub mod store;
pub mod provider;

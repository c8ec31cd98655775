//! Engine handles: a loaded model paired with the execution context that
//! drives its asynchronous calls.
//!
//! Loading a model and creating a context are left to the caller of this
//! library. The functions here fix what the loader is asked for, and pair the
//! outcome with the context, so that a handle is either complete or absent.

use vstd::prelude::*;
use vstd::utf8::{decode_utf8, valid_utf8};
use tokio::runtime::Runtime;
use crate::text::{decode_text, entry_text};

verus! {

/// The execution context of a handle: `tokio::runtime::Runtime`, carried
/// through as an opaque value.
#[verifier::external_type_specification]
#[verifier::external_body]
pub struct ExRuntime(Runtime);

/// The numeric precision a model is loaded with.
pub enum Precision {
    Half,
    Single,
}

/// What the loader of an embedding model is asked for.
pub struct EmbedderRequest {
    pub architecture: String,
    pub model_id: String,
    pub revision: Option<String>,
    pub token: Option<String>,
    pub precision: Option<Precision>,
}

/// What the loader of a reranking model is asked for.
pub struct RerankerRequest {
    pub model_id: String,
    pub revision: Option<String>,
    pub precision: Precision,
    pub path_in_repo: Option<String>,
}

/// An embedding model with its execution context.
pub struct EmbedderWrapper<E> {
    pub inner: E,
    pub runtime: Runtime,
}

/// A reranking model with its execution context.
pub struct RerankerWrapper<R> {
    pub inner: R,
    pub runtime: Runtime,
}

/// Builds the request for an embedding model: the architecture family and
/// the model identifier copied, a null one as the empty string; no revision,
/// no token, and the loader's own choice of precision.
pub fn embedder_request(model_id: &Option<Vec<u8>>, architecture: &Option<Vec<u8>>) -> (request:
    EmbedderRequest)
    ensures
        request.architecture@ == entry_text(architecture.deep_view()),
        request.model_id@ == entry_text(model_id.deep_view()),
        architecture matches Some(bytes) ==> (valid_utf8(bytes@) ==> request.architecture@
            == decode_utf8(bytes@)),
        model_id matches Some(bytes) ==> (valid_utf8(bytes@) ==> request.model_id@ == decode_utf8(
            bytes@,
        )),
        request.revision is None,
        request.token is None,
        request.precision is None,
{
    EmbedderRequest {
        architecture: decode_text(architecture),
        model_id: decode_text(model_id),
        revision: None,
        token: None,
        precision: None,
    }
}

/// Builds the request for a reranking model: the model identifier copied, a
/// null one as the empty string; no revision, single precision, and the
/// default file of the repository.
pub fn reranker_request(model_id: &Option<Vec<u8>>) -> (request: RerankerRequest)
    ensures
        request.model_id@ == entry_text(model_id.deep_view()),
        model_id matches Some(bytes) ==> (valid_utf8(bytes@) ==> request.model_id@ == decode_utf8(
            bytes@,
        )),
        request.revision is None,
        request.precision is Single,
        request.path_in_repo is None,
{
    RerankerRequest {
        model_id: decode_text(model_id),
        revision: None,
        precision: Precision::Single,
        path_in_repo: None,
    }
}

/// Pairs the outcome of loading an embedding model with the context that was
/// created for it. A failed load (`None`) yields no handle.
pub fn new_embedder<E>(runtime: Runtime, loaded: Option<E>) -> (handle: Option<EmbedderWrapper<E>>)
    ensures
        handle == match loaded {
            Some(inner) => Some(EmbedderWrapper { inner, runtime }),
            None => None,
        },
{
    match loaded {
        Some(inner) => Some(EmbedderWrapper { inner, runtime }),
        None => None,
    }
}

/// Pairs the outcome of loading a reranking model with the context that was
/// created for it. A failed load (`None`) yields no handle.
pub fn new_reranker<R>(runtime: Runtime, loaded: Option<R>) -> (handle: Option<RerankerWrapper<R>>)
    ensures
        handle == match loaded {
            Some(inner) => Some(RerankerWrapper { inner, runtime }),
            None => None,
        },
{
    match loaded {
        Some(inner) => Some(RerankerWrapper { inner, runtime }),
        None => None,
    }
}

} // verus!

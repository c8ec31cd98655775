//! Initialisation of the process-wide numeric backend.
//!
//! The backend is configured at most once. Whether it has been is a value
//! that the caller of this library keeps for the whole process; the functions
//! here decide, loading the backend library is left to the caller.

use vstd::prelude::*;
use vstd::utf8::{decode_utf8, valid_utf8};
use crate::text::decode_strict;

verus! {

/// The status of a successful initialisation.
pub const STATUS_OK: i32 = 0;

/// The status of a failed initialisation.
pub const STATUS_FAILED: i32 = 1;

/// Whether the backend of this process has been configured.
pub struct BackendState {
    pub configured: bool,
}

/// What to do about a request to initialise the backend.
pub enum InitStep {
    /// The request is over, with this status.
    Finished { status: i32 },
    /// Load the backend library at this path, then report how it went.
    Load { path: String },
}

/// Whether a request with this path goes on to load the backend: the backend
/// is not configured yet, and the path is there and is well-formed UTF-8.
pub open spec fn may_load(state: BackendState, path: Option<Seq<u8>>) -> bool {
    &&& !state.configured
    &&& path matches Some(bytes)
    &&& valid_utf8(bytes)
}

impl BackendState {
    /// The state of a process that has configured no backend.
    pub fn new() -> (state: BackendState)
        ensures
            !state.configured,
    {
        BackendState { configured: false }
    }
}

/// Decides on a request to initialise the backend from the library at `path`.
///
/// The request fails at once where the backend is already configured, where
/// the path is null, and where it is not well-formed UTF-8. Otherwise the
/// library at the decoded path is to be loaded.
pub fn init_onnx_runtime(state: &BackendState, path: &Option<Vec<u8>>) -> (step: InitStep)
    ensures
        may_load(*state, path.deep_view()) ==> (step matches InitStep::Load { path: text }
            && text@ == decode_utf8(path->0@)),
        !may_load(*state, path.deep_view()) ==> step == (InitStep::Finished {
            status: STATUS_FAILED,
        }),
{
    if state.configured {
        return InitStep::Finished { status: STATUS_FAILED };
    }
    match decode_strict(path) {
        Some(text) => InitStep::Load { path: text },
        None => InitStep::Finished { status: STATUS_FAILED },
    }
}

/// Ends a request to initialise the backend, given whether loading succeeded.
///
/// The status is zero exactly when the backend was loaded and none was
/// configured before; the backend then counts as configured. A failed load
/// leaves the state as it was.
pub fn finish_init(state: &mut BackendState, loaded: bool) -> (status: i32)
    ensures
        status == if loaded && !old(state).configured {
            STATUS_OK
        } else {
            STATUS_FAILED
        },
        final(state).configured == (old(state).configured || loaded),
{
    if loaded && !state.configured {
        state.configured = true;
        STATUS_OK
    } else {
        STATUS_FAILED
    }
}

/// Once a backend is configured, every further request fails without loading
/// anything, whatever its path.
pub proof fn lemma_second_init_fails(state: BackendState, path: Option<Seq<u8>>)
    requires
        state.configured,
    ensures
        !may_load(state, path),
{
}

} // verus!

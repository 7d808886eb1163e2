//! Construction outcomes for the in-process model backend.
//!
//! Loading the model itself is native code driven by the embedding program;
//! the library fixes how the probe results map to a backend or an error.

use vstd::prelude::*;

verus! {

/// Why the backend could not be brought up.
pub enum LlamaCppBackendError {
    /// The model file at the carried path does not exist.
    ModelFileDoesntExist(String),
    /// The model failed to initialize; carries the path and the loader's
    /// message.
    ModelInitializationFailed(String, String),
}

/// An in-process model backend.
pub struct LlamaCppBackend {}

impl LlamaCppBackend {
    /// Decide the outcome of backend construction from what the embedding
    /// program observed: whether the model file exists, and what the native
    /// loader returned.
    pub fn resolve_init(path: String, file_exists: bool, loaded: Result<(), String>) -> (r: Result<
        LlamaCppBackend,
        LlamaCppBackendError,
    >)
        ensures
            !file_exists ==> r is Err && r->Err_0 is ModelFileDoesntExist && r->Err_0->ModelFileDoesntExist_0
                == path,
            file_exists && loaded is Ok ==> r is Ok,
            file_exists && loaded is Err ==> r is Err && match r->Err_0 {
                LlamaCppBackendError::ModelInitializationFailed(p, m) => p == path && m
                    == loaded->Err_0,
                _ => false,
            },
    {
        if !file_exists {
            return Err(LlamaCppBackendError::ModelFileDoesntExist(path));
        }
        match loaded {
            Ok(_) => Ok(LlamaCppBackend {}),
            Err(message) => Err(LlamaCppBackendError::ModelInitializationFailed(path, message)),
        }
    }
}

} // verus!

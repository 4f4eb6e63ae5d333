//! Errors of training and generation.

use vstd::prelude::*;

verus! {

/// A fatal condition of a training or generation run.
#[derive(Debug)]
pub enum ModelError {
    /// The corpus holds no tokens: no model can be built.
    EmptyCorpus,
    /// A corpus token has no assigned order: the order assignment and the
    /// corpus are out of sync. Carries the offending token.
    MissingOrder(String),
    /// The persistent store failed; carries the backend's description.
    Store(String),
    /// The chain store holds no entries, so generation cannot seed itself.
    EmptyStore,
}

impl ModelError {
    /// A short machine-readable tag, one per variant.
    pub fn tag(&self) -> (r: &'static str)
        ensures
            r@ == match self {
                ModelError::EmptyCorpus => "empty corpus"@,
                ModelError::MissingOrder(_) => "missing order"@,
                ModelError::Store(_) => "store failure"@,
                ModelError::EmptyStore => "empty store"@,
            },
    {
        match self {
            ModelError::EmptyCorpus => "empty corpus",
            ModelError::MissingOrder(_) => "missing order",
            ModelError::Store(_) => "store failure",
            ModelError::EmptyStore => "empty store",
        }
    }
}

} // verus!

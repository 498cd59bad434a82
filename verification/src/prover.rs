//! Handle for the external prover collaborator. Proof generation itself is
//! an asynchronous outside service; this core only carries its verdicts.

use vstd::prelude::*;

verus! {

/// A handle to the succinct-proof backend. The backend's arithmetic is out
/// of scope here: the validator consumes only its boolean verdict, and the
/// miner hands its output bytes through unchanged.
pub struct ProverService;

impl ProverService {
    /// Creates the handle.
    pub fn new() -> (r: ProverService)
        ensures
            r == (ProverService {}),
    {
        ProverService
    }
}

/// Failure of a proof-generation request. Transient: the miner may retry
/// with backoff, and must never substitute a fabricated proof.
#[derive(Clone, Copy, PartialEq, Eq, Structural, Debug)]
pub enum ProverError {
    /// The backend could not produce a proof for this request.
    Unavailable,
}

} // verus!

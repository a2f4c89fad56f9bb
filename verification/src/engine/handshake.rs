//! Whether two peers can work together.
use crate::engine::identity::{AgentId, DocId, RuleFingerprint};
use vstd::prelude::*;

verus! {

/// The first message of a handshake.
#[derive(Clone, Copy, Debug)]
pub struct Hello {
    pub doc: DocId,
    pub agent: AgentId,
    pub rule: RuleFingerprint,
}

/// How a handshake ends.
#[derive(Clone, Copy, Debug, PartialEq, Eq, Structural)]
pub enum Outcome {
    Compatible,
    DocMismatch,
    /// The rules behave differently.
    SimDiverged,
}

/// Judges a handshake. The transcripts are compared even where the fingerprints
/// match.
pub fn evaluate(local: &Hello, remote: &Hello, local_transcript: u64, remote_transcript: u64) -> (r:
    Outcome)
    ensures
        r == Outcome::DocMismatch <==> local.doc != remote.doc,
        r == Outcome::SimDiverged <==> local.doc == remote.doc && local_transcript
            != remote_transcript,
        r == Outcome::Compatible <==> local.doc == remote.doc && local_transcript
            == remote_transcript,
{
    if local.doc != remote.doc {
        return Outcome::DocMismatch;
    }
    if local_transcript != remote_transcript {
        return Outcome::SimDiverged;
    }
    Outcome::Compatible
}

} // verus!

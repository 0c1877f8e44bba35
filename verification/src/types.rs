//! Messages exchanged between the stages of the pipeline.
use vstd::prelude::*;

verus! {

/// Transcript events emitted by speech recognition.
#[derive(Clone, Debug)]
pub enum TranscriptEvent {
    /// Intermediate hypothesis while the user is still speaking.
    Partial(String),
    /// Final transcript of a completed utterance; it triggers a reply.
    Final(String),
}

} // verus!

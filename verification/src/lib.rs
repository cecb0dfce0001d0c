//! Verified core of a transcription pipeline: PCM byte decoding, the
//! decisions of one transcription run, a transcript store with all-or-nothing
//! writes, and the query surface that serves stored segments back by id or
//! source URL.

use vstd::prelude::*;

pub mod pcm;
pub mod pipeline;
pub mod query;
pub mod store;

verus! {

/// A recognized span of speech: timestamps in integer centiseconds, as the
/// inference engine emits them, together with the recognized text.
pub struct Segment {
    pub start_cs: i64,
    pub end_cs: i64,
    pub text: String,
}

/// Mathematical value of a `Segment`: unbounded integers and a character
/// sequence, for use in contracts.
pub ghost struct SegModel {
    pub start_cs: int,
    pub end_cs: int,
    pub text: Seq<char>,
}

impl View for Segment {
    type V = SegModel;

    open spec fn view(&self) -> SegModel {
        SegModel { start_cs: self.start_cs as int, end_cs: self.end_cs as int, text: self.text@ }
    }
}

impl Segment {
    pub fn new(start_cs: i64, end_cs: i64, text: String) -> (s: Segment)
        ensures
            s@ == (SegModel { start_cs: start_cs as int, end_cs: end_cs as int, text: text@ }),
    {
        Segment { start_cs, end_cs, text }
    }
}

} // verus!

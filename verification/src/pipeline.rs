//! The decisions of one transcription run: what acquisition yields once both
//! subprocesses have exited, and what reaches the store once inference has
//! spoken. Every stage fails fast: a failed stage aborts the run, and nothing
//! is persisted unless inference succeeded and fresh ids were available.

use vstd::prelude::*;

use crate::Segment;
use crate::SegModel;
use crate::pcm::decode_pcm;
use crate::pcm::pcm_decode;
use crate::store::StoreError;
use crate::store::StoreModel;
use crate::store::TranscriptStore;
use crate::store::seg_models;

verus! {

/// Why a transcription run, or a query on its results, failed.
#[derive(Clone, Copy, Debug, PartialEq, Eq, Structural)]
pub enum TranscribeError {
    /// The downloader or the decoder subprocess failed to spawn or exited
    /// with a non-zero status.
    AcquisitionFailure,
    /// The integer-to-float sample conversion failed.
    ConversionFailure,
    /// Loading the model, creating an inference state, or decoding failed.
    InferenceFailure,
    /// The store refused the transactional write.
    PersistenceFailure,
    /// The requested transcript id or URL has no matching row.
    NotFound,
}

/// The human-readable description of each failure.
pub open spec fn message_of(e: TranscribeError) -> Seq<char> {
    match e {
        TranscribeError::AcquisitionFailure => "audio acquisition failed"@,
        TranscribeError::ConversionFailure => "sample conversion failed"@,
        TranscribeError::InferenceFailure => "speech inference failed"@,
        TranscribeError::PersistenceFailure => "saving the transcript failed"@,
        TranscribeError::NotFound => "transcript not found"@,
    }
}

impl TranscribeError {
    /// The failure as a caller-facing message.
    pub fn message(&self) -> (m: String)
        ensures
            m@ == message_of(*self),
    {
        match self {
            TranscribeError::AcquisitionFailure => "audio acquisition failed".to_owned(),
            TranscribeError::ConversionFailure => "sample conversion failed".to_owned(),
            TranscribeError::InferenceFailure => "speech inference failed".to_owned(),
            TranscribeError::PersistenceFailure => "saving the transcript failed".to_owned(),
            TranscribeError::NotFound => "transcript not found".to_owned(),
        }
    }
}

/// What acquisition yields, given how the two subprocesses exited and what
/// bytes the decoder wrote: the decoded samples when both exited zero, and
/// acquisition failure — with every partial byte discarded — otherwise.
pub open spec fn spec_acquire(
    downloader_ok: bool,
    decoder_ok: bool,
    bytes: Seq<u8>,
) -> Result<Seq<i16>, TranscribeError> {
    if downloader_ok && decoder_ok {
        Ok(pcm_decode(bytes))
    } else {
        Err(TranscribeError::AcquisitionFailure)
    }
}

/// The end of audio acquisition. `downloader_ok` and `decoder_ok` say whether
/// each subprocess exited with status zero; `raw` is what the decoder wrote.
/// Only a run in which both exited zero yields samples; partial output of a
/// failed run is discarded, even if sample bytes were already produced.
pub fn acquire_outcome(downloader_ok: bool, decoder_ok: bool, raw: &Vec<u8>) -> (r: Result<
    Vec<i16>,
    TranscribeError,
>)
    ensures
        r is Ok <==> (downloader_ok && decoder_ok),
        r matches Ok(samples) ==> samples@ == pcm_decode(raw@) && spec_acquire(
            downloader_ok,
            decoder_ok,
            raw@,
        ) == Ok::<Seq<i16>, TranscribeError>(samples@),
        r matches Err(e) ==> e == TranscribeError::AcquisitionFailure && spec_acquire(
            downloader_ok,
            decoder_ok,
            raw@,
        ) == Err::<Seq<i16>, TranscribeError>(e),
{
    if downloader_ok && decoder_ok {
        Ok(decode_pcm(raw))
    } else {
        Err(TranscribeError::AcquisitionFailure)
    }
}

/// The inference outcome, lifted to the mathematical level.
pub open spec fn lift_inference(
    inference: Result<Vec<Segment>, TranscribeError>,
) -> Result<Seq<SegModel>, TranscribeError> {
    match inference {
        Ok(segs) => Ok(seg_models(segs@)),
        Err(e) => Err(e),
    }
}

/// The run's result, lifted to the mathematical level.
pub open spec fn lift_run_result(r: Result<i64, TranscribeError>) -> Result<
    int,
    TranscribeError,
> {
    match r {
        Ok(id) => Ok(id as int),
        Err(e) => Err(e),
    }
}

/// How one run ends against a given store: a failed stage leaves the store
/// untouched and carries its failure out; successful inference saves the
/// transcript with all its segments in one write, unless the store is out of
/// fresh ids, which leaves it untouched and reports persistence failure.
pub open spec fn spec_complete_run(
    m: StoreModel,
    url: Seq<char>,
    inference: Result<Seq<SegModel>, TranscribeError>,
) -> (StoreModel, Result<int, TranscribeError>) {
    match inference {
        Err(e) => (m, Err(e)),
        Ok(segs) => if m.can_save(segs.len()) {
            let (m2, id) = m.save(url, segs);
            (m2, Ok(id))
        } else {
            (m, Err(TranscribeError::PersistenceFailure))
        },
    }
}

/// Finish a run: persist the inference output, or carry the failure of an
/// earlier stage out without touching the store. Returns the fresh transcript
/// id on success.
pub fn complete_run(
    store: &mut TranscriptStore,
    url: String,
    inference: Result<Vec<Segment>, TranscribeError>,
) -> (r: Result<i64, TranscribeError>)
    requires
        old(store)@.wf(),
    ensures
        final(store)@.wf(),
        ({
            let outcome = spec_complete_run(old(store)@, url@, lift_inference(inference));
            final(store)@ == outcome.0 && lift_run_result(r) == outcome.1
        }),
{
    match inference {
        Err(e) => Err(e),
        Ok(segs) => match store.save(url, segs) {
            Ok(id) => Ok(id),
            Err(StoreError::Capacity) => Err(TranscribeError::PersistenceFailure),
            Err(StoreError::NotFound) => Err(TranscribeError::PersistenceFailure),
        },
    }
}

/// A run whose decoder exited non-zero acquires nothing: it reports
/// acquisition failure even if sample bytes were already produced. And a run
/// that carries any failure into its final stage writes nothing: the store —
/// row for row, both tables — is exactly what it was.
pub proof fn lemma_failed_run_writes_nothing(
    m: StoreModel,
    url: Seq<char>,
    downloader_ok: bool,
    bytes: Seq<u8>,
    e: TranscribeError,
)
    ensures
        spec_acquire(downloader_ok, false, bytes) == Err::<Seq<i16>, TranscribeError>(
            TranscribeError::AcquisitionFailure,
        ),
        spec_complete_run(m, url, Err(e)).0 == m,
        spec_complete_run(m, url, Err(e)).1 == Err::<int, TranscribeError>(e),
{
}

} // verus!

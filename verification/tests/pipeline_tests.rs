use subtitles::Segment;
use subtitles::pipeline::TranscribeError;
use subtitles::pipeline::acquire_outcome;
use subtitles::pipeline::complete_run;
use subtitles::query::delete_transcript;
use subtitles::query::get_segments;
use subtitles::query::get_transcript;
use subtitles::query::list_transcripts;
use subtitles::query::subtitles_for_url;
use subtitles::store::TranscriptStore;

fn seg(start_cs: i64, end_cs: i64, text: &str) -> Segment {
    Segment::new(start_cs, end_cs, text.to_owned())
}

#[test]
fn successful_acquisition_decodes_the_stream() {
    let raw: Vec<u8> = vec![0x10, 0x00, 0x00, 0x80];
    let samples = acquire_outcome(true, true, &raw).unwrap();
    assert_eq!(samples, vec![16, i16::MIN]);
}

#[test]
fn failed_decoder_discards_partial_output() {
    let raw: Vec<u8> = vec![0x10, 0x00, 0x00, 0x80];
    let r = acquire_outcome(true, false, &raw);
    assert!(matches!(r, Err(TranscribeError::AcquisitionFailure)));
}

#[test]
fn failed_downloader_discards_partial_output() {
    let raw: Vec<u8> = vec![0x10, 0x00];
    let r = acquire_outcome(false, true, &raw);
    assert!(matches!(r, Err(TranscribeError::AcquisitionFailure)));
}

#[test]
fn failed_run_writes_no_rows() {
    let mut store = TranscriptStore::new();
    let kept = complete_run(&mut store, "http://example/ok".to_owned(), Ok(vec![seg(0, 1, "x")]))
        .unwrap();
    // A decoder that exits non-zero makes acquisition fail; completing the
    // run with that failure must leave the store's row counts unchanged.
    let raw: Vec<u8> = vec![0x10, 0x00];
    let acq = acquire_outcome(true, false, &raw);
    let err = acq.err().unwrap();
    let r = complete_run(&mut store, "http://example/bad".to_owned(), Err(err));
    assert!(matches!(r, Err(TranscribeError::AcquisitionFailure)));
    assert_eq!(list_transcripts(&store).len(), 1);
    assert_eq!(store.segments_for(kept).len(), 1);
    assert!(store.find_by_url(&"http://example/bad".to_owned()).is_none());
}

#[test]
fn inference_failure_aborts_before_persistence() {
    let mut store = TranscriptStore::new();
    let r = complete_run(
        &mut store,
        "http://example/v".to_owned(),
        Err(TranscribeError::InferenceFailure),
    );
    assert!(matches!(r, Err(TranscribeError::InferenceFailure)));
    assert!(list_transcripts(&store).is_empty());
}

#[test]
fn conversion_failure_aborts_before_persistence() {
    let mut store = TranscriptStore::new();
    let r = complete_run(
        &mut store,
        "http://example/v".to_owned(),
        Err(TranscribeError::ConversionFailure),
    );
    assert!(matches!(r, Err(TranscribeError::ConversionFailure)));
    assert!(list_transcripts(&store).is_empty());
}

#[test]
fn lookup_returns_start_text_pairs_for_saved_run() {
    let mut store = TranscriptStore::new();
    let segs = vec![seg(0, 120, "hello"), seg(120, 250, "world")];
    let id = complete_run(&mut store, "http://example/video".to_owned(), Ok(segs)).unwrap();
    assert!(store.get(id).is_ok());
    let entries = subtitles_for_url(&store, &"http://example/video".to_owned()).unwrap();
    assert_eq!(entries.len(), 2);
    assert_eq!(entries[0].start_cs, 0);
    assert_eq!(entries[0].text, "hello");
    assert_eq!(entries[1].start_cs, 120);
    assert_eq!(entries[1].text, "world");
    // In seconds, as the endpoint serves them: 0.0 and 1.2.
    assert_eq!(entries[0].start_cs as f32 / 100.0, 0.0);
    assert_eq!(entries[1].start_cs as f32 / 100.0, 1.2);
}

#[test]
fn lookup_unknown_url_reports_not_found() {
    let store = TranscriptStore::new();
    let r = subtitles_for_url(&store, &"http://example/absent".to_owned());
    assert_eq!(r.err().unwrap(), "transcript not found");
}

#[test]
fn query_surface_passes_reads_through() {
    let mut store = TranscriptStore::new();
    let id = complete_run(&mut store, "http://example/v".to_owned(), Ok(vec![seg(3, 4, "t")]))
        .unwrap();
    let t = get_transcript(&store, id).unwrap();
    assert_eq!(t.id, id);
    assert_eq!(t.url, "http://example/v");
    let rows = get_segments(&store, id).unwrap();
    assert_eq!(rows.len(), 1);
    assert_eq!(rows[0].start_cs, 3);
    assert_eq!(rows[0].end_cs, 4);
    assert_eq!(rows[0].text, "t");
    assert_eq!(list_transcripts(&store).len(), 1);
}

#[test]
fn query_surface_reports_not_found_by_message() {
    let mut store = TranscriptStore::new();
    assert_eq!(get_transcript(&store, 9).err().unwrap(), "transcript not found");
    assert_eq!(get_segments(&store, 9).err().unwrap(), "transcript not found");
    assert_eq!(delete_transcript(&mut store, 9).err().unwrap(), "transcript not found");
}

#[test]
fn delete_transcript_cascades_and_then_reports_not_found() {
    let mut store = TranscriptStore::new();
    let id = complete_run(&mut store, "http://example/v".to_owned(), Ok(vec![seg(0, 1, "x")]))
        .unwrap();
    assert!(delete_transcript(&mut store, id).is_ok());
    assert!(get_transcript(&store, id).is_err());
    assert!(store.segments_for(id).is_empty());
    assert!(delete_transcript(&mut store, id).is_err());
}

#[test]
fn error_messages_name_the_failed_stage() {
    assert_eq!(TranscribeError::AcquisitionFailure.message(), "audio acquisition failed");
    assert_eq!(TranscribeError::ConversionFailure.message(), "sample conversion failed");
    assert_eq!(TranscribeError::InferenceFailure.message(), "speech inference failed");
    assert_eq!(TranscribeError::PersistenceFailure.message(), "saving the transcript failed");
    assert_eq!(TranscribeError::NotFound.message(), "transcript not found");
}

//! The query surface: the local read operations over the store, and the
//! lookup that resolves a source URL to its stored segments in the external
//! `{start, text}` shape. Failures surface as caller-facing message strings;
//! a requested id or URL with no matching row yields the not-found message.

use vstd::prelude::*;

use crate::pipeline::TranscribeError;
use crate::pipeline::message_of;
use crate::store::SegmentRow;
use crate::store::SegmentRowModel;
use crate::store::Transcript;
use crate::store::TranscriptStore;
use crate::store::last_for_url;
use crate::store::row_models;
use crate::store::sorted_by_start;
use crate::store::sorted_by_start_then_id;
use crate::store::transcript_models;

verus! {

/// One entry of the external lookup's answer: the start timestamp (in
/// centiseconds) and the recognized text. The end timestamp and the
/// transcript metadata are deliberately left out of this shape.
pub struct SubtitleEntry {
    pub start_cs: i64,
    pub text: String,
}

/// Mathematical value of a [`SubtitleEntry`].
#[verifier::ext_equal]
pub ghost struct SubtitleEntryModel {
    pub start_cs: int,
    pub text: Seq<char>,
}

impl View for SubtitleEntry {
    type V = SubtitleEntryModel;

    open spec fn view(&self) -> SubtitleEntryModel {
        SubtitleEntryModel { start_cs: self.start_cs as int, text: self.text@ }
    }
}

/// The entry views of a sequence of entries.
pub open spec fn entry_models(es: Seq<SubtitleEntry>) -> Seq<SubtitleEntryModel> {
    es.map_values(|e: SubtitleEntry| e@)
}

/// The external shape of one stored row: its start timestamp and its text.
pub open spec fn subtitle_of_row(r: SegmentRowModel) -> SubtitleEntryModel {
    SubtitleEntryModel { start_cs: r.start_cs, text: r.text }
}

/// The external shape of a sequence of stored rows, in order.
pub open spec fn subtitles_of_rows(rs: Seq<SegmentRowModel>) -> Seq<SubtitleEntryModel> {
    rs.map_values(|r: SegmentRowModel| subtitle_of_row(r))
}

/// All stored transcripts, most recent first.
pub fn list_transcripts(store: &TranscriptStore) -> (r: Vec<Transcript>)
    requires
        store@.wf(),
    ensures
        transcript_models(r@) == store@.transcripts.reverse(),
{
    store.list()
}

/// The transcript carrying `id`, or the not-found message when none does.
pub fn get_transcript(store: &TranscriptStore, id: i64) -> (r: Result<Transcript, String>)
    requires
        store@.wf(),
    ensures
        r is Ok <==> store@.has_transcript(id as int),
        r matches Ok(t) ==> store@.find(id as int) == Some(t@),
        r matches Err(msg) ==> msg@ == message_of(TranscribeError::NotFound),
{
    match store.get(id) {
        Ok(t) => Ok(t),
        Err(_) => Err(TranscribeError::NotFound.message()),
    }
}

/// The segments of transcript `id` ordered by start timestamp, or the
/// not-found message when no transcript carries `id`.
pub fn get_segments(store: &TranscriptStore, id: i64) -> (r: Result<Vec<SegmentRow>, String>)
    requires
        store@.wf(),
    ensures
        r is Ok <==> store@.has_transcript(id as int),
        r matches Ok(rows) ==> sorted_by_start(row_models(rows@)) && sorted_by_start_then_id(
            row_models(rows@),
        ) && row_models(rows@).to_multiset() == store@.rows_for(id as int).to_multiset(),
        r matches Err(msg) ==> msg@ == message_of(TranscribeError::NotFound),
{
    match store.get(id) {
        Ok(_) => Ok(store.segments_for(id)),
        Err(_) => Err(TranscribeError::NotFound.message()),
    }
}

/// Cascade-delete transcript `id` with all its segments, or report the
/// not-found message — and change nothing — when no transcript carries `id`.
pub fn delete_transcript(store: &mut TranscriptStore, id: i64) -> (r: Result<(), String>)
    requires
        old(store)@.wf(),
    ensures
        final(store)@.wf(),
        r is Ok <==> old(store)@.has_transcript(id as int),
        r is Ok ==> final(store)@ == old(store)@.delete(id as int),
        r matches Err(msg) ==> msg@ == message_of(TranscribeError::NotFound) && final(store)@
            == old(store)@,
{
    match store.get(id) {
        Ok(_) => {
            store.delete(id);
            Ok(())
        },
        Err(_) => Err(TranscribeError::NotFound.message()),
    }
}

/// Reshape stored rows into the external `{start, text}` entries, in order.
pub fn to_subtitles(rows: &Vec<SegmentRow>) -> (r: Vec<SubtitleEntry>)
    ensures
        entry_models(r@) == subtitles_of_rows(row_models(rows@)),
{
    let n = rows.len();
    let mut r: Vec<SubtitleEntry> = Vec::new();
    let mut i: usize = 0;
    while i < n
        invariant
            i <= n,
            n == rows@.len(),
            entry_models(r@) =~= subtitles_of_rows(row_models(rows@)).take(i as int),
        decreases n - i,
    {
        let row = &rows[i];
        let ghost pre = r@;
        r.push(SubtitleEntry { start_cs: row.start_cs, text: row.text.clone() });
        proof {
            let all = subtitles_of_rows(row_models(rows@));
            assert(entry_models(r@) =~= entry_models(pre).push(subtitle_of_row(row@)));
            assert(all.take(i as int + 1) =~= all.take(i as int).push(all[i as int]));
        }
        i = i + 1;
    }
    proof {
        assert(entry_models(r@) =~= subtitles_of_rows(row_models(rows@)));
    }
    r
}

/// The externally served lookup: resolve `url` to its most recent transcript
/// and answer that transcript's rows, ordered by start timestamp, reshaped to
/// `{start, text}`. When no transcript carries `url`, the answer is the
/// not-found message (the caller wraps it in its uniform error envelope).
pub fn subtitles_for_url(store: &TranscriptStore, url: &String) -> (r: Result<
    Vec<SubtitleEntry>,
    String,
>)
    requires
        store@.wf(),
    ensures
        r is Ok <==> last_for_url(store@.transcripts, url@) is Some,
        r matches Ok(entries) ==> (exists|rs: Seq<SegmentRowModel>|
            {
                let t = last_for_url(store@.transcripts, url@)->Some_0;
                &&& sorted_by_start(rs)
                &&& sorted_by_start_then_id(rs)
                &&& rs.to_multiset() == store@.rows_for(t.id).to_multiset()
                &&& entry_models(entries@) == #[trigger] subtitles_of_rows(rs)
            }),
        r matches Err(msg) ==> msg@ == message_of(TranscribeError::NotFound),
{
    match store.find_by_url(url) {
        Some(t) => {
            let rows = store.segments_for(t.id);
            let entries = to_subtitles(&rows);
            proof {
                let w = row_models(rows@);
                assert(sorted_by_start(w) && sorted_by_start_then_id(w) && w.to_multiset()
                    == store@.rows_for(t@.id).to_multiset() && entry_models(entries@)
                    == subtitles_of_rows(w));
            }
            Ok(entries)
        },
        None => Err(TranscribeError::NotFound.message()),
    }
}

} // verus!

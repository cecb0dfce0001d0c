//! The transcript store: rows for transcripts and their segments, with
//! all-or-nothing writes, cascade deletion, and ordered read-back.
//!
//! The store is modelled by [`StoreModel`], a mathematical snapshot of both
//! tables and the id counters. Every operation's contract is stated against
//! that model, so that the transactional laws (a transcript and its segments
//! appear together and disappear together, and two saved runs never share a
//! row) are proved once over the model and hold of the executable store.

use vstd::prelude::*;

use crate::Segment;
use crate::SegModel;

verus! {

broadcast use
    vstd::seq_lib::group_seq_lib_default,
    vstd::seq_lib::group_to_multiset_ensures,
    vstd::prelude::Seq::lemma_filter_push,
    vstd::prelude::Seq::lemma_filter_contains_rev;

/// One transcribed source: a stored row of the `transcripts` table.
pub struct Transcript {
    pub id: i64,
    pub url: String,
    pub duration: i64,
    pub created_at: i64,
}

/// Mathematical value of a [`Transcript`] row.
#[verifier::ext_equal]
pub ghost struct TranscriptModel {
    pub id: int,
    pub url: Seq<char>,
    pub duration: int,
    pub created_at: int,
}

impl View for Transcript {
    type V = TranscriptModel;

    open spec fn view(&self) -> TranscriptModel {
        TranscriptModel {
            id: self.id as int,
            url: self.url@,
            duration: self.duration as int,
            created_at: self.created_at as int,
        }
    }
}

impl Clone for Transcript {
    fn clone(&self) -> (res: Transcript)
        ensures
            res@ == self@,
    {
        Transcript {
            id: self.id,
            url: self.url.clone(),
            duration: self.duration,
            created_at: self.created_at,
        }
    }
}

/// One stored span of speech: a row of the `segments` table, bound to its
/// transcript by `transcript_id`.
pub struct SegmentRow {
    pub id: i64,
    pub transcript_id: i64,
    pub start_cs: i64,
    pub end_cs: i64,
    pub text: String,
}

/// Mathematical value of a [`SegmentRow`].
#[verifier::ext_equal]
pub ghost struct SegmentRowModel {
    pub id: int,
    pub transcript_id: int,
    pub start_cs: int,
    pub end_cs: int,
    pub text: Seq<char>,
}

impl View for SegmentRow {
    type V = SegmentRowModel;

    open spec fn view(&self) -> SegmentRowModel {
        SegmentRowModel {
            id: self.id as int,
            transcript_id: self.transcript_id as int,
            start_cs: self.start_cs as int,
            end_cs: self.end_cs as int,
            text: self.text@,
        }
    }
}

impl Clone for SegmentRow {
    fn clone(&self) -> (res: SegmentRow)
        ensures
            res@ == self@,
    {
        SegmentRow {
            id: self.id,
            transcript_id: self.transcript_id,
            start_cs: self.start_cs,
            end_cs: self.end_cs,
            text: self.text.clone(),
        }
    }
}

/// Why a store operation was refused.
#[derive(Clone, Copy, Debug, PartialEq, Eq, Structural)]
pub enum StoreError {
    /// No transcript row carries the requested id.
    NotFound,
    /// A fresh row id cannot be assigned: the id space is exhausted, so the
    /// whole write is refused and nothing is inserted.
    Capacity,
}

/// The transcript views of a sequence of rows.
pub open spec fn transcript_models(ts: Seq<Transcript>) -> Seq<TranscriptModel> {
    ts.map_values(|t: Transcript| t@)
}

/// The segment-row views of a sequence of rows.
pub open spec fn row_models(rs: Seq<SegmentRow>) -> Seq<SegmentRowModel> {
    rs.map_values(|r: SegmentRow| r@)
}

/// The segment views of a sequence of segments.
pub open spec fn seg_models(ss: Seq<Segment>) -> Seq<SegModel> {
    ss.map_values(|s: Segment| s@)
}

/// The recognized span a stored row carries, shorn of its row ids.
pub open spec fn row_to_seg(r: SegmentRowModel) -> SegModel {
    SegModel { start_cs: r.start_cs, end_cs: r.end_cs, text: r.text }
}

/// The recognized spans of a sequence of stored rows, in order.
pub open spec fn rows_to_segs(rs: Seq<SegmentRowModel>) -> Seq<SegModel> {
    rs.map_values(|r: SegmentRowModel| row_to_seg(r))
}

/// Predicate: the row belongs to transcript `id`.
pub open spec fn is_tid(id: int) -> spec_fn(SegmentRowModel) -> bool {
    |r: SegmentRowModel| r.transcript_id == id
}

/// Predicate: the row does not belong to transcript `id`.
pub open spec fn not_tid(id: int) -> spec_fn(SegmentRowModel) -> bool {
    |r: SegmentRowModel| r.transcript_id != id
}

/// Predicate: the transcript row does not carry `id`.
pub open spec fn not_id(id: int) -> spec_fn(TranscriptModel) -> bool {
    |t: TranscriptModel| t.id != id
}

/// The rows that `segs` turn into when saved under transcript `tid` with row
/// ids assigned consecutively from `first_id`, in order.
pub open spec fn new_rows(segs: Seq<SegModel>, tid: int, first_id: int) -> Seq<SegmentRowModel> {
    Seq::new(
        segs.len(),
        |i: int| SegmentRowModel {
            id: first_id + i,
            transcript_id: tid,
            start_cs: segs[i].start_cs,
            end_cs: segs[i].end_cs,
            text: segs[i].text,
        },
    )
}

/// The first transcript row carrying `id`, if any. Under a well-formed store
/// the ids are distinct, so the first match is the only one.
pub open spec fn find_transcript(ts: Seq<TranscriptModel>, id: int) -> Option<TranscriptModel>
    decreases ts.len(),
{
    if ts.len() == 0 {
        None
    } else if ts[0].id == id {
        Some(ts[0])
    } else {
        find_transcript(ts.drop_first(), id)
    }
}

/// The most recently inserted transcript row whose url equals `url`, if any.
pub open spec fn last_for_url(ts: Seq<TranscriptModel>, url: Seq<char>) -> Option<TranscriptModel>
    decreases ts.len(),
{
    if ts.len() == 0 {
        None
    } else if ts.last().url == url {
        Some(ts.last())
    } else {
        last_for_url(ts.drop_last(), url)
    }
}

/// Rows ordered by start timestamp, ties in any order.
pub open spec fn sorted_by_start(rs: Seq<SegmentRowModel>) -> bool {
    forall|i: int, j: int|
        #![trigger rs[i], rs[j]]
        0 <= i <= j < rs.len() ==> rs[i].start_cs <= rs[j].start_cs
}

/// Rows ordered by start timestamp, ties by row id: a strict total order, so
/// together with the rows' multiset it pins the sequence completely.
pub open spec fn sorted_by_start_then_id(rs: Seq<SegmentRowModel>) -> bool {
    forall|i: int, j: int|
        #![trigger rs[i], rs[j]]
        0 <= i < j < rs.len() ==> rs[i].start_cs < rs[j].start_cs || (rs[i].start_cs
            == rs[j].start_cs && rs[i].id < rs[j].id)
}

/// Mathematical snapshot of the whole store: both tables in insertion order,
/// and the counters that assign ids and creation stamps.
#[verifier::ext_equal]
pub ghost struct StoreModel {
    pub transcripts: Seq<TranscriptModel>,
    pub segments: Seq<SegmentRowModel>,
    pub next_transcript_id: int,
    pub next_segment_id: int,
    pub next_stamp: int,
}

impl StoreModel {
    /// Transcript rows stand in insertion order: ids and creation stamps both
    /// strictly increase along the table.
    pub open spec fn transcripts_increasing(self) -> bool {
        forall|i: int, j: int|
            #![trigger self.transcripts[i], self.transcripts[j]]
            0 <= i < j < self.transcripts.len() ==> self.transcripts[i].id
                < self.transcripts[j].id && self.transcripts[i].created_at
                < self.transcripts[j].created_at
    }

    /// Every transcript row sits below the counters that assigned it, and the
    /// duration field is always written as zero.
    pub open spec fn transcripts_bounded(self) -> bool {
        forall|i: int|
            0 <= i < self.transcripts.len() ==> {
                let t = #[trigger] self.transcripts[i];
                1 <= t.id < self.next_transcript_id && 1 <= t.created_at < self.next_stamp
                    && t.duration == 0
            }
    }

    /// Segment rows stand in insertion order: ids strictly increase.
    pub open spec fn segments_increasing(self) -> bool {
        forall|i: int, j: int|
            #![trigger self.segments[i], self.segments[j]]
            0 <= i < j < self.segments.len() ==> self.segments[i].id < self.segments[j].id
    }

    /// Every segment row sits below the counter that assigned it.
    pub open spec fn segments_bounded(self) -> bool {
        forall|i: int|
            0 <= i < self.segments.len() ==> 1 <= (#[trigger] self.segments[i]).id
                < self.next_segment_id
    }

    /// Some transcript row carries `id`.
    pub open spec fn has_transcript(self, id: int) -> bool {
        exists|i: int| 0 <= i < self.transcripts.len() && (#[trigger] self.transcripts[i]).id == id
    }

    /// Foreign-key linkage: no segment row outlives its transcript.
    pub open spec fn segments_linked(self) -> bool {
        forall|i: int|
            0 <= i < self.segments.len() ==> self.has_transcript(
                (#[trigger] self.segments[i]).transcript_id,
            )
    }

    /// The store invariant: both tables in insertion order, ids below their
    /// counters, and every segment bound to a stored transcript.
    pub open spec fn wf(self) -> bool {
        &&& 1 <= self.next_transcript_id
        &&& 1 <= self.next_segment_id
        &&& 1 <= self.next_stamp
        &&& self.transcripts_increasing()
        &&& self.transcripts_bounded()
        &&& self.segments_increasing()
        &&& self.segments_bounded()
        &&& self.segments_linked()
    }

    /// Fresh ids and a fresh stamp exist for one transcript and `n` segments.
    pub open spec fn can_save(self, n: nat) -> bool {
        &&& self.next_transcript_id < i64::MAX
        &&& self.next_stamp < i64::MAX
        &&& self.next_segment_id + n <= i64::MAX
    }

    /// The store after saving one run: one transcript row (duration fixed at
    /// zero, stamp assigned at insert) and one row per segment, all bound to
    /// the fresh transcript id — together with that id.
    pub open spec fn save(self, url: Seq<char>, segs: Seq<SegModel>) -> (StoreModel, int) {
        let id = self.next_transcript_id;
        (
            StoreModel {
                transcripts: self.transcripts.push(
                    TranscriptModel { id, url, duration: 0, created_at: self.next_stamp },
                ),
                segments: self.segments + new_rows(segs, id, self.next_segment_id),
                next_transcript_id: id + 1,
                next_segment_id: self.next_segment_id + segs.len(),
                next_stamp: self.next_stamp + 1,
            },
            id,
        )
    }

    /// The store after the cascade delete of transcript `id`: its segment
    /// rows and its transcript row are both gone, everything else stays.
    pub open spec fn delete(self, id: int) -> StoreModel {
        StoreModel {
            transcripts: self.transcripts.filter(not_id(id)),
            segments: self.segments.filter(not_tid(id)),
            next_transcript_id: self.next_transcript_id,
            next_segment_id: self.next_segment_id,
            next_stamp: self.next_stamp,
        }
    }

    /// The transcript row carrying `id`, if any.
    pub open spec fn find(self, id: int) -> Option<TranscriptModel> {
        find_transcript(self.transcripts, id)
    }

    /// The segment rows of transcript `id`, in insertion order.
    pub open spec fn rows_for(self, id: int) -> Seq<SegmentRowModel> {
        self.segments.filter(is_tid(id))
    }
}

/// If no row of `ts` carries `id`, the search comes back empty.
pub proof fn lemma_find_none(ts: Seq<TranscriptModel>, id: int)
    requires
        forall|i: int| 0 <= i < ts.len() ==> (#[trigger] ts[i]).id != id,
    ensures
        find_transcript(ts, id) is None,
    decreases ts.len(),
{
    if ts.len() > 0 {
        lemma_find_none(ts.drop_first(), id);
    }
}

/// Under distinct ids, the search returns exactly the row at any matching
/// index.
pub proof fn lemma_find_match(ts: Seq<TranscriptModel>, id: int, k: int)
    requires
        0 <= k < ts.len(),
        ts[k].id == id,
        forall|i: int, j: int|
            #![trigger ts[i], ts[j]]
            0 <= i < j < ts.len() ==> ts[i].id != ts[j].id,
    ensures
        find_transcript(ts, id) == Some(ts[k]),
    decreases ts.len(),
{
    if ts[0].id == id {
        assert(k == 0);
    } else {
        let rest = ts.drop_first();
        assert(forall|i: int, j: int|
            #![trigger rest[i], rest[j]]
            0 <= i < j < rest.len() ==> rest[i].id != rest[j].id);
        lemma_find_match(rest, id, k - 1);
    }
}

/// The url lookup answers the most recent match: when it answers a row, that
/// row is stored, carries the url, and no stored row with the same url has a
/// later creation stamp; when it answers nothing, no stored row carries the
/// url at all.
pub proof fn lemma_last_for_url_is_most_recent(ts: Seq<TranscriptModel>, url: Seq<char>)
    requires
        forall|i: int, j: int|
            #![trigger ts[i], ts[j]]
            0 <= i < j < ts.len() ==> ts[i].created_at < ts[j].created_at,
    ensures
        last_for_url(ts, url) matches Some(t) ==> t.url == url && ts.contains(t) && (forall|
            i: int,
        |
            0 <= i < ts.len() && (#[trigger] ts[i]).url == url ==> ts[i].created_at
                <= t.created_at),
        last_for_url(ts, url) is None ==> forall|i: int|
            0 <= i < ts.len() ==> (#[trigger] ts[i]).url != url,
    decreases ts.len(),
{
    if ts.len() == 0 {
    } else if ts.last().url == url {
        assert(ts.contains(ts.last()));
    } else {
        let l = ts.drop_last();
        assert(forall|i: int, j: int|
            #![trigger l[i], l[j]]
            0 <= i < j < l.len() ==> l[i].created_at < l[j].created_at);
        lemma_last_for_url_is_most_recent(l, url);
        if last_for_url(ts, url) is Some {
            let t = last_for_url(ts, url)->Some_0;
            assert(l.contains(t));
            let w = choose|k: int| 0 <= k < l.len() && l[k] == t;
            assert(ts[w] == t);
            assert(ts.contains(t));
            assert forall|i: int|
                0 <= i < ts.len() && (#[trigger] ts[i]).url == url implies ts[i].created_at
                <= t.created_at by {
                assert(i < ts.len() - 1);
                assert(l[i] == ts[i]);
            }
        } else {
            assert forall|i: int| 0 <= i < ts.len() implies (#[trigger] ts[i]).url != url by {
                if i < ts.len() - 1 {
                    assert(l[i] == ts[i]);
                }
            }
        }
    }
}

/// What `list` answers is ordered most recent first: creation stamps strictly
/// descend along the reversed table.
pub proof fn lemma_list_most_recent_first(m: StoreModel)
    requires
        m.wf(),
    ensures
        forall|i: int, j: int|
            #![trigger m.transcripts.reverse()[i], m.transcripts.reverse()[j]]
            0 <= i < j < m.transcripts.reverse().len() ==> m.transcripts.reverse()[i].created_at
                > m.transcripts.reverse()[j].created_at,
{
    let rev = m.transcripts.reverse();
    assert forall|i: int, j: int| 0 <= i < j < rev.len() implies rev[i].created_at
        > rev[j].created_at by {
        let n = m.transcripts.len() as int;
        assert(rev[i] == m.transcripts[n - 1 - i]);
        assert(rev[j] == m.transcripts[n - 1 - j]);
    }
}

/// The transcript store. Rows live in insertion order; ids and creation
/// stamps are assigned from private counters and never reused.
pub struct TranscriptStore {
    transcripts: Vec<Transcript>,
    segments: Vec<SegmentRow>,
    next_transcript_id: i64,
    next_segment_id: i64,
    next_stamp: i64,
}

impl View for TranscriptStore {
    type V = StoreModel;

    closed spec fn view(&self) -> StoreModel {
        StoreModel {
            transcripts: transcript_models(self.transcripts@),
            segments: row_models(self.segments@),
            next_transcript_id: self.next_transcript_id as int,
            next_segment_id: self.next_segment_id as int,
            next_stamp: self.next_stamp as int,
        }
    }
}

/// Saving preserves the store invariant.
pub proof fn lemma_save_preserves_wf(m: StoreModel, url: Seq<char>, segs: Seq<SegModel>)
    requires
        m.wf(),
        m.can_save(segs.len()),
    ensures
        m.save(url, segs).0.wf(),
{
    let (m2, id) = m.save(url, segs);
    assert forall|i: int|
        0 <= i < m2.segments.len() implies m2.has_transcript(
        (#[trigger] m2.segments[i]).transcript_id,
    ) by {
        if i < m.segments.len() {
            assert(m2.segments[i] == m.segments[i]);
            let w = choose|k: int|
                0 <= k < m.transcripts.len() && (#[trigger] m.transcripts[k]).id
                    == m.segments[i].transcript_id;
            assert(m2.transcripts[w].id == m.segments[i].transcript_id);
        } else {
            assert(m2.segments[i].transcript_id == id);
            assert(m2.transcripts[m.transcripts.len() as int].id == id);
        }
    }
}

impl TranscriptStore {
    /// An empty store, counters at their start.
    pub fn new() -> (s: TranscriptStore)
        ensures
            s@.wf(),
            s@ == (StoreModel {
                transcripts: Seq::<TranscriptModel>::empty(),
                segments: Seq::<SegmentRowModel>::empty(),
                next_transcript_id: 1,
                next_segment_id: 1,
                next_stamp: 1,
            }),
    {
        let s = TranscriptStore {
            transcripts: Vec::new(),
            segments: Vec::new(),
            next_transcript_id: 1,
            next_segment_id: 1,
            next_stamp: 1,
        };
        proof {
            assert(s@ =~= (StoreModel {
                transcripts: Seq::<TranscriptModel>::empty(),
                segments: Seq::<SegmentRowModel>::empty(),
                next_transcript_id: 1,
                next_segment_id: 1,
                next_stamp: 1,
            }));
        }
        s
    }

    /// Save one transcription run: one transcript row and one row per
    /// segment, inside one all-or-nothing write. Either every row is inserted
    /// and the fresh transcript id is returned, or — when no fresh ids are
    /// left — nothing is, and the store is unchanged.
    pub fn save(&mut self, url: String, segs: Vec<Segment>) -> (r: Result<i64, StoreError>)
        requires
            old(self)@.wf(),
        ensures
            final(self)@.wf(),
            r is Ok <==> old(self)@.can_save(segs@.len()),
            old(self)@.can_save(segs@.len()) ==> {
                let (m2, id) = old(self)@.save(url@, seg_models(segs@));
                final(self)@ == m2 && r == Ok::<i64, StoreError>(id as i64)
            },
            !old(self)@.can_save(segs@.len()) ==> final(self)@ == old(self)@ && r
                == Err::<i64, StoreError>(StoreError::Capacity),
    {
        let ghost m = old(self)@;
        let n = segs.len();
        if self.next_transcript_id == i64::MAX || self.next_stamp == i64::MAX {
            return Err(StoreError::Capacity);
        }
        if (n as u64) > ((i64::MAX - self.next_segment_id) as u64) {
            return Err(StoreError::Capacity);
        }
        let tid = self.next_transcript_id;
        let stamp = self.next_stamp;
        let ghost first_id = self.next_segment_id as int;
        let mut i: usize = 0;
        while i < n
            invariant
                i <= n,
                n == segs@.len(),
                m.wf(),
                m.can_save(n as nat),
                self.transcripts@ == old(self).transcripts@,
                self.next_transcript_id == old(self).next_transcript_id,
                self.next_stamp == old(self).next_stamp,
                tid == m.next_transcript_id,
                first_id == m.next_segment_id,
                self.next_segment_id as int == first_id + i,
                row_models(self.segments@) =~= m.segments + new_rows(
                    seg_models(segs@),
                    tid as int,
                    first_id,
                ).take(i as int),
            decreases n - i,
        {
            let s = &segs[i];
            let row = SegmentRow {
                id: self.next_segment_id,
                transcript_id: tid,
                start_cs: s.start_cs,
                end_cs: s.end_cs,
                text: s.text.clone(),
            };
            let ghost rowm = row@;
            let ghost pre = self.segments@;
            self.segments.push(row);
            self.next_segment_id = self.next_segment_id + 1;
            proof {
                let rows = new_rows(seg_models(segs@), tid as int, first_id);
                assert(seg_models(segs@)[i as int] == segs@[i as int]@);
                assert(rowm =~= rows[i as int]);
                assert(row_models(self.segments@) =~= row_models(pre).push(rowm));
                assert((m.segments + rows.take(i as int)).push(rows[i as int]) =~= m.segments
                    + rows.take(i as int + 1));
                assert(row_models(self.segments@) =~= m.segments + rows.take(i as int + 1));
            }
            i = i + 1;
        }
        self.transcripts.push(
            Transcript { id: tid, url, duration: 0, created_at: stamp },
        );
        self.next_transcript_id = tid + 1;
        self.next_stamp = stamp + 1;
        proof {
            let (m2, id) = m.save(url@, seg_models(segs@));
            let rows = new_rows(seg_models(segs@), tid as int, first_id);
            assert(rows.take(n as int) =~= rows);
            assert(self@.transcripts =~= m2.transcripts);
            assert(self@ =~= m2);
            lemma_save_preserves_wf(m, url@, seg_models(segs@));
        }
        Ok(tid)
    }

    /// The stored transcript carrying `id`, or `NotFound` when none does.
    pub fn get(&self, id: i64) -> (r: Result<Transcript, StoreError>)
        requires
            self@.wf(),
        ensures
            r is Ok <==> self@.has_transcript(id as int),
            r matches Ok(t) ==> self@.find(id as int) == Some(t@),
            r is Err ==> r == Err::<Transcript, StoreError>(StoreError::NotFound) && self@.find(
                id as int,
            ) is None,
    {
        let n = self.transcripts.len();
        let mut i: usize = 0;
        while i < n
            invariant
                i <= n,
                n == self.transcripts@.len(),
                self@.wf(),
                forall|j: int|
                    0 <= j < i ==> (#[trigger] self@.transcripts[j]).id != id as int,
            decreases n - i,
        {
            if self.transcripts[i].id == id {
                proof {
                    lemma_find_match(self@.transcripts, id as int, i as int);
                }
                return Ok(self.transcripts[i].clone());
            }
            i = i + 1;
        }
        proof {
            lemma_find_none(self@.transcripts, id as int);
        }
        Err(StoreError::NotFound)
    }

    /// All transcripts, most recent first (creation stamps descending).
    pub fn list(&self) -> (r: Vec<Transcript>)
        requires
            self@.wf(),
        ensures
            transcript_models(r@) == self@.transcripts.reverse(),
    {
        let n = self.transcripts.len();
        let mut r: Vec<Transcript> = Vec::new();
        let mut i: usize = n;
        while i > 0
            invariant
                i <= n,
                n == self.transcripts@.len(),
                r@.len() == n - i,
                forall|k: int|
                    0 <= k < r@.len() ==> (#[trigger] r@[k])@ == self@.transcripts[n - 1 - k],
            decreases i,
        {
            i = i - 1;
            r.push(self.transcripts[i].clone());
        }
        proof {
            assert(transcript_models(r@) =~= self@.transcripts.reverse());
        }
        r
    }

    /// The segment rows of transcript `id`, ordered by start timestamp
    /// ascending: exactly the stored rows for `id`, reordered if needed, with
    /// no row missing and none duplicated. Rows tied on start come in row-id
    /// (that is, insertion) order, so the answer is fully determined. An id
    /// with no rows yields the empty sequence.
    pub fn segments_for(&self, id: i64) -> (r: Vec<SegmentRow>)
        requires
            self@.wf(),
        ensures
            sorted_by_start(row_models(r@)),
            sorted_by_start_then_id(row_models(r@)),
            row_models(r@).to_multiset() == self@.rows_for(id as int).to_multiset(),
    {
        let n = self.segments.len();
        let mut out: Vec<SegmentRow> = Vec::new();
        let mut i: usize = 0;
        while i < n
            invariant
                i <= n,
                n == self.segments@.len(),
                self@.wf(),
                sorted_by_start_then_id(row_models(out@)),
                row_models(out@).to_multiset() == self@.segments.take(i as int).filter(
                    is_tid(id as int),
                ).to_multiset(),
            decreases n - i,
        {
            let ghost seen = self@.segments.take(i as int);
            proof {
                assert(self@.segments.take(i as int + 1) =~= seen.push(self@.segments[i as int]));
            }
            let row = &self.segments[i];
            if row.transcript_id == id {
                let mut pos: usize = 0;
                while pos < out.len() && out[pos].start_cs <= row.start_cs
                    invariant
                        pos <= out@.len(),
                        forall|k: int|
                            0 <= k < pos ==> (#[trigger] row_models(out@)[k]).start_cs
                                <= row@.start_cs,
                    decreases out@.len() - pos,
                {
                    pos = pos + 1;
                }
                let ghost pre = out@;
                out.insert(pos, row.clone());
                proof {
                    let pm = row_models(pre);
                    // Everything inserted so far came from an earlier table
                    // position, so it carries a smaller row id.
                    assert forall|k: int| 0 <= k < pm.len() implies pm[k].id < row@.id by {
                        assert(pm.contains(pm[k]));
                        assert(pm.to_multiset().count(pm[k]) > 0);
                        assert(seen.filter(is_tid(id as int)).contains(pm[k]));
                        assert(seen.contains(pm[k]));
                        let w = choose|w: int| 0 <= w < seen.len() && seen[w] == pm[k];
                        assert(seen[w] == self@.segments[w]);
                        assert(self@.segments[w].id < self@.segments[i as int].id);
                    }
                    assert(row_models(out@) =~= pm.insert(pos as int, row@));
                    pm.insert_ensures(pos as int, row@);
                    assert(is_tid(id as int)(self@.segments[i as int]));
                    assert(seen.push(self@.segments[i as int]).filter(is_tid(id as int))
                        == seen.filter(is_tid(id as int)).push(self@.segments[i as int]));
                    assert forall|a: int, b: int|
                        #![trigger row_models(out@)[a], row_models(out@)[b]]
                        0 <= a < b < row_models(out@).len() implies {
                        let rm = row_models(out@);
                        rm[a].start_cs < rm[b].start_cs || (rm[a].start_cs == rm[b].start_cs
                            && rm[a].id < rm[b].id)
                    } by {
                        let rm = row_models(out@);
                        if a < pos && b == pos {
                            assert(rm[a] == pm[a]);
                        } else if a == pos && b > pos {
                            assert(rm[b] == pm[b - 1]);
                            assert((pos as int) < pm.len());
                            assert(pm[pos as int].start_cs > row@.start_cs);
                            if (pos as int) < b - 1 {
                                assert(pm[pos as int].start_cs <= pm[b - 1].start_cs);
                            }
                        } else if a < pos && b > pos {
                            assert(rm[a] == pm[a] && rm[b] == pm[b - 1]);
                        } else if a > pos && b > pos {
                            assert(rm[a] == pm[a - 1] && rm[b] == pm[b - 1]);
                        }
                    }
                }
            } else {
                proof {
                    assert(!is_tid(id as int)(self@.segments[i as int]));
                    assert(seen.push(self@.segments[i as int]).filter(is_tid(id as int))
                        == seen.filter(is_tid(id as int)));
                }
            }
            i = i + 1;
        }
        proof {
            assert(self@.segments.take(n as int) =~= self@.segments);
        }
        out
    }

    /// The most recently saved transcript whose url equals `url`, or `None`
    /// when no stored transcript carries it. Creation stamps grow along the
    /// table, so the last match is the most recent one.
    pub fn find_by_url(&self, url: &String) -> (r: Option<Transcript>)
        requires
            self@.wf(),
        ensures
            r matches Some(t) ==> last_for_url(self@.transcripts, url@) == Some(t@),
            r is None <==> last_for_url(self@.transcripts, url@) is None,
    {
        let n = self.transcripts.len();
        proof {
            assert(self@.transcripts.take(n as int) =~= self@.transcripts);
        }
        let mut i: usize = n;
        while i > 0
            invariant
                i <= n,
                n == self.transcripts@.len(),
                self@.wf(),
                last_for_url(self@.transcripts, url@) == last_for_url(
                    self@.transcripts.take(i as int),
                    url@,
                ),
            decreases i,
        {
            let ghost prefix = self@.transcripts.take(i as int);
            proof {
                assert(prefix.last() == self@.transcripts[i - 1]);
                assert(prefix.drop_last() =~= self@.transcripts.take(i as int - 1));
            }
            let t = &self.transcripts[i - 1];
            if t.url == *url {
                return Some(t.clone());
            }
            i = i - 1;
        }
        proof {
            assert(self@.transcripts.take(0) =~= Seq::<TranscriptModel>::empty());
        }
        None
    }

    /// Cascade delete of transcript `id`: its segment rows and the transcript
    /// row itself are removed together; both survive or neither does. Rows of
    /// other transcripts, and the id counters, are untouched.
    pub fn delete(&mut self, id: i64)
        requires
            old(self)@.wf(),
        ensures
            final(self)@.wf(),
            final(self)@ == old(self)@.delete(id as int),
    {
        let ghost m = old(self)@;
        let tn = self.transcripts.len();
        let mut ts: Vec<Transcript> = Vec::new();
        let mut i: usize = 0;
        while i < tn
            invariant
                i <= tn,
                tn == self.transcripts@.len(),
                self@ == m,
                transcript_models(ts@) == m.transcripts.take(i as int).filter(not_id(id as int)),
            decreases tn - i,
        {
            let ghost seen = m.transcripts.take(i as int);
            proof {
                assert(m.transcripts.take(i as int + 1) =~= seen.push(m.transcripts[i as int]));
            }
            let t = &self.transcripts[i];
            if t.id != id {
                let ghost pre = ts@;
                ts.push(t.clone());
                proof {
                    assert(not_id(id as int)(m.transcripts[i as int]));
                    assert(transcript_models(ts@) =~= transcript_models(pre).push(t@));
                    assert(seen.push(m.transcripts[i as int]).filter(not_id(id as int))
                        == seen.filter(not_id(id as int)).push(m.transcripts[i as int]));
                }
            } else {
                proof {
                    assert(!not_id(id as int)(m.transcripts[i as int]));
                    assert(seen.push(m.transcripts[i as int]).filter(not_id(id as int))
                        == seen.filter(not_id(id as int)));
                }
            }
            i = i + 1;
        }
        let sn = self.segments.len();
        let mut rows: Vec<SegmentRow> = Vec::new();
        let mut j: usize = 0;
        while j < sn
            invariant
                j <= sn,
                sn == self.segments@.len(),
                self@ == m,
                row_models(rows@) == m.segments.take(j as int).filter(not_tid(id as int)),
            decreases sn - j,
        {
            let ghost seen = m.segments.take(j as int);
            proof {
                assert(m.segments.take(j as int + 1) =~= seen.push(m.segments[j as int]));
            }
            let row = &self.segments[j];
            if row.transcript_id != id {
                let ghost pre = rows@;
                rows.push(row.clone());
                proof {
                    assert(not_tid(id as int)(m.segments[j as int]));
                    assert(row_models(rows@) =~= row_models(pre).push(row@));
                    assert(seen.push(m.segments[j as int]).filter(not_tid(id as int))
                        == seen.filter(not_tid(id as int)).push(m.segments[j as int]));
                }
            } else {
                proof {
                    assert(!not_tid(id as int)(m.segments[j as int]));
                    assert(seen.push(m.segments[j as int]).filter(not_tid(id as int))
                        == seen.filter(not_tid(id as int)));
                }
            }
            j = j + 1;
        }
        self.transcripts = ts;
        self.segments = rows;
        proof {
            assert(m.transcripts.take(tn as int) =~= m.transcripts);
            assert(m.segments.take(sn as int) =~= m.segments);
            assert(self@ =~= m.delete(id as int));
            lemma_delete_preserves_wf(m, id as int);
        }
    }
}

/// Filtering keeps relative order: a strictly increasing key stays strictly
/// increasing on the rows the filter keeps.
proof fn lemma_filter_keeps_order<A>(s: Seq<A>, p: spec_fn(A) -> bool, key: spec_fn(A) -> int)
    requires
        forall|i: int, j: int| #![trigger s[i], s[j]] 0 <= i < j < s.len() ==> key(s[i]) < key(s[j]),
    ensures
        forall|i: int, j: int|
            #![trigger s.filter(p)[i], s.filter(p)[j]]
            0 <= i < j < s.filter(p).len() ==> key(s.filter(p)[i]) < key(s.filter(p)[j]),
    decreases s.len(),
{
    reveal(Seq::filter);
    if s.len() > 0 {
        let l = s.drop_last();
        assert(forall|i: int, j: int|
            #![trigger l[i], l[j]]
            0 <= i < j < l.len() ==> key(l[i]) < key(l[j]));
        lemma_filter_keeps_order(l, p, key);
        let f = s.filter(p);
        let fl = l.filter(p);
        assert forall|i: int, j: int| 0 <= i < j < f.len() implies key(f[i]) < key(f[j]) by {
            if p(s.last()) && j == f.len() - 1 {
                assert(f[j] == s.last());
                assert(f[i] == fl[i]);
                assert(fl.contains(fl[i]));
                assert(l.contains(fl[i]));
                let w = choose|k: int| 0 <= k < l.len() && l[k] == fl[i];
                assert(key(s[w]) < key(s.last()));
            } else {
                assert(f[i] == fl[i] && f[j] == fl[j]);
            }
        }
    }
}

/// A filter that keeps every element returns the sequence unchanged.
#[verifier::spinoff_prover]
#[verifier::rlimit(30)]
proof fn lemma_all_pos_filter_id<A>(s: Seq<A>, p: spec_fn(A) -> bool)
    requires
        forall|i: int| 0 <= i < s.len() ==> p(#[trigger] s[i]),
    ensures
        s.filter(p) == s,
    decreases s.len(),
{
    if s.len() == 0 {
        reveal(Seq::filter);
        assert(s.filter(p) =~= s);
    } else {
        let l = s.drop_last();
        assert forall|i: int| 0 <= i < l.len() implies p(#[trigger] l[i]) by {
            assert(l[i] == s[i]);
        }
        lemma_all_pos_filter_id(l, p);
        assert(p(s.last()));
        assert(l.push(s.last()) =~= s);
        assert(l.push(s.last()).filter(p) == l.filter(p).push(s.last()));
        assert(s.filter(p) == l.push(s.last()).filter(p));
    }
}

/// Cascade delete preserves the store invariant; in particular every
/// surviving segment still has its transcript.
pub proof fn lemma_delete_preserves_wf(m: StoreModel, id: int)
    requires
        m.wf(),
    ensures
        m.delete(id).wf(),
{
    let d = m.delete(id);
    lemma_filter_keeps_order(m.transcripts, not_id(id), |t: TranscriptModel| t.id);
    lemma_filter_keeps_order(m.transcripts, not_id(id), |t: TranscriptModel| t.created_at);
    lemma_filter_keeps_order(m.segments, not_tid(id), |r: SegmentRowModel| r.id);
    assert forall|i: int| 0 <= i < d.transcripts.len() implies {
        let t = #[trigger] d.transcripts[i];
        1 <= t.id < d.next_transcript_id && 1 <= t.created_at < d.next_stamp && t.duration == 0
    } by {
        assert(d.transcripts.contains(d.transcripts[i]));
        assert(m.transcripts.contains(d.transcripts[i]));
        let w = choose|k: int| 0 <= k < m.transcripts.len() && m.transcripts[k] == d.transcripts[i];
        assert(m.transcripts[w] == d.transcripts[i]);
    }
    assert forall|i: int| 0 <= i < d.segments.len() implies 1 <= (#[trigger] d.segments[i]).id
        < d.next_segment_id by {
        assert(d.segments.contains(d.segments[i]));
        assert(m.segments.contains(d.segments[i]));
        let w = choose|k: int| 0 <= k < m.segments.len() && m.segments[k] == d.segments[i];
        assert(m.segments[w] == d.segments[i]);
    }
    assert forall|i: int| 0 <= i < d.segments.len() implies d.has_transcript(
        (#[trigger] d.segments[i]).transcript_id,
    ) by {
        let row = d.segments[i];
        assert(not_tid(id)(row));
        assert(d.segments.contains(row));
        assert(m.segments.contains(row));
        let w = choose|k: int| 0 <= k < m.segments.len() && m.segments[k] == row;
        assert(m.has_transcript(row.transcript_id));
        let k = choose|k: int|
            0 <= k < m.transcripts.len() && (#[trigger] m.transcripts[k]).id == row.transcript_id;
        assert(not_id(id)(m.transcripts[k]));
        assert(d.transcripts.contains(m.transcripts[k]));
        let v = choose|v: int| 0 <= v < d.transcripts.len() && d.transcripts[v] == m.transcripts[k];
        assert(d.transcripts[v].id == row.transcript_id);
    }
}

/// After a save, the rows stored for the fresh id are exactly the saved
/// segments, in order, under consecutive fresh row ids — none missing, none
/// duplicated, none borrowed from an older transcript.
pub proof fn lemma_save_then_rows_for(m: StoreModel, url: Seq<char>, segs: Seq<SegModel>)
    requires
        m.wf(),
        m.can_save(segs.len()),
    ensures
        ({
            let (m2, id) = m.save(url, segs);
            &&& m2.rows_for(id) == new_rows(segs, id, m.next_segment_id)
            &&& rows_to_segs(m2.rows_for(id)) == segs
            &&& rows_to_segs(m2.rows_for(id)).to_multiset() == segs.to_multiset()
        }),
{
    let (m2, id) = m.save(url, segs);
    let rows = new_rows(segs, id, m.next_segment_id);
    assert forall|i: int| 0 <= i < m.segments.len() implies !(is_tid(id)(
        #[trigger] m.segments[i],
    )) by {
        let k = choose|k: int|
            0 <= k < m.transcripts.len() && (#[trigger] m.transcripts[k]).id
                == m.segments[i].transcript_id;
        assert(m.transcripts[k].id < m.next_transcript_id);
    }
    assert(m.segments.all(|r: SegmentRowModel| !(is_tid(id)(r))));
    m.segments.lemma_all_neg_filter_empty(is_tid(id));
    assert(m.segments.filter(is_tid(id)) =~= Seq::<SegmentRowModel>::empty());
    assert forall|i: int| 0 <= i < rows.len() implies is_tid(id)(#[trigger] rows[i]) by {}
    lemma_all_pos_filter_id(rows, is_tid(id));
    assert((m.segments + rows).filter(is_tid(id)) == m.segments.filter(is_tid(id)) + rows.filter(
        is_tid(id),
    ));
    assert(m2.rows_for(id) =~= rows);
    assert(rows_to_segs(rows) =~= segs);
}

/// Two saved runs never share a row: after saving two runs, the rows for each
/// returned id are exactly that run's own segments, with nothing interleaved
/// from the other.
/// A save touches no other transcript's rows: what is stored for any other id
/// is exactly what was stored before.
pub proof fn lemma_save_keeps_other_rows(
    m: StoreModel,
    url: Seq<char>,
    segs: Seq<SegModel>,
    other: int,
)
    requires
        other != m.next_transcript_id,
    ensures
        m.save(url, segs).0.rows_for(other) == m.rows_for(other),
{
    let (m2, id) = m.save(url, segs);
    let rows = new_rows(segs, id, m.next_segment_id);
    assert forall|i: int| 0 <= i < rows.len() implies !(is_tid(other)(#[trigger] rows[i])) by {}
    assert(rows.all(|r: SegmentRowModel| !(is_tid(other)(r))));
    rows.lemma_all_neg_filter_empty(is_tid(other));
    assert(rows.filter(is_tid(other)) =~= Seq::<SegmentRowModel>::empty());
    assert((m.segments + rows).filter(is_tid(other)) == m.segments.filter(is_tid(other))
        + rows.filter(is_tid(other)));
    assert(m2.rows_for(other) =~= m.rows_for(other));
}

#[verifier::spinoff_prover]
pub proof fn lemma_saves_are_isolated(
    m: StoreModel,
    u1: Seq<char>,
    s1: Seq<SegModel>,
    u2: Seq<char>,
    s2: Seq<SegModel>,
)
    requires
        m.wf(),
        m.can_save(s1.len()),
        m.save(u1, s1).0.can_save(s2.len()),
    ensures
        ({
            let (m1, id1) = m.save(u1, s1);
            let (m2, id2) = m1.save(u2, s2);
            &&& id1 != id2
            &&& m2.wf()
            &&& m2.rows_for(id1) == new_rows(s1, id1, m.next_segment_id)
            &&& m2.rows_for(id2) == new_rows(s2, id2, m1.next_segment_id)
            &&& rows_to_segs(m2.rows_for(id1)) == s1
            &&& rows_to_segs(m2.rows_for(id2)) == s2
        }),
{
    let (m1, id1) = m.save(u1, s1);
    let (m2, id2) = m1.save(u2, s2);
    lemma_save_preserves_wf(m, u1, s1);
    lemma_save_preserves_wf(m1, u2, s2);
    lemma_save_then_rows_for(m, u1, s1);
    lemma_save_then_rows_for(m1, u2, s2);
    lemma_save_keeps_other_rows(m1, u2, s2, id1);
}

/// After a cascade delete, the id is gone from both tables: looking the
/// transcript up finds nothing, and no segment row for it remains.
pub proof fn lemma_delete_removes_all(m: StoreModel, id: int)
    requires
        m.wf(),
    ensures
        m.delete(id).wf(),
        !m.delete(id).has_transcript(id),
        m.delete(id).find(id) is None,
        m.delete(id).rows_for(id) == Seq::<SegmentRowModel>::empty(),
{
    let d = m.delete(id);
    lemma_delete_preserves_wf(m, id);
    assert forall|i: int| 0 <= i < d.transcripts.len() implies (#[trigger] d.transcripts[i]).id
        != id by {
        assert(not_id(id)(d.transcripts[i]));
    }
    lemma_find_none(d.transcripts, id);
    assert forall|i: int| 0 <= i < d.segments.len() implies !(is_tid(id)(
        #[trigger] d.segments[i],
    )) by {
        assert(not_tid(id)(d.segments[i]));
    }
    assert(d.segments.all(|r: SegmentRowModel| !(is_tid(id)(r))));
    d.segments.lemma_all_neg_filter_empty(is_tid(id));
    assert(d.rows_for(id) =~= Seq::<SegmentRowModel>::empty());
}

} // verus!

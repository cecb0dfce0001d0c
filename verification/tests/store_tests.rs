use subtitles::Segment;
use subtitles::store::StoreError;
use subtitles::store::TranscriptStore;

fn seg(start_cs: i64, end_cs: i64, text: &str) -> Segment {
    Segment::new(start_cs, end_cs, text.to_owned())
}

#[test]
fn save_assigns_fresh_ids_and_zero_duration() {
    let mut store = TranscriptStore::new();
    let id1 = store.save("http://example/a".to_owned(), vec![seg(0, 10, "x")]).unwrap();
    let id2 = store.save("http://example/b".to_owned(), vec![]).unwrap();
    assert_ne!(id1, id2);
    let t1 = store.get(id1).unwrap();
    assert_eq!(t1.id, id1);
    assert_eq!(t1.url, "http://example/a");
    assert_eq!(t1.duration, 0);
    let t2 = store.get(id2).unwrap();
    assert!(t2.created_at > t1.created_at);
}

#[test]
fn segments_come_back_sorted_by_start_with_nothing_lost() {
    let mut store = TranscriptStore::new();
    let segs = vec![
        seg(120, 250, "world"),
        seg(0, 120, "hello"),
        seg(120, 130, "again"),
    ];
    let id = store.save("http://example/v".to_owned(), segs).unwrap();
    let rows = store.segments_for(id);
    assert_eq!(rows.len(), 3);
    // Ordered by start, ascending.
    assert!(rows[0].start_cs <= rows[1].start_cs && rows[1].start_cs <= rows[2].start_cs);
    assert_eq!(rows[0].start_cs, 0);
    assert_eq!(rows[0].end_cs, 120);
    assert_eq!(rows[0].text, "hello");
    // Rows tied on start keep their saved (row-id) order: "world" was saved
    // before "again", so it comes first among the two rows starting at 120.
    assert_eq!(rows[1].start_cs, 120);
    assert_eq!(rows[1].end_cs, 250);
    assert_eq!(rows[1].text, "world");
    assert_eq!(rows[2].start_cs, 120);
    assert_eq!(rows[2].end_cs, 130);
    assert_eq!(rows[2].text, "again");
    assert!(rows[1].id < rows[2].id);
    // Every row belongs to the saved transcript and carries its own id.
    assert!(rows.iter().all(|r| r.transcript_id == id));
    assert_ne!(rows[0].id, rows[1].id);
    assert_ne!(rows[1].id, rows[2].id);
    assert_ne!(rows[0].id, rows[2].id);
}

#[test]
fn delete_removes_transcript_and_all_its_segments() {
    let mut store = TranscriptStore::new();
    let id = store.save("http://example/v".to_owned(), vec![seg(0, 10, "a"), seg(10, 20, "b")])
        .unwrap();
    let other = store.save("http://example/w".to_owned(), vec![seg(5, 6, "keep")]).unwrap();
    store.delete(id);
    assert!(matches!(store.get(id), Err(StoreError::NotFound)));
    assert!(store.segments_for(id).is_empty());
    // The other transcript and its segments survive untouched.
    assert!(store.get(other).is_ok());
    let kept = store.segments_for(other);
    assert_eq!(kept.len(), 1);
    assert_eq!(kept[0].text, "keep");
}

#[test]
fn get_unknown_id_is_not_found() {
    let store = TranscriptStore::new();
    assert!(matches!(store.get(7), Err(StoreError::NotFound)));
}

#[test]
fn list_returns_most_recent_first() {
    let mut store = TranscriptStore::new();
    let a = store.save("http://example/a".to_owned(), vec![]).unwrap();
    let b = store.save("http://example/b".to_owned(), vec![]).unwrap();
    let c = store.save("http://example/c".to_owned(), vec![]).unwrap();
    let all = store.list();
    assert_eq!(all.len(), 3);
    assert_eq!(all[0].id, c);
    assert_eq!(all[1].id, b);
    assert_eq!(all[2].id, a);
    assert!(all[0].created_at > all[1].created_at && all[1].created_at > all[2].created_at);
}

#[test]
fn two_saved_runs_never_share_a_row() {
    let mut store = TranscriptStore::new();
    let id1 = store.save("http://example/one".to_owned(), vec![seg(0, 1, "p"), seg(1, 2, "q")])
        .unwrap();
    let id2 = store.save("http://example/two".to_owned(), vec![seg(0, 1, "r")]).unwrap();
    assert_ne!(id1, id2);
    let rows1 = store.segments_for(id1);
    let rows2 = store.segments_for(id2);
    assert_eq!(rows1.len(), 2);
    assert_eq!(rows2.len(), 1);
    assert!(rows1.iter().all(|r| r.transcript_id == id1));
    assert!(rows2.iter().all(|r| r.transcript_id == id2));
    let texts1: Vec<&str> = rows1.iter().map(|r| r.text.as_str()).collect();
    assert!(texts1.contains(&"p") && texts1.contains(&"q") && !texts1.contains(&"r"));
    assert_eq!(rows2[0].text, "r");
}

#[test]
fn find_by_url_picks_most_recent_match() {
    let mut store = TranscriptStore::new();
    let first = store.save("http://example/v".to_owned(), vec![]).unwrap();
    let second = store.save("http://example/v".to_owned(), vec![]).unwrap();
    store.save("http://example/other".to_owned(), vec![]).unwrap();
    let found = store.find_by_url(&"http://example/v".to_owned()).unwrap();
    assert_eq!(found.id, second);
    assert_ne!(found.id, first);
    assert!(store.find_by_url(&"http://example/absent".to_owned()).is_none());
}

#[test]
fn empty_segment_list_saves_and_reads_back_empty() {
    let mut store = TranscriptStore::new();
    let id = store.save("http://example/v".to_owned(), vec![]).unwrap();
    assert!(store.segments_for(id).is_empty());
    assert!(store.get(id).is_ok());
}

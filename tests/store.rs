use watch::db::{Database, DbError, Episode, Series};
use watch::media::{filter_videos, is_video_file};
use watch::order::name_less;

fn names(v: &[&str]) -> Vec<String> {
    v.iter().map(|s| s.to_string()).collect()
}

fn listing(db: &Database) -> Vec<(String, bool)> {
    let mut out = Vec::new();
    for i in 0..db.series.len() {
        let e = db.series.episode(i);
        out.push((e.name().clone(), e.watched()));
    }
    out
}

fn empty_store() -> Database {
    Database::init("/shows/x".to_string(), None).unwrap()
}

#[test]
fn reconcile_twice_is_idempotent() {
    let mut db = empty_store();
    db.insert(&names(&["a.mkv"]), "/shows/x".to_string());
    db.watch_up_to(1).unwrap();
    db.insert(&names(&["a.mkv", "b.mkv"]), "/shows/x".to_string());
    let once = listing(&db);
    assert_eq!(once, vec![("a.mkv".to_string(), true), ("b.mkv".to_string(), false)]);
    db.mark_saved();
    db.insert(&names(&["a.mkv", "b.mkv"]), "/shows/x".to_string());
    assert_eq!(listing(&db), once);
    assert!(!db.is_dirty());
}

#[test]
fn reconcile_sorts_and_dedups() {
    let mut db = empty_store();
    db.insert(&names(&["c.mkv", "a.mkv", "b.mp4", "a.mkv"]), "/shows/x".to_string());
    let l = listing(&db);
    assert_eq!(l.len(), 3);
    for w in l.windows(2) {
        assert!(w[0].0 < w[1].0);
    }
    assert!(db.is_dirty());
}

#[test]
fn reconcile_empty_is_noop() {
    let mut db = empty_store();
    db.insert(&Vec::new(), "/shows/x".to_string());
    assert_eq!(db.series.len(), 0);
    assert!(!db.is_dirty());
}

#[test]
fn reconcile_new_directory_marks_dirty() {
    let mut db = empty_store();
    db.insert(&Vec::new(), "/shows/y".to_string());
    assert_eq!(db.series.dir, "/shows/y");
    assert!(db.is_dirty());
}

#[test]
fn byte_order_of_names() {
    let mut db = empty_store();
    db.insert(&names(&["b.mkv", "\u{e9}.mkv", "B.mkv", "a.mkv"]), "/shows/x".to_string());
    let l: Vec<String> = listing(&db).into_iter().map(|p| p.0).collect();
    assert_eq!(l, names(&["B.mkv", "a.mkv", "b.mkv", "\u{e9}.mkv"]));
    assert!(name_less(&"ab".to_string(), &"abc".to_string()));
    assert!(!name_less(&"abc".to_string(), &"abc".to_string()));
    assert!(!name_less(&"b".to_string(), &"abc".to_string()));
}

#[test]
fn next_episode_is_alphabetically_first() {
    let mut db = empty_store();
    db.insert(&names(&["b.mkv", "a.mkv"]), "/shows/x".to_string());
    let next = db.find_next_unwatched().unwrap();
    assert_eq!(next.name(), "a.mkv");
    assert!(!next.watched());
}

#[test]
fn next_episode_none_when_all_watched() {
    let mut db = empty_store();
    assert!(db.find_next_unwatched().is_none());
    db.insert(&names(&["a.mkv"]), "/shows/x".to_string());
    db.watch_up_to(1).unwrap();
    assert!(db.find_next_unwatched().is_none());
    db.mark_saved();
    assert_eq!(db.watch_next(true), Ok(()));
    assert!(!db.is_dirty());
}

#[test]
fn watch_next_success_is_persisted() {
    let mut db = empty_store();
    db.insert(&names(&["b.mkv", "a.mkv"]), "/shows/x".to_string());
    db.mark_saved();
    assert_eq!(db.find_next_unwatched().unwrap().name(), "a.mkv");
    assert_eq!(db.watch_next(true), Ok(()));
    assert!(db.is_dirty());
    assert_eq!(listing(&db), vec![("a.mkv".to_string(), true), ("b.mkv".to_string(), false)]);
    let bytes = db.pending_record().unwrap().unwrap();
    let reloaded = Database::init("/shows/x".to_string(), Some(bytes)).unwrap();
    assert_eq!(listing(&reloaded), listing(&db));
    assert_eq!(reloaded.find_next_unwatched().unwrap().name(), "b.mkv");
}

#[test]
fn watch_next_launch_failure_changes_nothing() {
    let mut db = empty_store();
    db.insert(&names(&["a.mkv", "b.mkv"]), "/shows/x".to_string());
    db.mark_saved();
    let before = listing(&db);
    assert_eq!(db.watch_next(false), Err(DbError::LaunchFailure));
    assert_eq!(listing(&db), before);
    assert!(!db.is_dirty());
    assert_eq!(db.pending_record(), Ok(None));
}

#[test]
fn watch_up_to_boundary() {
    let mut db = empty_store();
    db.insert(&names(&["a.mkv", "b.mkv", "c.mkv"]), "/shows/x".to_string());
    assert_eq!(db.watch_up_to(3), Ok(()));
    assert!(listing(&db).iter().all(|p| p.1));

    let mut db = empty_store();
    db.insert(&names(&["a.mkv", "b.mkv", "c.mkv"]), "/shows/x".to_string());
    db.watch_up_to(1).unwrap();
    db.mark_saved();
    let before = listing(&db);
    assert_eq!(db.watch_up_to(4), Err(DbError::EpisodeNotFound));
    assert_eq!(listing(&db), before);
    assert!(!db.is_dirty());
}

#[test]
fn watch_up_to_keeps_later_flags() {
    let mut db = empty_store();
    db.insert(&names(&["a.mkv", "b.mkv", "c.mkv"]), "/shows/x".to_string());
    db.mark_single_watched(&"c.mkv".to_string());
    db.watch_up_to(1).unwrap();
    assert_eq!(
        listing(&db),
        vec![("a.mkv".to_string(), true), ("b.mkv".to_string(), false), ("c.mkv".to_string(), true)]
    );
    assert_eq!(db.watch_up_to(0), Ok(()));
}

#[test]
fn mark_single_watched_unknown_name() {
    let mut db = empty_store();
    db.insert(&names(&["a.mkv"]), "/shows/x".to_string());
    db.mark_saved();
    db.mark_single_watched(&"z.mkv".to_string());
    assert_eq!(listing(&db), vec![("a.mkv".to_string(), false)]);
    assert!(!db.is_dirty());
    db.mark_single_watched(&"a.mkv".to_string());
    assert_eq!(listing(&db), vec![("a.mkv".to_string(), true)]);
    assert!(db.is_dirty());
}

#[test]
fn record_round_trip() {
    let mut db = empty_store();
    db.insert(&names(&["x.mp4", "y.mkv", "w.mkv"]), "/media/show".to_string());
    db.watch_up_to(2).unwrap();
    let bytes = Database::serialize(&db.series).unwrap();
    let back = Database::deserialize(&bytes).unwrap();
    assert_eq!(back.dir(), "/media/show");
    let again = Database::from_series(back);
    assert_eq!(listing(&again), listing(&db));
}

#[test]
fn record_matches_bincode_of_fields() {
    let mut db = empty_store();
    db.insert(&names(&["a.mkv"]), "/d".to_string());
    let bytes = Database::serialize(&db.series).unwrap();
    let expected =
        bincode::serialize(&("/d".to_string(), vec![("a.mkv".to_string(), false)])).unwrap();
    assert_eq!(bytes, expected);
    assert_eq!(bytes.len(), 8 + 2 + 8 + 8 + 5 + 1);
}

#[test]
fn serialize_is_deterministic_and_distinguishes() {
    let mut a = empty_store();
    a.insert(&names(&["a.mkv", "b.mkv"]), "/d".to_string());
    let mut b = empty_store();
    b.insert(&names(&["b.mkv", "a.mkv"]), "/d".to_string());
    assert_eq!(Database::serialize(&a.series), Database::serialize(&b.series));
    b.watch_up_to(1).unwrap();
    assert_ne!(Database::serialize(&a.series), Database::serialize(&b.series));
}

#[test]
fn short_and_empty_records_are_refused() {
    assert_eq!(Database::deserialize(&[]).err(), Some(DbError::RecordCorrupt));
    assert_eq!(Database::init("/d".to_string(), Some(Vec::new())).err(), Some(DbError::RecordCorrupt));
    assert_eq!(Database::deserialize(&[0u8; 15]).err(), Some(DbError::RecordCorrupt));
    let empty = bincode::serialize(&(String::new(), Vec::<(String, bool)>::new())).unwrap();
    assert_eq!(empty.len(), 16);
    assert_eq!(Database::deserialize(&empty).unwrap().len(), 0);
}

#[test]
fn record_with_trailing_bytes_is_read() {
    let mut db = empty_store();
    db.insert(&names(&["a.mkv"]), "/d".to_string());
    let mut bytes = Database::serialize(&db.series).unwrap();
    bytes.push(7);
    let back = Database::deserialize(&bytes).unwrap();
    assert_eq!(back.episode(0).name(), "a.mkv");
}

#[test]
fn corrupt_record_is_refused() {
    assert_eq!(Database::deserialize(&[1, 2, 3]).err(), Some(DbError::RecordCorrupt));
    let unsorted =
        bincode::serialize(&("/d".to_string(), vec![("b".to_string(), false), ("a".to_string(), true)]))
            .unwrap();
    assert_eq!(Database::deserialize(&unsorted).err(), Some(DbError::RecordCorrupt));
    let dup =
        bincode::serialize(&("/d".to_string(), vec![("a".to_string(), false), ("a".to_string(), true)]))
            .unwrap();
    assert_eq!(Database::init("/d".to_string(), Some(dup)).err(), Some(DbError::RecordCorrupt));
}

#[test]
fn fresh_load_saves_nothing() {
    let mut db = empty_store();
    assert_eq!(db.pending_record(), Ok(None));
    db.insert(&names(&["a.mkv"]), "/shows/x".to_string());
    let bytes = db.pending_record().unwrap().unwrap();
    let loaded = Database::init("/shows/x".to_string(), Some(bytes)).unwrap();
    assert!(!loaded.is_dirty());
    assert_eq!(loaded.pending_record(), Ok(None));
}

#[test]
fn series_from_parts() {
    let s = Series::from_parts("/d".to_string(), vec![("a".to_string(), true), ("b".to_string(), false)]);
    let s = s.unwrap();
    assert_eq!(s.len(), 2);
    assert!(s.episode(0).watched());
    assert!(Series::from_parts("/d".to_string(), vec![("b".to_string(), true), ("a".to_string(), false)]).is_none());
    assert_eq!(Series::new("/e".to_string()).len(), 0);
}

#[test]
fn new_episode_is_unwatched() {
    let e = Episode::new("a.mkv".to_string());
    assert_eq!(e.name(), "a.mkv");
    assert!(!e.watched());
}

#[test]
fn video_file_recognition() {
    assert!(is_video_file("a.mkv"));
    assert!(is_video_file("show s01e02.mp4"));
    assert!(is_video_file(".mkv"));
    assert!(!is_video_file("a.avi"));
    assert!(!is_video_file("mkv"));
    assert!(!is_video_file("a.mkv.txt"));
    assert!(!is_video_file("a.MKV"));
    assert!(!is_video_file(""));
}

#[test]
fn filter_keeps_videos_in_order() {
    let files = names(&["z.mp4", "notes.txt", "a.mkv", "b.srt"]);
    assert_eq!(filter_videos(&files), names(&["z.mp4", "a.mkv"]));
}

#[test]
fn add_requires_media() {
    let mut db = empty_store();
    assert_eq!(db.add(&names(&["notes.txt"]), "/shows/x".to_string()), Err(DbError::NoMedia));
    assert_eq!(db.series.len(), 0);
    assert!(!db.is_dirty());
    assert_eq!(db.add(&names(&["notes.txt", "b.mkv", "a.mp4"]), "/shows/x".to_string()), Ok(()));
    assert_eq!(listing(&db), vec![("a.mp4".to_string(), false), ("b.mkv".to_string(), false)]);
}

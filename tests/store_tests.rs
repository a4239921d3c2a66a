use audio_fingerprint::error::Error;
use audio_fingerprint::hash::PairRecord;
use audio_fingerprint::matcher::{match_fingerprints, score_matches, MatchScore};
use audio_fingerprint::store::{add_track, FingerprintRow, FingerprintStore};
use std::collections::HashMap;

fn rec(hash: u32, time_a: u32) -> PairRecord {
    PairRecord { hash, time_a }
}

fn query_of(records: &[PairRecord]) -> HashMap<u32, PairRecord> {
    records.iter().map(|r| (r.hash, *r)).collect()
}

#[test]
fn add_track_assigns_ids_and_is_idempotent_per_title() {
    let mut store = FingerprintStore::new();
    assert_eq!(add_track(&mut store, "first"), Ok(1));
    assert_eq!(add_track(&mut store, "second"), Ok(2));
    assert_eq!(add_track(&mut store, "first"), Ok(1));
    assert_eq!(add_track(&mut store, "third"), Ok(3));
}

#[test]
fn restored_tracks_keep_their_ids() {
    let mut store = FingerprintStore::new();
    assert_eq!(store.restore_track(7, "seven"), Ok(()));
    assert_eq!(store.restore_track(7, "other"), Err(Error::Store));
    assert_eq!(store.restore_track(8, "seven"), Err(Error::Store));
    assert_eq!(store.restore_track(u32::MAX, "max"), Err(Error::Store));
    assert_eq!(add_track(&mut store, "seven"), Ok(7));
    assert_eq!(add_track(&mut store, "new"), Ok(8));
}

#[test]
fn identifiers_can_run_out() {
    let mut store = FingerprintStore::new();
    assert_eq!(store.restore_track(u32::MAX - 1, "last"), Ok(()));
    assert_eq!(add_track(&mut store, "one more"), Err(Error::Store));
    assert_eq!(add_track(&mut store, "last"), Ok(u32::MAX - 1));
}

#[test]
fn replace_fingerprints_overwrites_one_track() {
    let mut store = FingerprintStore::new();
    let a = add_track(&mut store, "a").unwrap();
    let b = add_track(&mut store, "b").unwrap();
    store.replace_fingerprints(a, &vec![rec(1, 0), rec(2, 3)]);
    store.replace_fingerprints(b, &vec![rec(1, 5)]);
    store.replace_fingerprints(a, &vec![rec(3, 1), rec(3, 1), rec(4, 2)]);
    let all = query_of(&[rec(1, 0), rec(2, 0), rec(3, 0), rec(4, 0)]);
    // The rows of `a` are exactly the new records, duplicates included.
    assert_eq!(store.fingerprints_for(a, &all), vec![rec(3, 1), rec(3, 1), rec(4, 2)]);
    assert_eq!(store.fingerprints_for(b, &all), vec![rec(1, 5)]);
    store.replace_fingerprints(a, &Vec::new());
    assert_eq!(store.fingerprints_for(a, &all), Vec::<PairRecord>::new());
}

#[test]
fn store_queries_by_hash() {
    let mut store = FingerprintStore::new();
    let a = add_track(&mut store, "a").unwrap();
    let b = add_track(&mut store, "b").unwrap();
    let c = add_track(&mut store, "c").unwrap();
    store.replace_fingerprints(b, &vec![rec(10, 0), rec(11, 1)]);
    store.replace_fingerprints(a, &vec![rec(11, 2), rec(12, 3)]);
    store.replace_fingerprints(c, &vec![rec(99, 0)]);
    let q = query_of(&[rec(11, 0), rec(12, 0)]);
    assert_eq!(store.distinct_tracks_with_any_hash(&q), vec![b, a]);
    assert_eq!(store.fingerprints_for(a, &q), vec![rec(11, 2), rec(12, 3)]);
    assert_eq!(store.fingerprints_for(b, &q), vec![rec(11, 1)]);
    assert_eq!(store.fingerprints_for(c, &q), Vec::<PairRecord>::new());
    let titles = store.track_titles(&vec![c, a, 42]);
    let named: Vec<(u32, String)> = titles.into_iter().map(|t| (t.track_id, t.title)).collect();
    assert_eq!(named, vec![(a, "a".to_string()), (c, "c".to_string())]);
}

#[test]
fn loaded_rows_are_queryable() {
    let mut store = FingerprintStore::new();
    store.restore_track(3, "x").unwrap();
    store.load_rows(&vec![
        FingerprintRow { hash: 1, track_time: 4, track_id: 3 },
        FingerprintRow { hash: 2, track_time: 6, track_id: 3 },
    ]);
    let q = query_of(&[rec(2, 0)]);
    assert_eq!(store.fingerprints_for(3, &q), vec![rec(2, 6)]);
}

#[test]
fn score_takes_the_fullest_lowest_offset() {
    let q = query_of(&[rec(1, 2), rec(2, 5), rec(3, 0), rec(4, 9)]);
    // Offsets: 1 -> 3, 2 -> 3, 3 -> 7, 3 -> 7, 4 -> negative (skipped), 9 -> not in query.
    let rows = vec![rec(1, 5), rec(2, 8), rec(3, 7), rec(3, 7), rec(4, 1), rec(9, 50)];
    assert_eq!(score_matches(&q, &rows), MatchScore { best_offset: 3, count: 2, distinct_offsets: 2 });
    let rows = vec![rec(3, 7), rec(1, 5), rec(3, 7), rec(2, 8), rec(3, 7)];
    assert_eq!(score_matches(&q, &rows), MatchScore { best_offset: 7, count: 3, distinct_offsets: 2 });
}

#[test]
fn score_of_no_alignment_is_empty() {
    let q = query_of(&[rec(1, 10)]);
    assert_eq!(score_matches(&q, &Vec::new()), MatchScore { best_offset: 0, count: 0, distinct_offsets: 0 });
    assert_eq!(score_matches(&q, &vec![rec(1, 3)]), MatchScore { best_offset: 0, count: 0, distinct_offsets: 0 });
}

#[test]
fn matching_reports_each_candidate_in_table_order() {
    let mut store = FingerprintStore::new();
    let a = add_track(&mut store, "a").unwrap();
    let b = add_track(&mut store, "b").unwrap();
    let c = add_track(&mut store, "c").unwrap();
    store.replace_fingerprints(b, &vec![rec(1, 4), rec(2, 9)]);
    store.replace_fingerprints(a, &vec![rec(1, 2), rec(2, 3), rec(3, 4)]);
    store.replace_fingerprints(c, &vec![rec(77, 0)]);
    let q = query_of(&[rec(1, 0), rec(2, 1), rec(3, 2)]);
    let found = match_fingerprints(&store, &q);
    assert_eq!(found.len(), 2);
    assert_eq!((found[0].track_id, found[0].title.as_str()), (a, "a"));
    assert_eq!((found[0].best_offset, found[0].count, found[0].distinct_offsets), (2, 3, 1));
    assert_eq!((found[1].track_id, found[1].title.as_str()), (b, "b"));
    assert_eq!((found[1].best_offset, found[1].count, found[1].distinct_offsets), (4, 1, 2));
}

#[test]
fn empty_query_has_no_candidates() {
    let mut store = FingerprintStore::new();
    let a = add_track(&mut store, "a").unwrap();
    store.replace_fingerprints(a, &vec![rec(1, 0)]);
    assert!(match_fingerprints(&store, &HashMap::new()).is_empty());
}

#[test]
fn self_match_counts_every_fingerprint_at_offset_zero() {
    let mut store = FingerprintStore::new();
    let a = add_track(&mut store, "a").unwrap();
    let q = query_of(&[rec(5, 0), rec(6, 3), rec(7, 3), rec(8, 12)]);
    let records = audio_fingerprint::hash::records_of(&q);
    store.replace_fingerprints(a, &records);
    let found = match_fingerprints(&store, &q);
    assert_eq!(found.len(), 1);
    assert_eq!((found[0].best_offset, found[0].count), (0, q.len()));
}

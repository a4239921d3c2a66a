use vstd::prelude::*;
use std::collections::HashMap;

use crate::hash::PairRecord;
use crate::store::{
    has_track_id, matching_records, row_of, rows_without, tracks_among, tracks_hit, tracks_view,
    FingerprintRow, FingerprintStore, StoreState,
};

verus! {

broadcast use vstd::std_specs::hash::group_hash_axioms;

/// The alignment of one candidate track with a query: the time offset (in windows)
/// shared by the most matching fingerprints, how many share it, and how many distinct
/// offsets occur.
#[derive(Debug, Clone, Copy, PartialEq, Eq, Structural)]
pub struct MatchScore {
    pub best_offset: u32,
    pub count: usize,
    pub distinct_offsets: usize,
}

/// A candidate track for a query, with its score.
#[derive(Debug)]
pub struct Candidate {
    pub track_id: u32,
    pub title: String,
    pub best_offset: u32,
    pub count: usize,
    pub distinct_offsets: usize,
}

/// The offset from the query's anchor time to a track record's anchor time, when the
/// record's hash is in the query and the offset is not negative.
pub open spec fn offset_of(query: Map<u32, PairRecord>, r: PairRecord) -> Option<u32> {
    if query.contains_key(r.hash) && r.time_a >= query[r.hash].time_a {
        Some((r.time_a - query[r.hash].time_a) as u32)
    } else {
        None
    }
}

/// How many of `rows` align with the query at offset `k`: the histogram bin `k`.
pub open spec fn offset_count(query: Map<u32, PairRecord>, rows: Seq<PairRecord>, k: u32) -> nat
    decreases rows.len(),
{
    if rows.len() == 0 {
        0
    } else {
        offset_count(query, rows.drop_last(), k) + if offset_of(query, rows.last()) == Some(k) {
            1nat
        } else {
            0nat
        }
    }
}

/// Whether bin `best_offset` holds `count`, the largest count of the histogram, and
/// no lower offset holds as many.
pub open spec fn is_best_bin(
    query: Map<u32, PairRecord>,
    rows: Seq<PairRecord>,
    best_offset: u32,
    count: nat,
) -> bool {
    &&& offset_count(query, rows, best_offset) == count
    &&& forall|k: u32| #[trigger] offset_count(query, rows, k) <= count
    &&& forall|k: u32| k < best_offset ==> #[trigger] offset_count(query, rows, k) < count
}

/// The offsets whose histogram bin is not empty.
pub open spec fn offsets_seen(query: Map<u32, PairRecord>, rows: Seq<PairRecord>) -> Set<u32> {
    Set::new(|k: u32| offset_count(query, rows, k) > 0)
}

/// Whether `s` is the score of `rows` against the query.
pub open spec fn is_score(query: Map<u32, PairRecord>, rows: Seq<PairRecord>, s: MatchScore) -> bool {
    &&& is_best_bin(query, rows, s.best_offset, s.count as nat)
    &&& s.distinct_offsets == offsets_seen(query, rows).len()
}

proof fn lemma_offset_count_bounded(query: Map<u32, PairRecord>, rows: Seq<PairRecord>, k: u32)
    ensures
        offset_count(query, rows, k) <= rows.len(),
    decreases rows.len(),
{
    if rows.len() > 0 {
        lemma_offset_count_bounded(query, rows.drop_last(), k);
    }
}

/// Scores a track's matching records against the query: a histogram of the offsets
/// `track time - query time` (negative offsets are not counted), its fullest bin
/// (the lowest offset among equals), and the number of non-empty bins.
pub fn score_matches(query: &HashMap<u32, PairRecord>, rows: &Vec<PairRecord>) -> (r: MatchScore)
    ensures
        is_score(query@, rows@, r),
{
    let ghost q = query@;
    let ghost all = rows@;
    let mut bins: HashMap<u32, usize> = HashMap::new();
    let mut best_offset: u32 = 0;
    let mut best_count: usize = 0;
    let mut distinct: usize = 0;
    let n = rows.len();
    let mut i: usize = 0;
    while i < n
        invariant
            0 <= i <= n,
            n == all.len(),
            all == rows@,
            q == query@,
            forall|k: u32|
                bins@.contains_key(k) <==> #[trigger] offset_count(q, all.take(i as int), k) > 0,
            forall|k: u32|
                bins@.contains_key(k) ==> bins@[k] == #[trigger] offset_count(
                    q,
                    all.take(i as int),
                    k,
                ),
            is_best_bin(q, all.take(i as int), best_offset, best_count as nat),
            distinct == bins@.dom().len(),
            distinct <= i,
            bins@.dom().finite(),
        decreases n - i,
    {
        let ghost prefix = all.take(i as int);
        let ghost next = all.take(i + 1);
        assert(next.drop_last() == prefix);
        let record = rows[i];
        assert(next.last() == record);
        proof {
            assert forall|k: u32| #[trigger]
                offset_count(q, next, k) == offset_count(q, prefix, k) + if offset_of(q, record)
                    == Some(k) {
                    1nat
                } else {
                    0nat
                } by {}
        }
        match query.get(&record.hash) {
            Some(sample) => {
                if record.time_a >= sample.time_a {
                    let offset = record.time_a - sample.time_a;
                    assert(offset_of(q, record) == Some(offset));
                    proof {
                        lemma_offset_count_bounded(q, prefix, offset);
                    }
                    let current: usize = match bins.get(&offset) {
                        Some(c) => *c,
                        None => 0,
                    };
                    assert(current == offset_count(q, prefix, offset));
                    let count = current + 1;
                    if current == 0 {
                        assert(!bins@.dom().contains(offset));
                        distinct = distinct + 1;
                    }
                    bins.insert(offset, count);
                    if count > best_count || (count == best_count && offset < best_offset) {
                        best_offset = offset;
                        best_count = count;
                    }
                } else {
                    assert(offset_of(q, record) is None);
                }
            },
            None => {
                assert(offset_of(q, record) is None);
            },
        }
        i = i + 1;
    }
    assert(all.take(n as int) == all);
    assert(offsets_seen(q, all) =~= bins@.dom());
    MatchScore { best_offset, count: best_count, distinct_offsets: distinct }
}

/// The tracks that are candidates for a query: those, in table order, with a row
/// whose hash is in the query.
pub open spec fn candidate_tracks(store: StoreState, query: Map<u32, PairRecord>) -> Seq<
    (u32, Seq<char>),
> {
    tracks_among(store.tracks, tracks_hit(store.rows, query))
}

/// Whether `c` reports track `track` with the score of its records that match the query.
pub open spec fn reports(
    store: StoreState,
    query: Map<u32, PairRecord>,
    track: (u32, Seq<char>),
    c: Candidate,
) -> bool {
    &&& c.track_id == track.0
    &&& c.title@ == track.1
    &&& is_score(
        query,
        matching_records(store.rows, track.0, query),
        MatchScore { best_offset: c.best_offset, count: c.count, distinct_offsets: c.distinct_offsets },
    )
}

/// Matches a query's fingerprints against the store: one candidate per track that has
/// a fingerprint in the query, in table order, each scored by the histogram of its
/// time offsets. An empty query has no candidate.
pub fn match_fingerprints(store: &FingerprintStore, query: &HashMap<u32, PairRecord>) -> (r: Vec<
    Candidate,
>)
    ensures
        r@.len() == candidate_tracks(store@, query@).len(),
        forall|i: int|
            0 <= i < r@.len() ==> reports(
                store@,
                query@,
                candidate_tracks(store@, query@)[i],
                #[trigger] r@[i],
            ),
{
    let candidate_ids = store.distinct_tracks_with_any_hash(query);
    let tracks = store.track_titles(&candidate_ids);
    let ghost expected = candidate_tracks(store@, query@);
    assert(tracks_view(tracks@) == expected);
    let mut out: Vec<Candidate> = Vec::new();
    let n = tracks.len();
    for i in 0..n
        invariant
            n == tracks@.len(),
            tracks_view(tracks@) == expected,
            expected == candidate_tracks(store@, query@),
            out@.len() == i,
            forall|j: int|
                0 <= j < i ==> reports(store@, query@, expected[j], #[trigger] out@[j]),
    {
        let track = &tracks[i];
        assert(expected[i as int] == (track.track_id, track.title@));
        let rows = store.fingerprints_for(track.track_id, query);
        let score = score_matches(query, &rows);
        out.push(
            Candidate {
                track_id: track.track_id,
                title: track.title.clone(),
                best_offset: score.best_offset,
                count: score.count,
                distinct_offsets: score.distinct_offsets,
            },
        );
    }
    out
}

proof fn lemma_matching_concat(
    a: Seq<FingerprintRow>,
    b: Seq<FingerprintRow>,
    t: u32,
    q: Map<u32, PairRecord>,
)
    ensures
        matching_records(a + b, t, q) == matching_records(a, t, q) + matching_records(b, t, q),
    decreases b.len(),
{
    if b.len() == 0 {
        assert(a + b == a);
        assert(matching_records(a, t, q) + Seq::<PairRecord>::empty() == matching_records(a, t, q));
    } else {
        lemma_matching_concat(a, b.drop_last(), t, q);
        assert((a + b).drop_last() == a + b.drop_last());
        assert((a + b).last() == b.last());
    }
}

proof fn lemma_matching_without(x: Seq<FingerprintRow>, t: u32, q: Map<u32, PairRecord>)
    ensures
        matching_records(rows_without(x, t), t, q) == Seq::<PairRecord>::empty(),
    decreases x.len(),
{
    if x.len() > 0 {
        lemma_matching_without(x.drop_last(), t, q);
        let prev = rows_without(x.drop_last(), t);
        if x.last().track_id != t {
            assert(prev.push(x.last()).drop_last() == prev);
        }
    }
}

proof fn lemma_matching_new(y: Seq<PairRecord>, t: u32, q: Map<u32, PairRecord>)
    requires
        forall|i: int| 0 <= i < y.len() ==> q.contains_key((#[trigger] y[i]).hash),
    ensures
        matching_records(y.map_values(|r: PairRecord| row_of(r, t)), t, q) == y,
    decreases y.len(),
{
    let m = y.map_values(|r: PairRecord| row_of(r, t));
    if y.len() > 0 {
        assert forall|i: int| 0 <= i < y.drop_last().len() implies q.contains_key(
            (#[trigger] y.drop_last()[i]).hash,
        ) by {
            assert(y.drop_last()[i] == y[i]);
        }
        lemma_matching_new(y.drop_last(), t, q);
        assert(m.drop_last() == y.drop_last().map_values(|r: PairRecord| row_of(r, t)));
        assert(q.contains_key(y[y.len() - 1].hash));
        assert(y.drop_last().push(y.last()) == y);
    } else {
        assert(m.len() == 0);
    }
}

proof fn lemma_aligned_counts(q: Map<u32, PairRecord>, y: Seq<PairRecord>, k: u32)
    requires
        forall|i: int|
            0 <= i < y.len() ==> q.contains_key((#[trigger] y[i]).hash) && y[i].time_a
                == q[y[i].hash].time_a,
    ensures
        offset_count(q, y, k) == if k == 0 {
            y.len()
        } else {
            0
        },
    decreases y.len(),
{
    if y.len() > 0 {
        assert forall|i: int| 0 <= i < y.drop_last().len() implies q.contains_key(
            (#[trigger] y.drop_last()[i]).hash,
        ) && y.drop_last()[i].time_a == q[y.drop_last()[i].hash].time_a by {
            assert(y.drop_last()[i] == y[i]);
        }
        lemma_aligned_counts(q, y.drop_last(), k);
        let last = y[y.len() - 1];
        assert(offset_of(q, last) == Some(0u32));
    }
}

proof fn lemma_tracks_hit_contains(rows: Seq<FingerprintRow>, q: Map<u32, PairRecord>, j: int)
    requires
        0 <= j < rows.len(),
        q.contains_key(rows[j].hash),
    ensures
        tracks_hit(rows, q).contains(rows[j].track_id),
    decreases rows.len(),
{
    let prev = tracks_hit(rows.drop_last(), q);
    if j < rows.len() - 1 {
        assert(rows.drop_last()[j] == rows[j]);
        lemma_tracks_hit_contains(rows.drop_last(), q, j);
        let x = choose|x: int| 0 <= x < prev.len() && prev[x] == rows[j].track_id;
        if q.contains_key(rows.last().hash) && !prev.contains(rows.last().track_id) {
            assert(prev.push(rows.last().track_id)[x] == prev[x]);
        }
    } else {
        if !prev.contains(rows.last().track_id) {
            assert(prev.push(rows.last().track_id)[prev.len() as int] == rows.last().track_id);
        }
    }
}

proof fn lemma_tracks_among_contains(tracks: Seq<(u32, Seq<char>)>, ids: Seq<u32>, j: int)
    requires
        0 <= j < tracks.len(),
        ids.contains(tracks[j].0),
    ensures
        tracks_among(tracks, ids).contains(tracks[j]),
    decreases tracks.len(),
{
    let prev = tracks_among(tracks.drop_last(), ids);
    if j < tracks.len() - 1 {
        assert(tracks.drop_last()[j] == tracks[j]);
        lemma_tracks_among_contains(tracks.drop_last(), ids, j);
        let x = choose|x: int| 0 <= x < prev.len() && prev[x] == tracks[j];
        if ids.contains(tracks.last().0) {
            assert(prev.push(tracks.last())[x] == prev[x]);
        }
    } else {
        assert(prev.push(tracks.last())[prev.len() as int] == tracks.last());
    }
}

/// A track matched against its own fingerprints, after `replace_fingerprints` stored
/// `records` (the records of the query map, as `records_of` gives them) for it, has
/// its fullest histogram bin at offset 0 with a count equal to the number of the
/// query's fingerprints; and when the query is not empty and the track is in the
/// store, the track is among the candidates.
pub proof fn lemma_self_match(
    store: StoreState,
    track_id: u32,
    query: Map<u32, PairRecord>,
    records: Seq<PairRecord>,
)
    requires
        records.len() == query.dom().len(),
        forall|i: int|
            0 <= i < records.len() ==> query.contains_key((#[trigger] records[i]).hash)
                && records[i].time_a == query[records[i].hash].time_a,
    ensures
        ({
            let rows = rows_without(store.rows, track_id) + records.map_values(
                |r: PairRecord| row_of(r, track_id),
            );
            let after = StoreState { tracks: store.tracks, rows, next_id: store.next_id };
            &&& is_best_bin(query, matching_records(rows, track_id, query), 0, query.dom().len())
            &&& (query.dom().len() > 0 && has_track_id(store.tracks, track_id)) ==> exists|i: int|
                0 <= i < candidate_tracks(after, query).len() && (#[trigger] candidate_tracks(
                    after,
                    query,
                )[i]).0 == track_id
        }),
{
    let added = records.map_values(|r: PairRecord| row_of(r, track_id));
    let rows = rows_without(store.rows, track_id) + added;
    let after = StoreState { tracks: store.tracks, rows, next_id: store.next_id };
    lemma_matching_concat(rows_without(store.rows, track_id), added, track_id, query);
    lemma_matching_without(store.rows, track_id, query);
    lemma_matching_new(records, track_id, query);
    assert(Seq::<PairRecord>::empty() + records == records);
    assert(matching_records(rows, track_id, query) == records);
    assert forall|k: u32| #[trigger] offset_count(query, records, k) <= query.dom().len() by {
        lemma_aligned_counts(query, records, k);
    }
    lemma_aligned_counts(query, records, 0);
    if query.dom().len() > 0 && has_track_id(store.tracks, track_id) {
        let last = rows.len() - 1;
        assert(rows[last] == row_of(records[records.len() - 1], track_id));
        assert(query.contains_key(records[records.len() - 1].hash));
        lemma_tracks_hit_contains(rows, query, last);
        let j = choose|j: int| 0 <= j < store.tracks.len() && (#[trigger] store.tracks[j]).0 == track_id;
        lemma_tracks_among_contains(store.tracks, tracks_hit(rows, query), j);
        let x = choose|x: int|
            0 <= x < candidate_tracks(after, query).len() && candidate_tracks(after, query)[x]
                == store.tracks[j];
        assert(candidate_tracks(after, query)[x].0 == track_id);
    }
}

} // verus!

use vstd::prelude::*;
use std::collections::HashMap;

use crate::error::Error;
use crate::hash::PairRecord;

verus! {

broadcast use vstd::std_specs::hash::group_hash_axioms;

/// A track of the index: its identifier and its title.
#[derive(Debug)]
pub struct Track {
    pub track_id: u32,
    pub title: String,
}

/// One fingerprint of one track: a hash and the time (window index) of its anchor.
#[derive(Debug, Clone, Copy, PartialEq, Eq, Structural)]
pub struct FingerprintRow {
    pub hash: u32,
    pub track_time: u32,
    pub track_id: u32,
}

/// The contents of a store: its tracks, its fingerprint rows, and the identifier the
/// next new track receives.
pub ghost struct StoreState {
    pub tracks: Seq<(u32, Seq<char>)>,
    pub rows: Seq<FingerprintRow>,
    pub next_id: u32,
}

impl StoreState {
    /// Identifiers and titles are unique, identifiers are below `next_id`, and
    /// `next_id` is positive.
    pub open spec fn valid(self) -> bool {
        tracks_are_valid(self.tracks, self.next_id) && self.next_id >= 1
    }
}

/// A fingerprint index: tracks with unique identifiers and unique titles, and any
/// number of fingerprint rows per track.
pub struct FingerprintStore {
    tracks: Vec<Track>,
    rows: Vec<FingerprintRow>,
    next_id: u32,
}

/// The identifier and title of each track.
pub open spec fn tracks_view(tracks: Seq<Track>) -> Seq<(u32, Seq<char>)> {
    tracks.map_values(|t: Track| (t.track_id, t.title@))
}

/// Whether identifiers and titles are unique and every identifier is below `next_id`.
pub open spec fn tracks_are_valid(tracks: Seq<(u32, Seq<char>)>, next_id: u32) -> bool {
    &&& forall|i: int| 0 <= i < tracks.len() ==> (#[trigger] tracks[i]).0 < next_id
    &&& forall|i: int, j: int|
        0 <= i < j < tracks.len() ==> (#[trigger] tracks[i]).0 != (#[trigger] tracks[j]).0
            && tracks[i].1 != tracks[j].1
}

/// The index in `tracks` of the track titled `title`, if any.
pub open spec fn title_index(tracks: Seq<(u32, Seq<char>)>, title: Seq<char>) -> Option<int> {
    if exists|i: int| 0 <= i < tracks.len() && (#[trigger] tracks[i]).1 == title {
        Some(choose|i: int| 0 <= i < tracks.len() && (#[trigger] tracks[i]).1 == title)
    } else {
        None
    }
}

/// Whether some track has identifier `id`.
pub open spec fn has_track_id(tracks: Seq<(u32, Seq<char>)>, id: u32) -> bool {
    exists|i: int| 0 <= i < tracks.len() && (#[trigger] tracks[i]).0 == id
}

/// Whether some track has title `title`.
pub open spec fn has_title(tracks: Seq<(u32, Seq<char>)>, title: Seq<char>) -> bool {
    exists|i: int| 0 <= i < tracks.len() && (#[trigger] tracks[i]).1 == title
}

/// The row stored for record `r` of track `track_id`.
pub open spec fn row_of(r: PairRecord, track_id: u32) -> FingerprintRow {
    FingerprintRow { hash: r.hash, track_time: r.time_a, track_id }
}

/// The rows of tracks other than `track_id`, in order.
pub open spec fn rows_without(rows: Seq<FingerprintRow>, track_id: u32) -> Seq<FingerprintRow>
    decreases rows.len(),
{
    if rows.len() == 0 {
        Seq::empty()
    } else {
        let prev = rows_without(rows.drop_last(), track_id);
        if rows.last().track_id != track_id {
            prev.push(rows.last())
        } else {
            prev
        }
    }
}

/// The rows of track `track_id`, as records, in order.
pub open spec fn records_of_track(rows: Seq<FingerprintRow>, track_id: u32) -> Seq<PairRecord>
    decreases rows.len(),
{
    if rows.len() == 0 {
        Seq::empty()
    } else {
        let prev = records_of_track(rows.drop_last(), track_id);
        let row = rows.last();
        if row.track_id == track_id {
            prev.push(PairRecord { hash: row.hash, time_a: row.track_time })
        } else {
            prev
        }
    }
}

/// The rows of track `track_id` whose hash is a key of `hashes`, as records, in order.
pub open spec fn matching_records(
    rows: Seq<FingerprintRow>,
    track_id: u32,
    hashes: Map<u32, PairRecord>,
) -> Seq<PairRecord>
    decreases rows.len(),
{
    if rows.len() == 0 {
        Seq::empty()
    } else {
        let prev = matching_records(rows.drop_last(), track_id, hashes);
        let row = rows.last();
        if row.track_id == track_id && hashes.contains_key(row.hash) {
            prev.push(PairRecord { hash: row.hash, time_a: row.track_time })
        } else {
            prev
        }
    }
}

/// The distinct identifiers of the tracks of the rows whose hash is a key of
/// `hashes`, in order of first appearance.
pub open spec fn tracks_hit(rows: Seq<FingerprintRow>, hashes: Map<u32, PairRecord>) -> Seq<u32>
    decreases rows.len(),
{
    if rows.len() == 0 {
        Seq::empty()
    } else {
        let prev = tracks_hit(rows.drop_last(), hashes);
        let row = rows.last();
        if hashes.contains_key(row.hash) && !prev.contains(row.track_id) {
            prev.push(row.track_id)
        } else {
            prev
        }
    }
}

/// The tracks, in table order, whose identifier is in `ids`.
pub open spec fn tracks_among(tracks: Seq<(u32, Seq<char>)>, ids: Seq<u32>) -> Seq<(u32, Seq<char>)>
    decreases tracks.len(),
{
    if tracks.len() == 0 {
        Seq::empty()
    } else {
        let prev = tracks_among(tracks.drop_last(), ids);
        if ids.contains(tracks.last().0) {
            prev.push(tracks.last())
        } else {
            prev
        }
    }
}

impl View for FingerprintStore {
    type V = StoreState;

    closed spec fn view(&self) -> StoreState {
        StoreState { tracks: tracks_view(self.tracks@), rows: self.rows@, next_id: self.next_id }
    }
}

impl FingerprintStore {
    /// An empty store; the first track receives identifier 1.
    pub fn new() -> (r: FingerprintStore)
        ensures
            r@.tracks.len() == 0,
            r@.rows.len() == 0,
            r@.next_id == 1,
            r@.valid(),
    {
        FingerprintStore { tracks: Vec::new(), rows: Vec::new(), next_id: 1 }
    }

    /// Adds a track as it was persisted: fails with `Store`, leaving the store
    /// unchanged, when the identifier or the title is taken or the identifier is the
    /// largest `u32`.
    pub fn restore_track(&mut self, track_id: u32, title: &str) -> (r: Result<(), Error>)
        requires
            old(self)@.valid(),
        ensures
            final(self)@.valid(),
            r is Err <==> (has_track_id(old(self)@.tracks, track_id) || has_title(
                old(self)@.tracks,
                title@,
            ) || track_id == u32::MAX),
            r is Err ==> r == Err::<(), Error>(Error::Store) && final(self)@ == old(self)@,
            r is Ok ==> final(self)@ == (StoreState {
                tracks: old(self)@.tracks.push((track_id, title@)),
                rows: old(self)@.rows,
                next_id: if track_id >= old(self)@.next_id {
                    (track_id + 1) as u32
                } else {
                    old(self)@.next_id
                },
            }),
    {
        let owned = title.to_owned();
        if track_id == u32::MAX {
            return Err(Error::Store);
        }
        let n = self.tracks.len();
        for i in 0..n
            invariant
                n == self.tracks@.len(),
                owned@ == title@,
                self@ == old(self)@,
                old(self)@.valid(),
                forall|j: int|
                    0 <= j < i ==> (#[trigger] tracks_view(self.tracks@)[j]).0 != track_id
                        && tracks_view(self.tracks@)[j].1 != title@,
        {
            if self.tracks[i].track_id == track_id || self.tracks[i].title == owned {
                assert(tracks_view(self.tracks@)[i as int] == (
                    self.tracks@[i as int].track_id,
                    self.tracks@[i as int].title@,
                ));
                return Err(Error::Store);
            }
        }
        let ghost before = tracks_view(self.tracks@);
        if track_id >= self.next_id {
            self.next_id = track_id + 1;
        }
        self.tracks.push(Track { track_id, title: owned });
        assert(tracks_view(self.tracks@) =~= before.push((track_id, title@)));
        Ok(())
    }

    /// Replaces every fingerprint row of `track_id` by one row per record, in order
    /// after the rows of the other tracks.
    pub fn replace_fingerprints(&mut self, track_id: u32, records: &Vec<PairRecord>)
        requires
            old(self)@.valid(),
        ensures
            final(self)@.valid(),
            final(self)@.tracks == old(self)@.tracks,
            final(self)@.next_id == old(self)@.next_id,
            final(self)@.rows == rows_without(old(self)@.rows, track_id) + records@.map_values(
                |r: PairRecord| row_of(r, track_id),
            ),
    {
        let ghost old_rows = self.rows@;
        let mut kept: Vec<FingerprintRow> = Vec::new();
        let n = self.rows.len();
        for i in 0..n
            invariant
                n == old_rows.len(),
                self.rows@ == old_rows,
                kept@ == rows_without(old_rows.take(i as int), track_id),
        {
            let row = self.rows[i];
            if row.track_id != track_id {
                kept.push(row);
            }
            assert(old_rows.take(i + 1).drop_last() == old_rows.take(i as int));
        }
        assert(old_rows.take(n as int) == old_rows);
        let m = records.len();
        let ghost base = kept@;
        for i in 0..m
            invariant
                m == records@.len(),
                kept@ == base + records@.take(i as int).map_values(
                    |r: PairRecord| row_of(r, track_id),
                ),
        {
            let record = records[i];
            kept.push(FingerprintRow { hash: record.hash, track_time: record.time_a, track_id });
            assert(records@.take(i + 1).map_values(|r: PairRecord| row_of(r, track_id))
                =~= records@.take(i as int).map_values(|r: PairRecord| row_of(r, track_id)).push(
                row_of(record, track_id),
            ));
        }
        assert(records@.take(m as int) == records@);
        self.rows = kept;
    }

    /// Appends rows as they were persisted.
    pub fn load_rows(&mut self, rows: &Vec<FingerprintRow>)
        requires
            old(self)@.valid(),
        ensures
            final(self)@.valid(),
            final(self)@.tracks == old(self)@.tracks,
            final(self)@.next_id == old(self)@.next_id,
            final(self)@.rows == old(self)@.rows + rows@,
    {
        let ghost base = self.rows@;
        let n = rows.len();
        for i in 0..n
            invariant
                n == rows@.len(),
                self.rows@ == base + rows@.take(i as int),
                self@.tracks == old(self)@.tracks,
                self@.next_id == old(self)@.next_id,
        {
            self.rows.push(rows[i]);
            assert(rows@.take(i + 1) == rows@.take(i as int).push(rows@[i as int]));
        }
        assert(rows@.take(n as int) == rows@);
    }

    /// The distinct tracks that have a row whose hash is a key of `hashes`, in order of
    /// their first such row.
    pub fn distinct_tracks_with_any_hash(&self, hashes: &HashMap<u32, PairRecord>) -> (r: Vec<u32>)
        ensures
            r@ == tracks_hit(self@.rows, hashes@),
    {
        let ghost rows = self.rows@;
        let mut found: Vec<u32> = Vec::new();
        let n = self.rows.len();
        for i in 0..n
            invariant
                n == rows.len(),
                rows == self.rows@,
                found@ == tracks_hit(rows.take(i as int), hashes@),
        {
            let row = self.rows[i];
            if hashes.contains_key(&row.hash) && !contains_id(&found, row.track_id) {
                found.push(row.track_id);
            }
            assert(rows.take(i + 1).drop_last() == rows.take(i as int));
        }
        assert(rows.take(n as int) == rows);
        found
    }

    /// The rows of track `track_id` whose hash is a key of `hashes`, as records, in
    /// order; a hash stored several times for the track gives several records.
    pub fn fingerprints_for(&self, track_id: u32, hashes: &HashMap<u32, PairRecord>) -> (r: Vec<
        PairRecord,
    >)
        ensures
            r@ == matching_records(self@.rows, track_id, hashes@),
    {
        let ghost rows = self.rows@;
        let mut out: Vec<PairRecord> = Vec::new();
        let n = self.rows.len();
        for i in 0..n
            invariant
                n == rows.len(),
                rows == self.rows@,
                out@ == matching_records(rows.take(i as int), track_id, hashes@),
        {
            let row = self.rows[i];
            if row.track_id == track_id && hashes.contains_key(&row.hash) {
                out.push(PairRecord { hash: row.hash, time_a: row.track_time });
            }
            assert(rows.take(i + 1).drop_last() == rows.take(i as int));
        }
        assert(rows.take(n as int) == rows);
        out
    }

    /// The tracks, in table order, whose identifier is among `track_ids`.
    pub fn track_titles(&self, track_ids: &Vec<u32>) -> (r: Vec<Track>)
        ensures
            tracks_view(r@) == tracks_among(self@.tracks, track_ids@),
    {
        let ghost tracks = tracks_view(self.tracks@);
        let mut out: Vec<Track> = Vec::new();
        let n = self.tracks.len();
        for i in 0..n
            invariant
                n == tracks.len(),
                tracks == tracks_view(self.tracks@),
                tracks_view(out@) == tracks_among(tracks.take(i as int), track_ids@),
        {
            let track = &self.tracks[i];
            assert(tracks[i as int] == (track.track_id, track.title@));
            if contains_id(track_ids, track.track_id) {
                let ghost before = tracks_view(out@);
                out.push(Track { track_id: track.track_id, title: track.title.clone() });
                assert(tracks_view(out@) =~= before.push((track.track_id, track.title@)));
            }
            assert(tracks.take(i + 1).drop_last() == tracks.take(i as int));
        }
        assert(tracks.take(n as int) == tracks);
        out
    }
}

/// Whether `ids` holds `id`.
fn contains_id(ids: &Vec<u32>, id: u32) -> (r: bool)
    ensures
        r == ids@.contains(id),
{
    let n = ids.len();
    for i in 0..n
        invariant
            n == ids@.len(),
            forall|j: int| 0 <= j < i ==> ids@[j] != id,
    {
        if ids[i] == id {
            return true;
        }
    }
    false
}

/// Adds a track titled `title` and returns its identifier; where a track with that
/// title exists, returns its identifier and leaves the store unchanged. Fails with
/// `Store`, leaving the store unchanged, when identifiers are exhausted.
pub fn add_track(store: &mut FingerprintStore, title: &str) -> (r: Result<u32, Error>)
    requires
        old(store)@.valid(),
    ensures
        final(store)@.valid(),
        match title_index(old(store)@.tracks, title@) {
            Some(i) => r == Ok::<u32, Error>(old(store)@.tracks[i].0) && final(store)@ == old(
                store,
            )@,
            None => if old(store)@.next_id < u32::MAX {
                &&& r == Ok::<u32, Error>(old(store)@.next_id)
                &&& final(store)@ == (StoreState {
                    tracks: old(store)@.tracks.push((old(store)@.next_id, title@)),
                    rows: old(store)@.rows,
                    next_id: (old(store)@.next_id + 1) as u32,
                })
            } else {
                r == Err::<u32, Error>(Error::Store) && final(store)@ == old(store)@
            },
        },
{
    let owned = title.to_owned();
    let ghost tracks = tracks_view(store.tracks@);
    let n = store.tracks.len();
    for i in 0..n
        invariant
            n == tracks.len(),
            tracks == tracks_view(store.tracks@),
            owned@ == title@,
            store@ == old(store)@,
            old(store)@.valid(),
            forall|j: int| 0 <= j < i ==> (#[trigger] tracks[j]).1 != title@,
    {
        if store.tracks[i].title == owned {
            assert(tracks[i as int] == (store.tracks@[i as int].track_id, store.tracks@[i as int].title@));
            proof {
                let k = choose|k: int| 0 <= k < tracks.len() && (#[trigger] tracks[k]).1 == title@;
                assert(tracks_are_valid(tracks, store.next_id));
                if k != i {
                    if k < i {
                        assert(tracks[k].1 != tracks[i as int].1);
                    } else {
                        assert(tracks[i as int].1 != tracks[k].1);
                    }
                }
            }
            return Ok(store.tracks[i].track_id);
        }
    }
    if store.next_id == u32::MAX {
        return Err(Error::Store);
    }
    let id = store.next_id;
    store.next_id = id + 1;
    store.tracks.push(Track { track_id: id, title: owned });
    assert(tracks_view(store.tracks@) =~= tracks.push((id, title@)));
    Ok(id)
}

proof fn lemma_records_of_track_concat(a: Seq<FingerprintRow>, b: Seq<FingerprintRow>, t: u32)
    ensures
        records_of_track(a + b, t) == records_of_track(a, t) + records_of_track(b, t),
    decreases b.len(),
{
    if b.len() == 0 {
        assert(a + b == a);
        assert(records_of_track(a, t) + Seq::<PairRecord>::empty() == records_of_track(a, t));
    } else {
        lemma_records_of_track_concat(a, b.drop_last(), t);
        assert((a + b).drop_last() == a + b.drop_last());
        assert((a + b).last() == b.last());
    }
}

proof fn lemma_records_of_rows_without(x: Seq<FingerprintRow>, t: u32, u: u32)
    ensures
        records_of_track(rows_without(x, t), u) == if u == t {
            Seq::<PairRecord>::empty()
        } else {
            records_of_track(x, u)
        },
    decreases x.len(),
{
    if x.len() > 0 {
        lemma_records_of_rows_without(x.drop_last(), t, u);
        let prev = rows_without(x.drop_last(), t);
        if x.last().track_id != t {
            assert(prev.push(x.last()).drop_last() == prev);
        }
    }
}

proof fn lemma_records_of_new_rows(y: Seq<PairRecord>, t: u32, u: u32)
    ensures
        records_of_track(y.map_values(|r: PairRecord| row_of(r, t)), u) == if u == t {
            y
        } else {
            Seq::<PairRecord>::empty()
        },
    decreases y.len(),
{
    let m = y.map_values(|r: PairRecord| row_of(r, t));
    if y.len() > 0 {
        lemma_records_of_new_rows(y.drop_last(), t, u);
        assert(m.drop_last() == y.drop_last().map_values(|r: PairRecord| row_of(r, t)));
        if u == t {
            assert(y.drop_last().push(y.last()) == y);
        }
    } else {
        assert(m.len() == 0);
    }
}

/// After `replace_fingerprints(track_id, records)`, the rows of `track_id` are exactly
/// `records`, in order, and the rows of every other track are unchanged.
pub proof fn lemma_replace_semantics(
    rows: Seq<FingerprintRow>,
    track_id: u32,
    records: Seq<PairRecord>,
    other: u32,
)
    requires
        other != track_id,
    ensures
        records_of_track(
            rows_without(rows, track_id) + records.map_values(|r: PairRecord| row_of(r, track_id)),
            track_id,
        ) == records,
        records_of_track(
            rows_without(rows, track_id) + records.map_values(|r: PairRecord| row_of(r, track_id)),
            other,
        ) == records_of_track(rows, other),
{
    let added = records.map_values(|r: PairRecord| row_of(r, track_id));
    lemma_records_of_track_concat(rows_without(rows, track_id), added, track_id);
    lemma_records_of_track_concat(rows_without(rows, track_id), added, other);
    lemma_records_of_rows_without(rows, track_id, track_id);
    lemma_records_of_rows_without(rows, track_id, other);
    lemma_records_of_new_rows(records, track_id, track_id);
    lemma_records_of_new_rows(records, track_id, other);
    assert(Seq::<PairRecord>::empty() + records == records);
    assert(records_of_track(rows, other) + Seq::<PairRecord>::empty() == records_of_track(rows, other));
}

} // verus!

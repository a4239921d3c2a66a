use vstd::prelude::*;
use std::collections::HashMap;

use crate::error::Error;
use crate::hash::{
    fingerprint, lemma_time_order_of_sorted, records_map, records_of, time_sorted, zone_pairs,
    PairRecord, Peak, TargetZone,
};
use crate::matcher::{candidate_tracks, match_fingerprints, reports, Candidate};
use crate::peaks::{find_peaks, peak_cells, precedes};
use crate::spectrogram::{is_nan_bits, Spectrogram};
use crate::store::{add_track, row_of, rows_without, title_index, FingerprintStore, StoreState};

verus! {

broadcast use vstd::std_specs::hash::group_hash_axioms;

/// The tunable parameters of the fingerprint pipeline, in spectrogram cells: the side of
/// the maximum filter, the magnitude threshold (a single-precision bit pattern), and
/// the target zone.
#[derive(Debug, Clone, Copy, PartialEq, Eq, Structural)]
pub struct AnalysisParams {
    pub kernel_size: usize,
    pub magnitude_threshold: u32,
    pub zone: TargetZone,
}

/// Largest number of windows whose indices fit the 32-bit anchor time.
pub const MAX_WINDOWS: u64 = 0x1_0000_0000;

/// Whether the pipeline accepts the spectrogram and the parameters.
pub open spec fn accepts(g: Seq<Seq<u32>>, cols: nat, params: AnalysisParams) -> bool {
    &&& params.kernel_size > 0
    &&& !is_nan_bits(params.magnitude_threshold)
    &&& g.len() > 0
    &&& cols > 0
    &&& g.len() <= MAX_WINDOWS
}

/// Whether `m` is the fingerprint map of the spectrogram `g`: the records of the
/// target-zone pairs of its peaks.
pub open spec fn is_fingerprint_map(
    g: Seq<Seq<u32>>,
    cols: nat,
    params: AnalysisParams,
    m: Map<u32, PairRecord>,
) -> bool {
    exists|p: Seq<Peak>|
        peak_cells(p, g, cols, params.kernel_size as nat, params.magnitude_threshold) && m
            == #[trigger] records_map(zone_pairs(p, params.zone))
}

/// Whether `records` lists the entries of `m` once each, with their keys as hashes.
pub open spec fn lists_records(records: Seq<PairRecord>, m: Map<u32, PairRecord>) -> bool {
    &&& records.len() == m.dom().len()
    &&& forall|i: int|
        0 <= i < records.len() ==> m.contains_key((#[trigger] records[i]).hash) && records[i].time_a
            == m[records[i].hash].time_a
    &&& forall|i: int, j: int|
        0 <= i < j < records.len() ==> (#[trigger] records[i]).hash != (#[trigger] records[j]).hash
}

/// The fingerprints of a spectrogram: its peaks, paired within their target zones and
/// hashed. Fails with `Config` when the kernel size is zero or the threshold is NaN,
/// and otherwise with `Shape` when the spectrogram has no cell or more windows than
/// 32-bit anchor times can number.
pub fn fingerprint_spectrogram(spec: &Spectrogram, params: AnalysisParams) -> (r: Result<
    HashMap<u32, PairRecord>,
    Error,
>)
    ensures
        r is Ok <==> accepts(spec@, spec.cols(), params),
        r matches Ok(m) ==> is_fingerprint_map(spec@, spec.cols(), params, m@),
        (params.kernel_size == 0 || is_nan_bits(params.magnitude_threshold)) ==> r == Err::<
            HashMap<u32, PairRecord>,
            Error,
        >(Error::Config),
        r matches Err(e) ==> (e == Error::Config || e == Error::Shape),
{
    let rows = spec.nrows();
    let peaks = find_peaks(spec, params.kernel_size, params.magnitude_threshold)?;
    if rows as u64 > MAX_WINDOWS {
        return Err(Error::Shape);
    }
    proof {
        let ghost kernel = params.kernel_size as nat;
        assert(peak_cells(peaks@, spec@, spec.cols(), kernel, params.magnitude_threshold));
        assert forall|i: int, j: int| 0 <= i <= j < peaks@.len() implies (
        #[trigger] peaks@[i]).0 <= (#[trigger] peaks@[j]).0 by {
            if i < j {
                assert(precedes(peaks@[i], peaks@[j]));
            }
        }
        assert(time_sorted(peaks@));
        lemma_time_order_of_sorted(peaks@);
        assert forall|i: int| 0 <= i < peaks@.len() implies (#[trigger] peaks@[i]).0 <= u32::MAX by {
            assert(peaks@[i].0 < spec@.len());
        }
    }
    let map = fingerprint(&peaks, params.zone);
    Ok(map)
}

/// The store after `add_track(title)`, and the identifier of the track titled `title`.
pub open spec fn track_added(s: StoreState, title: Seq<char>) -> (StoreState, u32) {
    match title_index(s.tracks, title) {
        Some(i) => (s, s.tracks[i].0),
        None => (
            StoreState {
                tracks: s.tracks.push((s.next_id, title)),
                rows: s.rows,
                next_id: (s.next_id + 1) as u32,
            },
            s.next_id,
        ),
    }
}

/// Fingerprints a spectrogram and stores the fingerprints as those of the track
/// titled `title`, adding the track where no track has that title and replacing its
/// rows otherwise. Returns the track's identifier and the records stored. Fails as
/// `fingerprint_spectrogram` does, and then with `Store` when a new track cannot get
/// an identifier; on failure the store is unchanged.
pub fn add_track_fingerprints(
    store: &mut FingerprintStore,
    title: &str,
    spec: &Spectrogram,
    params: AnalysisParams,
) -> (r: Result<(u32, Vec<PairRecord>), Error>)
    requires
        old(store)@.valid(),
    ensures
        final(store)@.valid(),
        r is Ok <==> accepts(spec@, spec.cols(), params) && (title_index(
            old(store)@.tracks,
            title@,
        ) is Some || old(store)@.next_id < u32::MAX),
        r is Err ==> final(store)@ == old(store)@,
        !accepts(spec@, spec.cols(), params) ==> (r matches Err(e) && (e == Error::Config || e
            == Error::Shape)),
        accepts(spec@, spec.cols(), params) && r is Err ==> r == Err::<
            (u32, Vec<PairRecord>),
            Error,
        >(Error::Store),
        r matches Ok(res) ==> {
            let (id, records) = res;
            let (added, new_id) = track_added(old(store)@, title@);
            &&& id == new_id
            &&& exists|m: Map<u32, PairRecord>|
                is_fingerprint_map(spec@, spec.cols(), params, m) && #[trigger] lists_records(
                    records@,
                    m,
                )
            &&& final(store)@ == StoreState {
                tracks: added.tracks,
                rows: rows_without(old(store)@.rows, id) + records@.map_values(
                    |x: PairRecord| row_of(x, id),
                ),
                next_id: added.next_id,
            }
        },
{
    let map = fingerprint_spectrogram(spec, params)?;
    let track_id = add_track(store, title)?;
    let records = records_of(&map);
    assert(lists_records(records@, map@));
    store.replace_fingerprints(track_id, &records);
    Ok((track_id, records))
}

/// Fingerprints a spectrogram and matches the fingerprints against the store. Fails
/// as `fingerprint_spectrogram` does.
pub fn match_spectrogram(store: &FingerprintStore, spec: &Spectrogram, params: AnalysisParams) -> (r:
    Result<Vec<Candidate>, Error>)
    ensures
        r is Ok <==> accepts(spec@, spec.cols(), params),
        r matches Err(e) ==> (e == Error::Config || e == Error::Shape),
        r matches Ok(c) ==> exists|m: Map<u32, PairRecord>|
            #[trigger] is_fingerprint_map(spec@, spec.cols(), params, m) && c@.len()
                == candidate_tracks(store@, m).len() && forall|i: int|
                0 <= i < c@.len() ==> reports(
                    store@,
                    m,
                    candidate_tracks(store@, m)[i],
                    #[trigger] c@[i],
                ),
{
    let map = fingerprint_spectrogram(spec, params)?;
    let candidates = match_fingerprints(store, &map);
    assert(is_fingerprint_map(spec@, spec.cols(), params, map@));
    Ok(candidates)
}

proof fn lemma_precedes_total(p: (usize, usize), q: (usize, usize))
    ensures
        p == q || precedes(p, q) || precedes(q, p),
        !(precedes(p, q) && precedes(q, p)),
        !precedes(p, p),
{
}

proof fn lemma_ordered_lists_equal(a: Seq<(usize, usize)>, b: Seq<(usize, usize)>)
    requires
        forall|i: int, j: int| 0 <= i < j < a.len() ==> precedes(#[trigger] a[i], #[trigger] a[j]),
        forall|i: int, j: int| 0 <= i < j < b.len() ==> precedes(#[trigger] b[i], #[trigger] b[j]),
        forall|x: (usize, usize)| a.contains(x) <==> b.contains(x),
    ensures
        a == b,
    decreases a.len(),
{
    if a.len() == 0 {
        if b.len() > 0 {
            assert(b.contains(b[0]));
        }
        assert(a =~= b);
    } else {
        assert(a.contains(a[0]));
        assert(b.len() > 0);
        assert(b.contains(b[0]));
        let ja = choose|j: int| 0 <= j < b.len() && b[j] == a[0];
        let jb = choose|j: int| 0 <= j < a.len() && a[j] == b[0];
        lemma_precedes_total(a[0], b[0]);
        if ja > 0 {
            assert(precedes(b[0], a[0]));
        }
        if jb > 0 {
            assert(precedes(a[0], b[0]));
        }
        assert(a[0] == b[0]);
        let a1 = a.subrange(1, a.len() as int);
        let b1 = b.subrange(1, b.len() as int);
        assert forall|x: (usize, usize)| a1.contains(x) <==> b1.contains(x) by {
            if a1.contains(x) {
                let i = choose|i: int| 0 <= i < a1.len() && a1[i] == x;
                assert(a[i + 1] == x);
                assert(precedes(a[0], x));
                assert(b.contains(x));
                let j = choose|j: int| 0 <= j < b.len() && b[j] == x;
                lemma_precedes_total(x, x);
                assert(j != 0);
                assert(b1[j - 1] == x);
            }
            if b1.contains(x) {
                let i = choose|i: int| 0 <= i < b1.len() && b1[i] == x;
                assert(b[i + 1] == x);
                assert(precedes(b[0], x));
                assert(a.contains(x));
                let j = choose|j: int| 0 <= j < a.len() && a[j] == x;
                lemma_precedes_total(x, x);
                assert(j != 0);
                assert(a1[j - 1] == x);
            }
        }
        assert forall|i: int, j: int| 0 <= i < j < a1.len() implies precedes(
            #[trigger] a1[i],
            #[trigger] a1[j],
        ) by {
            assert(a1[i] == a[i + 1] && a1[j] == a[j + 1]);
        }
        assert forall|i: int, j: int| 0 <= i < j < b1.len() implies precedes(
            #[trigger] b1[i],
            #[trigger] b1[j],
        ) by {
            assert(b1[i] == b[i + 1] && b1[j] == b[j + 1]);
        }
        lemma_ordered_lists_equal(a1, b1);
        assert(a =~= b) by {
            assert forall|i: int| 0 <= i < a.len() implies a[i] == b[i] by {
                if i > 0 {
                    assert(a[i] == a1[i - 1]);
                    assert(b[i] == b1[i - 1]);
                }
            }
        }
    }
}

/// The fingerprints of a spectrogram are determined by its cells and the parameters:
/// two fingerprint maps of the same spectrogram under the same parameters are equal.
pub proof fn lemma_fingerprints_deterministic(
    g: Seq<Seq<u32>>,
    cols: nat,
    params: AnalysisParams,
    m1: Map<u32, PairRecord>,
    m2: Map<u32, PairRecord>,
)
    requires
        is_fingerprint_map(g, cols, params, m1),
        is_fingerprint_map(g, cols, params, m2),
    ensures
        m1 == m2,
{
    let k = params.kernel_size as nat;
    let thr = params.magnitude_threshold;
    let p1 = choose|p: Seq<Peak>|
        peak_cells(p, g, cols, k, thr) && m1 == #[trigger] records_map(zone_pairs(p, params.zone));
    let p2 = choose|p: Seq<Peak>|
        peak_cells(p, g, cols, k, thr) && m2 == #[trigger] records_map(zone_pairs(p, params.zone));
    assert forall|x: (usize, usize)| p1.contains(x) <==> p2.contains(x) by {
        let pred = |t: int, kk: int|
            crate::peaks::is_peak(g, cols, t, kk, (k / 2) as int, thr);
        if p1.contains(x) {
            let i = choose|i: int| 0 <= i < p1.len() && p1[i] == x;
            assert(pred(p1[i].0 as int, p1[i].1 as int));
            assert(pred(x.0 as int, x.1 as int));
            assert(p2.contains((x.0 as usize, x.1 as usize)));
        }
        if p2.contains(x) {
            let i = choose|i: int| 0 <= i < p2.len() && p2[i] == x;
            assert(pred(p2[i].0 as int, p2[i].1 as int));
            assert(pred(x.0 as int, x.1 as int));
            assert(p1.contains((x.0 as usize, x.1 as usize)));
        }
    }
    lemma_ordered_lists_equal(p1, p2);
}

} // verus!

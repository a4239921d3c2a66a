use vstd::prelude::*;
use std::collections::HashMap;

verus! {

broadcast use vstd::std_specs::hash::group_hash_axioms;

/// A pair of peaks, described by the anchor's frequency bin, the target's frequency
/// bin, and the number of windows from anchor to target.
pub struct PeakPair {
    pub freq_a: usize,
    pub freq_b: usize,
    pub delta_t: usize,
}

/// A landmark fingerprint with the time (window index) of its anchor peak.
#[derive(Debug, Clone, Copy, PartialEq, Eq, Structural)]
pub struct PairRecord {
    pub hash: u32,
    pub time_a: u32,
}

/// The bounds of the target zone of an anchor peak, in spectrogram cells: a target
/// lies at most `max_delta_t` windows after the anchor, and fewer than
/// `max_delta_f` bins above or below it.
#[derive(Debug, Clone, Copy, PartialEq, Eq, Structural)]
pub struct TargetZone {
    pub max_delta_t: usize,
    pub max_delta_f: usize,
}

/// The pair of peaks at `loc_a` and `loc_b`, each given as (window, bin).
pub fn pair_from_locations(loc_a: (usize, usize), loc_b: (usize, usize)) -> (r: PeakPair)
    requires
        loc_a.0 <= loc_b.0,
    ensures
        r.freq_a == loc_a.1,
        r.freq_b == loc_b.1,
        r.delta_t == loc_b.0 - loc_a.0,
{
    PeakPair { freq_a: loc_a.1, freq_b: loc_b.1, delta_t: loc_b.0 - loc_a.0 }
}

/// The `n` low-order bytes of `x`, least significant first.
pub open spec fn le_bytes(x: nat, n: nat) -> Seq<u8>
    decreases n,
{
    if n == 0 {
        Seq::empty()
    } else {
        seq![(x % 256) as u8] + le_bytes(x / 256, (n - 1) as nat)
    }
}

/// The canonical byte image of a peak pair that is hashed: each of the three numbers
/// as eight little-endian bytes.
pub open spec fn pair_image(p: PeakPair) -> Seq<u8> {
    le_bytes(p.freq_a as nat, 8) + le_bytes(p.freq_b as nat, 8) + le_bytes(p.delta_t as nat, 8)
}

/// The 32-bit FNV-1a hash of a byte sequence.
pub uninterp spec fn fnv1a_32(bytes: Seq<u8>) -> u32;

/// The fingerprint of a peak pair.
pub open spec fn peak_hash(p: PeakPair) -> u32 {
    fnv1a_32(pair_image(p))
}

/// Relies on hash32's `FnvHasher`: 32-bit FNV-1a over the bytes written, read back
/// by `finish32`.
#[verifier::external_body]
fn fnv1a(bytes: &[u8]) -> (r: u32)
    ensures
        r == fnv1a_32(bytes@),
{
    let mut hasher = hash32::FnvHasher::default();
    core::hash::Hasher::write(&mut hasher, bytes);
    hash32::Hasher::finish32(&hasher)
}

fn push_le_bytes(out: &mut Vec<u8>, x: u64)
    ensures
        final(out)@ == old(out)@ + le_bytes(x as nat, 8),
{
    let ghost start = out@;
    let mut rest = x;
    let mut i: usize = 0;
    while i < 8
        invariant
            i <= 8,
            out@ + le_bytes(rest as nat, (8 - i) as nat) == start + le_bytes(x as nat, 8),
        decreases 8 - i,
    {
        let ghost before = out@;
        assert(le_bytes(rest as nat, (8 - i) as nat) == seq![(rest % 256) as u8] + le_bytes(
            (rest / 256) as nat,
            (8 - i - 1) as nat,
        ));
        out.push((rest % 256) as u8);
        assert(out@ + le_bytes((rest / 256) as nat, (8 - i - 1) as nat) == before + (seq![
            (rest % 256) as u8,
        ] + le_bytes((rest / 256) as nat, (8 - i - 1) as nat)));
        rest = rest / 256;
        i = i + 1;
    }
    assert(le_bytes(rest as nat, 0) == Seq::<u8>::empty());
    assert(out@ + Seq::<u8>::empty() == out@);
}

/// The canonical byte image of a peak pair.
pub fn pair_bytes(pair: &PeakPair) -> (r: Vec<u8>)
    ensures
        r@ == pair_image(*pair),
{
    let mut out: Vec<u8> = Vec::new();
    push_le_bytes(&mut out, pair.freq_a as u64);
    push_le_bytes(&mut out, pair.freq_b as u64);
    push_le_bytes(&mut out, pair.delta_t as u64);
    assert(Seq::<u8>::empty() + le_bytes(pair.freq_a as nat, 8) == le_bytes(pair.freq_a as nat, 8));
    out
}

/// The fingerprint of a peak pair: FNV-1a over its canonical byte image.
pub fn calculate_hash(pair: &PeakPair) -> (r: u32)
    ensures
        r == peak_hash(*pair),
{
    let bytes = pair_bytes(pair);
    fnv1a(bytes.as_slice())
}

/// The hash of a peak pair is a function of its two frequency bins and its time
/// delta alone.
pub proof fn lemma_hash_is_function_of_pair(p: PeakPair, q: PeakPair)
    requires
        p.freq_a == q.freq_a,
        p.freq_b == q.freq_b,
        p.delta_t == q.delta_t,
    ensures
        peak_hash(p) == peak_hash(q),
{
}

/// A peak: (window index, frequency bin).
pub type Peak = (usize, usize);

/// The distance between two bins.
pub open spec fn bin_distance(a: usize, b: usize) -> int {
    if a >= b {
        a - b
    } else {
        b - a
    }
}

/// Whether peak `b` lies in the target zone of anchor `a`: strictly later, at most
/// `max_delta_t` windows later, and fewer than `max_delta_f` bins away.
pub open spec fn in_target_zone(a: Peak, b: Peak, zone: TargetZone) -> bool {
    &&& a.0 < b.0
    &&& b.0 - a.0 <= zone.max_delta_t
    &&& bin_distance(a.1, b.1) < zone.max_delta_f
}

/// Whether the peaks are in non-decreasing time order.
pub open spec fn time_sorted(p: Seq<Peak>) -> bool {
    forall|i: int, j: int| 0 <= i <= j < p.len() ==> (#[trigger] p[i]).0 <= (#[trigger] p[j]).0
}

/// The pairs with anchor `p[i]` and a target among `p[i+1..j]`, in order.
pub open spec fn anchor_pairs(p: Seq<Peak>, i: int, j: int, zone: TargetZone) -> Seq<(Peak, Peak)>
    decreases j - i,
{
    if j <= i + 1 {
        Seq::empty()
    } else {
        let prev = anchor_pairs(p, i, j - 1, zone);
        if in_target_zone(p[i], p[j - 1], zone) {
            prev.push((p[i], p[j - 1]))
        } else {
            prev
        }
    }
}

/// The pairs whose anchor is one of the first `n` peaks, by anchor, then by target.
pub open spec fn pairs_of_first(p: Seq<Peak>, n: int, zone: TargetZone) -> Seq<(Peak, Peak)>
    decreases n,
{
    if n <= 0 {
        Seq::empty()
    } else {
        pairs_of_first(p, n - 1, zone) + anchor_pairs(p, n - 1, p.len() as int, zone)
    }
}

/// Every pair of peaks `(a, b)` with `b` in the target zone of `a`, where `a` comes
/// before `b` in `p`: by anchor, then by target.
pub open spec fn zone_pairs(p: Seq<Peak>, zone: TargetZone) -> Seq<(Peak, Peak)> {
    pairs_of_first(p, p.len() as int, zone)
}

/// The peak pair of anchor `a` and target `b`.
pub open spec fn pair_of(a: Peak, b: Peak) -> PeakPair {
    PeakPair { freq_a: a.1, freq_b: b.1, delta_t: (b.0 - a.0) as usize }
}

/// The record of a pair of peaks: its fingerprint and its anchor's time.
pub open spec fn record_of(ab: (Peak, Peak)) -> PairRecord {
    PairRecord { hash: peak_hash(pair_of(ab.0, ab.1)), time_a: ab.0.0 as u32 }
}

/// Records keyed by hash; where several records share a hash the last one is kept.
pub open spec fn last_records(records: Seq<PairRecord>) -> Map<u32, PairRecord>
    decreases records.len(),
{
    if records.len() == 0 {
        Map::empty()
    } else {
        last_records(records.drop_last()).insert(records.last().hash, records.last())
    }
}

/// The records of a sequence of pairs keyed by fingerprint; where two pairs share a
/// fingerprint the later one is kept.
pub open spec fn records_map(pairs: Seq<(Peak, Peak)>) -> Map<u32, PairRecord> {
    last_records(pairs.map_values(|ab: (Peak, Peak)| record_of(ab)))
}

/// Keys records by hash, keeping the last of the records that share a hash.
pub fn keep_last_records(records: &Vec<PairRecord>) -> (r: HashMap<u32, PairRecord>)
    ensures
        r@ == last_records(records@),
{
    let mut map: HashMap<u32, PairRecord> = HashMap::new();
    let n = records.len();
    for i in 0..n
        invariant
            n == records@.len(),
            map@ == last_records(records@.take(i as int)),
    {
        let record = records[i];
        map.insert(record.hash, record);
        assert(records@.take(i + 1).drop_last() == records@.take(i as int));
    }
    assert(records@.take(n as int) == records@);
    map
}

proof fn lemma_anchor_pairs_rest_outside(p: Seq<Peak>, i: int, j: int, n: int, zone: TargetZone)
    requires
        i < j <= n,
        forall|k: int| j <= k < n ==> !in_target_zone(p[i], #[trigger] p[k], zone),
    ensures
        anchor_pairs(p, i, n, zone) == anchor_pairs(p, i, j, zone),
    decreases n - j,
{
    if n > j {
        lemma_anchor_pairs_rest_outside(p, i, j, n - 1, zone);
    }
}

/// `s` with `x` inserted after the last peak no later than `x` (after all of `s` when
/// `s` is in time order and `x` is no earlier than its last peak).
pub open spec fn insert_by_time(s: Seq<Peak>, x: Peak) -> Seq<Peak>
    decreases s.len(),
{
    if s.len() == 0 {
        seq![x]
    } else if s.last().0 <= x.0 {
        s.push(x)
    } else {
        insert_by_time(s.drop_last(), x).push(s.last())
    }
}

/// The peaks in non-decreasing time order, peaks of equal time in their given order.
pub open spec fn time_order(p: Seq<Peak>) -> Seq<Peak>
    decreases p.len(),
{
    if p.len() == 0 {
        Seq::empty()
    } else {
        insert_by_time(time_order(p.drop_last()), p.last())
    }
}

proof fn lemma_insert_position(s: Seq<Peak>, x: Peak, j: int)
    requires
        0 <= j <= s.len(),
        j == 0 || s[j - 1].0 <= x.0,
        forall|k: int| j <= k < s.len() ==> (#[trigger] s[k]).0 > x.0,
    ensures
        insert_by_time(s, x) == s.insert(j, x),
    decreases s.len(),
{
    if s.len() == 0 {
        assert(s.insert(j, x) =~= seq![x]);
    } else if s.last().0 <= x.0 {
        assert(s.insert(j, x) =~= s.push(x));
    } else {
        let d = s.drop_last();
        assert forall|k: int| j <= k < d.len() implies (#[trigger] d[k]).0 > x.0 by {
            assert(d[k] == s[k]);
        }
        lemma_insert_position(d, x, j);
        assert(d.insert(j, x).push(s.last()) =~= s.insert(j, x));
    }
}

proof fn lemma_insert_by_time_facts(s: Seq<Peak>, x: Peak)
    requires
        time_sorted(s),
    ensures
        time_sorted(insert_by_time(s, x)),
        insert_by_time(s, x).len() == s.len() + 1,
        forall|i: int|
            0 <= i < insert_by_time(s, x).len() ==> #[trigger] insert_by_time(s, x)[i] == x
                || s.contains(insert_by_time(s, x)[i]),
    decreases s.len(),
{
    let r = insert_by_time(s, x);
    if s.len() == 0 {
    } else if s.last().0 <= x.0 {
        assert forall|i: int| 0 <= i < r.len() implies #[trigger] r[i] == x || s.contains(r[i]) by {
            if i < s.len() {
                assert(r[i] == s[i]);
            }
        }
    } else {
        let d = s.drop_last();
        assert(time_sorted(d)) by {
            assert forall|i: int, j: int| 0 <= i <= j < d.len() implies (#[trigger] d[i]).0 <= (
            #[trigger] d[j]).0 by {
                assert(d[i] == s[i] && d[j] == s[j]);
            }
        }
        lemma_insert_by_time_facts(d, x);
        let m = insert_by_time(d, x);
        assert forall|i: int| 0 <= i < m.len() implies (#[trigger] m[i]).0 <= s.last().0 by {
            if m[i] != x {
                let k = choose|k: int| 0 <= k < d.len() && d[k] == m[i];
                assert(s[k] == d[k]);
            }
        }
        assert forall|i: int, j: int| 0 <= i <= j < r.len() implies (#[trigger] r[i]).0 <= (
        #[trigger] r[j]).0 by {
            if j < m.len() {
                assert(r[i] == m[i] && r[j] == m[j]);
            } else if i < m.len() {
                assert(r[i] == m[i]);
            }
        }
        assert forall|i: int| 0 <= i < r.len() implies #[trigger] r[i] == x || s.contains(r[i]) by {
            if i < m.len() {
                assert(r[i] == m[i]);
                if m[i] != x {
                    let k = choose|k: int| 0 <= k < d.len() && d[k] == m[i];
                    assert(s[k] == d[k]);
                }
            } else {
                assert(r[i] == s[s.len() - 1]);
            }
        }
    }
}

/// `time_order(p)` is in time order, has the length of `p`, and holds peaks of `p` only.
pub proof fn lemma_time_order_facts(p: Seq<Peak>)
    ensures
        time_sorted(time_order(p)),
        time_order(p).len() == p.len(),
        forall|i: int| 0 <= i < time_order(p).len() ==> p.contains(#[trigger] time_order(p)[i]),
    decreases p.len(),
{
    if p.len() > 0 {
        let d = p.drop_last();
        lemma_time_order_facts(d);
        lemma_insert_by_time_facts(time_order(d), p.last());
        let r = time_order(p);
        assert forall|i: int| 0 <= i < r.len() implies p.contains(#[trigger] r[i]) by {
            if r[i] != p.last() {
                let k = choose|k: int| 0 <= k < time_order(d).len() && time_order(d)[k] == r[i];
                let m = choose|m: int| 0 <= m < d.len() && d[m] == time_order(d)[k];
                assert(p[m] == d[m]);
            } else {
                assert(p[p.len() - 1] == r[i]);
            }
        }
    }
}

/// Peaks already in time order are left as they are.
pub proof fn lemma_time_order_of_sorted(p: Seq<Peak>)
    requires
        time_sorted(p),
    ensures
        time_order(p) == p,
    decreases p.len(),
{
    if p.len() > 0 {
        let d = p.drop_last();
        assert(time_sorted(d)) by {
            assert forall|i: int, j: int| 0 <= i <= j < d.len() implies (#[trigger] d[i]).0 <= (
            #[trigger] d[j]).0 by {
                assert(d[i] == p[i] && d[j] == p[j]);
            }
        }
        lemma_time_order_of_sorted(d);
        if d.len() > 0 {
            assert(d.last() == p[p.len() - 2]);
        }
        assert(d.push(p.last()) == p);
    }
}

/// The peaks sorted by time; peaks of equal time keep their order.
pub fn sort_by_time(peaks: &Vec<Peak>) -> (r: Vec<Peak>)
    ensures
        r@ == time_order(peaks@),
{
    let mut out: Vec<Peak> = Vec::new();
    let n = peaks.len();
    for i in 0..n
        invariant
            n == peaks@.len(),
            out@ == time_order(peaks@.take(i as int)),
    {
        let x = peaks[i];
        let mut j = out.len();
        while j > 0 && out[j - 1].0 > x.0
            invariant
                j <= out@.len(),
                forall|k: int| j <= k < out@.len() ==> (#[trigger] out@[k]).0 > x.0,
            decreases j,
        {
            j = j - 1;
        }
        proof {
            lemma_insert_position(out@, x, j as int);
            assert(peaks@.take(i + 1).drop_last() == peaks@.take(i as int));
            assert(peaks@.take(i + 1).last() == x);
        }
        out.insert(j, x);
    }
    assert(peaks@.take(n as int) == peaks@);
    out
}

/// The target-zone pairs of peaks in time order: the scan of an anchor's targets ends
/// at the first peak past the zone.
fn sorted_zone_pairs(peaks: &Vec<Peak>, zone: TargetZone) -> (r: Vec<(Peak, Peak)>)
    requires
        time_sorted(peaks@),
    ensures
        r@ == zone_pairs(peaks@, zone),
{
    let n = peaks.len();
    let mut pairs: Vec<(Peak, Peak)> = Vec::new();
    for i in 0..n
        invariant
            n == peaks@.len(),
            time_sorted(peaks@),
            pairs@ == pairs_of_first(peaks@, i as int, zone),
    {
        let a = peaks[i];
        let ghost base = pairs@;
        let mut j = i + 1;
        while j < n && peaks[j].0 - a.0 <= zone.max_delta_t
            invariant
                i < j <= n,
                n == peaks@.len(),
                a == peaks@[i as int],
                time_sorted(peaks@),
                base == pairs_of_first(peaks@, i as int, zone),
                pairs@ == base + anchor_pairs(peaks@, i as int, j as int, zone),
            decreases n - j,
        {
            let b = peaks[j];
            let distance = if a.1 >= b.1 {
                a.1 - b.1
            } else {
                b.1 - a.1
            };
            if a.0 < b.0 && distance < zone.max_delta_f {
                pairs.push((a, b));
            }
            assert(pairs@ == base + anchor_pairs(peaks@, i as int, j + 1, zone));
            j = j + 1;
        }
        proof {
            assert forall|k: int| j <= k < n implies !in_target_zone(a, #[trigger] peaks@[k], zone) by {
                assert(peaks@[j as int].0 <= peaks@[k].0);
            }
            lemma_anchor_pairs_rest_outside(peaks@, i as int, j as int, n as int, zone);
        }
    }
    pairs
}

/// The peak pairs of every anchor with the peaks in its target zone, with the peaks
/// taken in time order (peaks of equal time in their given order): by anchor, then
/// by target.
pub fn target_zone_pairs(peaks: &Vec<Peak>, zone: TargetZone) -> (r: Vec<(Peak, Peak)>)
    ensures
        r@ == zone_pairs(time_order(peaks@), zone),
{
    let sorted = sort_by_time(peaks);
    proof {
        lemma_time_order_facts(peaks@);
    }
    sorted_zone_pairs(&sorted, zone)
}

/// The fingerprints of a constellation of peaks: for each pair of an anchor and a
/// peak in its target zone, the pair's hash mapped to the record of the hash and the
/// anchor's time; of pairs with equal hashes the last one enumerated is kept. The
/// peaks' times must fit in 32 bits.
pub fn fingerprint(peaks: &Vec<Peak>, zone: TargetZone) -> (r: HashMap<u32, PairRecord>)
    requires
        forall|i: int| 0 <= i < peaks@.len() ==> (#[trigger] peaks@[i]).0 <= u32::MAX,
    ensures
        r@ == records_map(zone_pairs(time_order(peaks@), zone)),
{
    let close_pairs = target_zone_pairs(peaks, zone);
    let ghost ordered = time_order(peaks@);
    let ghost all = close_pairs@;
    proof {
        lemma_time_order_facts(peaks@);
        assert forall|i: int| 0 <= i < ordered.len() implies (#[trigger] ordered[i]).0 <= u32::MAX by {
            let k = choose|k: int| 0 <= k < peaks@.len() && peaks@[k] == ordered[i];
        }
    }
    let mut hashed: Vec<PairRecord> = Vec::new();
    let n = close_pairs.len();
    for i in 0..n
        invariant
            n == all.len(),
            all == close_pairs@,
            ordered == time_order(peaks@),
            all == zone_pairs(ordered, zone),
            forall|i: int| 0 <= i < ordered.len() ==> (#[trigger] ordered[i]).0 <= u32::MAX,
            hashed@ == all.take(i as int).map_values(|ab: (Peak, Peak)| record_of(ab)),
    {
        let (loc_a, loc_b) = close_pairs[i];
        proof {
            lemma_pairs_lie_in_target_zone(ordered, zone, i as int);
        }
        let pair = pair_from_locations(loc_a, loc_b);
        let hash = calculate_hash(&pair);
        hashed.push(PairRecord { hash, time_a: loc_a.0 as u32 });
        assert(all.take(i + 1).map_values(|ab: (Peak, Peak)| record_of(ab)) =~= all.take(
            i as int,
        ).map_values(|ab: (Peak, Peak)| record_of(ab)).push(record_of(all[i as int])));
    }
    assert(all.take(n as int) == all);
    keep_last_records(&hashed)
}

/// Every emitted pair `(a, b)` lies in the target zone of its anchor: `b` is
/// strictly later than `a`, at most `max_delta_t` windows later, and fewer than
/// `max_delta_f` bins away; both are peaks of the constellation.
pub proof fn lemma_pairs_lie_in_target_zone(p: Seq<Peak>, zone: TargetZone, x: int)
    requires
        0 <= x < zone_pairs(p, zone).len(),
    ensures
        in_target_zone(zone_pairs(p, zone)[x].0, zone_pairs(p, zone)[x].1, zone),
        p.contains(zone_pairs(p, zone)[x].0),
        p.contains(zone_pairs(p, zone)[x].1),
{
    lemma_pairs_of_first_facts(p, p.len() as int, zone, x);
}

proof fn lemma_pairs_of_first_facts(p: Seq<Peak>, n: int, zone: TargetZone, x: int)
    requires
        0 <= n <= p.len(),
        0 <= x < pairs_of_first(p, n, zone).len(),
    ensures
        in_target_zone(pairs_of_first(p, n, zone)[x].0, pairs_of_first(p, n, zone)[x].1, zone),
        p.contains(pairs_of_first(p, n, zone)[x].0),
        p.contains(pairs_of_first(p, n, zone)[x].1),
    decreases n,
{
    if n > 0 {
        let prev = pairs_of_first(p, n - 1, zone);
        if x < prev.len() {
            lemma_pairs_of_first_facts(p, n - 1, zone, x);
        } else {
            lemma_anchor_pairs_facts(p, n - 1, p.len() as int, zone, x - prev.len());
        }
    }
}

proof fn lemma_anchor_pairs_facts(p: Seq<Peak>, i: int, j: int, zone: TargetZone, x: int)
    requires
        0 <= i < p.len(),
        j <= p.len(),
        0 <= x < anchor_pairs(p, i, j, zone).len(),
    ensures
        in_target_zone(anchor_pairs(p, i, j, zone)[x].0, anchor_pairs(p, i, j, zone)[x].1, zone),
        anchor_pairs(p, i, j, zone)[x].0 == p[i],
        p.contains(anchor_pairs(p, i, j, zone)[x].1),
    decreases j - i,
{
    if j > i + 1 {
        let prev = anchor_pairs(p, i, j - 1, zone);
        if x < prev.len() {
            lemma_anchor_pairs_facts(p, i, j - 1, zone, x);
        } else {
            assert(p[j - 1] == p[j - 1]);
        }
    }
}

/// The records of a fingerprint map, one per key, each carrying its key as hash and
/// the anchor time it maps to; in no particular order.
pub fn records_of(map: &HashMap<u32, PairRecord>) -> (r: Vec<PairRecord>)
    ensures
        r@.len() == map@.dom().len(),
        forall|i: int|
            0 <= i < r@.len() ==> map@.contains_key((#[trigger] r@[i]).hash) && r@[i].time_a
                == map@[r@[i].hash].time_a,
        forall|i: int, j: int| 0 <= i < j < r@.len() ==> (#[trigger] r@[i]).hash != (#[trigger] r@[j]).hash,
{
    let mut out: Vec<PairRecord> = Vec::new();
    for entry in it: map.iter()
        invariant
            out@.len() == it.index(),
            forall|i: int|
                0 <= i < it.index() ==> (#[trigger] out@[i]).hash == *it.seq()[i].0 && out@[i].time_a
                    == it.seq()[i].1.time_a,
            forall|i: int|
                0 <= i < it.seq().len() ==> map@.contains_key(*(#[trigger] it.seq()[i]).0)
                    && map@[*it.seq()[i].0] == *it.seq()[i].1,
            it.seq().no_duplicates(),
            forall|i: int, j: int|
                0 <= i < j < out@.len() ==> (#[trigger] out@[i]).hash != (#[trigger] out@[j]).hash,
    {
        let (hash, record) = entry;
        proof {
            let n = it.index();
            assert forall|i: int| 0 <= i < n implies out@[i].hash != *hash by {
                if out@[i].hash == *hash {
                    assert(it.seq()[i] == it.seq()[n]);
                }
            }
        }
        out.push(PairRecord { hash: *hash, time_a: record.time_a });
    }
    out
}

} // verus!

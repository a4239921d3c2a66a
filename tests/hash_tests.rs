use audio_fingerprint::hash::{
    calculate_hash, fingerprint, keep_last_records, pair_bytes, pair_from_locations, records_of, target_zone_pairs,
    PairRecord, PeakPair, TargetZone,
};
use std::collections::HashMap;

fn fnv1a(bytes: &[u8]) -> u32 {
    let mut h: u32 = 0x811c9dc5;
    for b in bytes {
        h ^= *b as u32;
        h = h.wrapping_mul(0x0100_0193);
    }
    h
}

fn expected_hash(freq_a: u64, freq_b: u64, delta_t: u64) -> u32 {
    let mut bytes = Vec::new();
    bytes.extend_from_slice(&freq_a.to_le_bytes());
    bytes.extend_from_slice(&freq_b.to_le_bytes());
    bytes.extend_from_slice(&delta_t.to_le_bytes());
    fnv1a(&bytes)
}

#[test]
fn pair_from_locations_takes_bins_and_delay() {
    let p = pair_from_locations((3, 40), (7, 45));
    assert_eq!((p.freq_a, p.freq_b, p.delta_t), (40, 45, 4));
}

#[test]
fn pair_bytes_are_little_endian_u64s() {
    let p = PeakPair { freq_a: 0x0102, freq_b: 7, delta_t: 0x0a0b0c };
    let b = pair_bytes(&p);
    assert_eq!(b.len(), 24);
    assert_eq!(&b[0..8], &[0x02, 0x01, 0, 0, 0, 0, 0, 0]);
    assert_eq!(&b[8..16], &[7, 0, 0, 0, 0, 0, 0, 0]);
    assert_eq!(&b[16..24], &[0x0c, 0x0b, 0x0a, 0, 0, 0, 0, 0]);
}

#[test]
fn hash_is_fnv1a_of_the_pair_image() {
    let p = PeakPair { freq_a: 100, freq_b: 103, delta_t: 5 };
    assert_eq!(calculate_hash(&p), expected_hash(100, 103, 5));
    assert_ne!(calculate_hash(&p), 0x811c9dc5);
    let zero = PeakPair { freq_a: 0, freq_b: 0, delta_t: 0 };
    assert_eq!(calculate_hash(&zero), expected_hash(0, 0, 0));
}

#[test]
fn hash_depends_on_the_triple_only() {
    let a = PeakPair { freq_a: 12, freq_b: 30, delta_t: 2 };
    let b = pair_from_locations((9, 12), (11, 30));
    assert_eq!(calculate_hash(&a), calculate_hash(&b));
    let c = PeakPair { freq_a: 30, freq_b: 12, delta_t: 2 };
    assert_ne!(calculate_hash(&a), calculate_hash(&c));
}

#[test]
fn target_zone_admits_later_close_peaks() {
    let zone = TargetZone { max_delta_t: 2, max_delta_f: 3 };
    let peaks = vec![(0, 10), (0, 11), (1, 12), (1, 20), (2, 8), (3, 10), (5, 10)];
    let pairs = target_zone_pairs(&peaks, zone);
    assert_eq!(
        pairs,
        vec![
            ((0, 10), (1, 12)),
            ((0, 10), (2, 8)),
            ((0, 11), (1, 12)),
            ((1, 12), (3, 10)),
            ((2, 8), (3, 10)),
            ((3, 10), (5, 10)),
        ]
    );
    for (a, b) in &pairs {
        assert!(b.0 > a.0);
        assert!(b.0 - a.0 <= zone.max_delta_t);
        assert!(a.1.abs_diff(b.1) < zone.max_delta_f);
    }
}

#[test]
fn fingerprint_maps_hashes_to_anchor_times() {
    let zone = TargetZone { max_delta_t: 2, max_delta_f: 3 };
    let peaks = vec![(0, 10), (1, 12), (4, 11)];
    let map = fingerprint(&peaks, zone);
    assert_eq!(map.len(), 1);
    let h = expected_hash(10, 12, 1);
    assert_eq!(map.get(&h), Some(&PairRecord { hash: h, time_a: 0 }));
}

#[test]
fn fingerprint_keeps_the_last_of_equal_hashes() {
    // The same (bins, delay) at two anchor times gives one entry: the later anchor.
    let zone = TargetZone { max_delta_t: 1, max_delta_f: 5 };
    let peaks = vec![(0, 10), (1, 12), (5, 10), (6, 12)];
    let map = fingerprint(&peaks, zone);
    assert_eq!(map.len(), 1);
    let h = expected_hash(10, 12, 1);
    assert_eq!(map.get(&h), Some(&PairRecord { hash: h, time_a: 5 }));
}

#[test]
fn no_peaks_no_fingerprints() {
    let zone = TargetZone { max_delta_t: 31, max_delta_f: 37 };
    assert!(fingerprint(&Vec::new(), zone).is_empty());
    assert!(fingerprint(&vec![(3, 3)], zone).is_empty());
}

#[test]
fn records_of_lists_each_entry_once() {
    let mut map = HashMap::new();
    map.insert(5u32, PairRecord { hash: 5, time_a: 1 });
    map.insert(9u32, PairRecord { hash: 9, time_a: 4 });
    let mut r = records_of(&map);
    r.sort_by_key(|x| x.hash);
    assert_eq!(r, vec![PairRecord { hash: 5, time_a: 1 }, PairRecord { hash: 9, time_a: 4 }]);
}

#[test]
fn unsorted_peaks_are_paired_in_time_order() {
    let zone = TargetZone { max_delta_t: 2, max_delta_f: 3 };
    let sorted = vec![(0, 10), (1, 12), (2, 8), (3, 10)];
    let shuffled = vec![(2, 8), (0, 10), (3, 10), (1, 12)];
    assert_eq!(target_zone_pairs(&shuffled, zone), target_zone_pairs(&sorted, zone));
    assert_eq!(fingerprint(&shuffled, zone), fingerprint(&sorted, zone));
}

#[test]
fn sort_by_time_is_stable() {
    let peaks = vec![(3, 1), (1, 9), (3, 0), (1, 2), (0, 5)];
    assert_eq!(
        audio_fingerprint::hash::sort_by_time(&peaks),
        vec![(0, 5), (1, 9), (1, 2), (3, 1), (3, 0)]
    );
}

#[test]
fn keep_last_records_keeps_the_last_of_each_hash() {
    let records = vec![
        PairRecord { hash: 7, time_a: 1 },
        PairRecord { hash: 3, time_a: 2 },
        PairRecord { hash: 7, time_a: 9 },
    ];
    let map = keep_last_records(&records);
    assert_eq!(map.len(), 2);
    assert_eq!(map[&7], PairRecord { hash: 7, time_a: 9 });
    assert_eq!(map[&3], PairRecord { hash: 3, time_a: 2 });
}

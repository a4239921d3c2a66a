use audio_fingerprint::error::Error;
use audio_fingerprint::peaks::{find_equal, find_peaks, max_filter};
use audio_fingerprint::spectrogram::Spectrogram;

fn grid(values: &[&[f32]]) -> Spectrogram {
    let rows: Vec<Vec<u32>> = values.iter().map(|r| r.iter().map(|v| v.to_bits()).collect()).collect();
    let width = rows[0].len();
    Spectrogram::from_rows(rows, width).unwrap()
}

fn cells(s: &Spectrogram) -> Vec<Vec<f32>> {
    (0..s.nrows()).map(|t| (0..s.ncols()).map(|k| f32::from_bits(s.get(t, k))).collect()).collect()
}

#[test]
fn max_filter_takes_the_truncated_window_maximum() {
    let s = grid(&[&[1.0, 5.0, 2.0, 0.0], &[3.0, -1.0, 4.0, 9.0], &[0.5, 0.0, -2.0, 1.0]]);
    let m = max_filter(&s, 3);
    assert_eq!(
        cells(&m),
        vec![vec![5.0, 5.0, 9.0, 9.0], vec![5.0, 5.0, 9.0, 9.0], vec![3.0, 4.0, 9.0, 9.0]]
    );
    // A kernel of side 1 (or 0) leaves the grid as it is.
    assert_eq!(cells(&max_filter(&s, 1)), cells(&s));
    // A kernel wider than the grid gives its global maximum everywhere.
    assert_eq!(cells(&max_filter(&s, 100)), vec![vec![9.0; 4]; 3]);
}

#[test]
fn find_equal_lists_cells_in_row_major_order() {
    let a = grid(&[&[1.0, 2.0], &[3.0, 4.0]]);
    let b = grid(&[&[1.0, 0.0], &[3.0, 4.0]]);
    assert_eq!(find_equal(&a, &b), vec![(0, 0), (1, 0), (1, 1)]);
    let z = grid(&[&[0.0, -0.0]]);
    let z2 = grid(&[&[-0.0, 0.0]]);
    assert_eq!(find_equal(&z, &z2), vec![(0, 0), (0, 1)]);
}

#[test]
fn peaks_are_window_maxima_above_the_threshold() {
    let s = grid(&[&[1.0, 5.0, 2.0, 0.0, 0.0], &[3.0, -1.0, 4.0, 0.0, 7.0], &[0.5, 0.0, -2.0, 1.0, 0.0]]);
    let peaks = find_peaks(&s, 3, 0.0f32.to_bits()).unwrap();
    assert_eq!(peaks, vec![(0, 1), (1, 4)]);
    // Every emitted peak equals the maximum of its window and exceeds the threshold.
    let m = max_filter(&s, 3);
    for &(t, k) in &peaks {
        assert_eq!(s.get(t, k), m.get(t, k));
        assert!(f32::from_bits(s.get(t, k)) > 0.0);
    }
    let high = find_peaks(&s, 3, 6.0f32.to_bits()).unwrap();
    assert_eq!(high, vec![(1, 4)]);
}

#[test]
fn tied_maxima_are_all_emitted() {
    let s = grid(&[&[2.0, 2.0, 1.0], &[1.0, 1.0, 1.0]]);
    assert_eq!(find_peaks(&s, 3, 0.0f32.to_bits()).unwrap(), vec![(0, 0), (0, 1)]);
}

#[test]
fn peak_picking_errors() {
    let s = grid(&[&[1.0, 2.0]]);
    assert_eq!(find_peaks(&s, 0, 0).unwrap_err(), Error::Config);
    assert_eq!(find_peaks(&s, 3, f32::NAN.to_bits()).unwrap_err(), Error::Config);
    let empty = Spectrogram::from_rows(Vec::new(), 3).unwrap();
    assert_eq!(find_peaks(&empty, 3, 0).unwrap_err(), Error::Shape);
    let no_columns = Spectrogram::from_rows(vec![Vec::new()], 0).unwrap();
    assert_eq!(find_peaks(&no_columns, 3, 0).unwrap_err(), Error::Shape);
}

use audio_fingerprint::error::Error;
use audio_fingerprint::spectrogram::{is_nan, level_of, Spectrogram};
use audio_fingerprint::stft::{first_channel, frames, spectrogram_from_spectra};

#[test]
fn level_orders_like_floats() {
    let values: [f32; 7] = [f32::NEG_INFINITY, -3.5, -1.0e-30, 0.0, 1.0e-30, 2.25, f32::INFINITY];
    for i in 0..values.len() {
        for j in 0..values.len() {
            let a = level_of(values[i].to_bits());
            let b = level_of(values[j].to_bits());
            assert_eq!(a < b, values[i] < values[j]);
            assert_eq!(a == b, values[i] == values[j]);
        }
    }
}

#[test]
fn level_identifies_signed_zeros() {
    assert_eq!(level_of(0.0f32.to_bits()), level_of((-0.0f32).to_bits()));
    assert_eq!(level_of(0.0f32.to_bits()), 0);
}

#[test]
fn nan_is_recognised() {
    assert!(is_nan(f32::NAN.to_bits()));
    assert!(is_nan((-f32::NAN).to_bits()));
    assert!(!is_nan(f32::INFINITY.to_bits()));
    assert!(!is_nan(f32::NEG_INFINITY.to_bits()));
    assert!(!is_nan(1.5f32.to_bits()));
}

#[test]
fn first_channel_takes_every_channels_th_sample() {
    let stereo: Vec<i16> = vec![1, -1, 2, -2, 3, -3, 4];
    assert_eq!(first_channel(&stereo, 2).unwrap(), vec![1, 2, 3, 4]);
    assert_eq!(first_channel(&stereo, 1).unwrap(), stereo);
    assert_eq!(first_channel(&stereo, 3).unwrap(), vec![1, -2, 4]);
    assert_eq!(first_channel(&stereo, 0), Err(Error::Input));
}

#[test]
fn frames_have_the_documented_count() {
    // floor((N - w) / w) + 1 windows of w samples.
    let samples: Vec<i16> = (0..10).map(|x| x as i16).collect();
    let f = frames(&samples, 3).unwrap();
    assert_eq!(f.len(), 3);
    assert_eq!(f[0], vec![0, 1, 2]);
    assert_eq!(f[1], vec![3, 4, 5]);
    assert_eq!(f[2], vec![6, 7, 8]);
    assert_eq!(frames(&samples, 10).unwrap().len(), 1);
    assert_eq!(frames(&samples, 5).unwrap().len(), 2);
    assert_eq!(frames(&samples, 1).unwrap().len(), 10);
}

#[test]
fn spectrogram_dimensions_for_one_second_at_cd_rate() {
    let samples: Vec<i16> = vec![0; 44100];
    let f = frames(&samples, 4410).unwrap();
    assert_eq!(f.len(), (44100 - 4410) / 4410 + 1);
    let spectra: Vec<Vec<u32>> = f.iter().map(|w| vec![0u32; w.len()]).collect();
    let s = spectrogram_from_spectra(&spectra, 4410).unwrap();
    assert_eq!(s.nrows(), 10);
    assert_eq!(s.ncols(), 4410 / 2 + 1);
}

#[test]
fn frames_reject_bad_window_sizes() {
    let samples: Vec<i16> = vec![0; 5];
    assert_eq!(frames(&samples, 0), Err(Error::Input));
    assert_eq!(frames(&samples, 6), Err(Error::Input));
    let empty: Vec<i16> = Vec::new();
    assert_eq!(frames(&empty, 1), Err(Error::Input));
}

#[test]
fn spectra_keep_the_lower_half_of_the_bins() {
    let spectra: Vec<Vec<u32>> = vec![vec![1, 2, 3, 4, 5, 6], vec![7, 8, 9, 10, 11, 12]];
    let s = spectrogram_from_spectra(&spectra, 6).unwrap();
    assert_eq!(s.ncols(), 4);
    assert_eq!(s.nrows(), 2);
    assert_eq!(s.get(0, 3), 4);
    assert_eq!(s.get(1, 0), 7);
    assert_eq!(s.get(1, 3), 10);
}

#[test]
fn spectra_errors() {
    let ragged: Vec<Vec<u32>> = vec![vec![1, 2, 3, 4], vec![1, 2, 3]];
    assert!(matches!(spectrogram_from_spectra(&ragged, 4), Err(Error::Shape)));
    let rows: Vec<Vec<u32>> = vec![vec![1, 2, 3, 4]];
    assert!(matches!(spectrogram_from_spectra(&rows, 0), Err(Error::Shape)));
    let with_nan: Vec<Vec<u32>> = vec![vec![0, f32::NAN.to_bits(), 0, 0]];
    assert!(matches!(spectrogram_from_spectra(&with_nan, 4), Err(Error::Input)));
    // A NaN in a discarded upper bin is no error.
    let upper_nan: Vec<Vec<u32>> = vec![vec![0, 0, 0, f32::NAN.to_bits()]];
    assert!(spectrogram_from_spectra(&upper_nan, 4).is_ok());
}

#[test]
fn from_rows_checks_shape_then_values() {
    assert!(matches!(Spectrogram::from_rows(vec![vec![0, 0], vec![0]], 2), Err(Error::Shape)));
    assert!(matches!(
        Spectrogram::from_rows(vec![vec![0, f32::NAN.to_bits()]], 2),
        Err(Error::Input)
    ));
    let s = Spectrogram::from_rows(vec![vec![5, 6], vec![7, 8]], 2).unwrap();
    assert_eq!(s.get(1, 1), 8);
}

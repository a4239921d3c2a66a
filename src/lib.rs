//! Landmark-pair acoustic fingerprinting: spectrogram framing, peak picking,
//! target-zone hashing, a fingerprint index and time-offset histogram matching.

pub mod error;
pub mod spectrogram;
pub mod stft;
pub mod peaks;
pub mod hash;
pub mod store;
pub mod matcher;
pub mod pipeline;

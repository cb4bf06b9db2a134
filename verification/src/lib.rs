//! Musically useful sample splitting: slice an audio buffer into smaller
//! buffers on a tempo grid, into a fixed number of beats, or at stretches of
//! detected silence.
//!
//! The buffer is an ordered sequence of samples. A per-sample silence
//! classification (a boolean mask) drives both the silence trimming of the
//! tempo mode and the hysteresis segmenter of the silence mode; the mask
//! itself comes from comparing each sample's magnitude against a full-scale
//! cutoff, see [`threshold`].

pub mod segmenter;
pub mod slice_util;
pub mod splitter;
pub mod threshold;

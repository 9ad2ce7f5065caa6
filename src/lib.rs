//! Block-wise spectral analysis of PCM audio: WAV decoding on bytes, the
//! segmentation of a sample buffer into transform blocks, and the index
//! logic of the radix-2 transform engine.
pub mod error;
pub mod segment;
pub mod wav;
pub mod engine;

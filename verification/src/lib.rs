//! Speech segmentation and subtitle generation, verified.

pub mod asr;
pub mod audio_laws;
pub mod container;
pub mod device;
pub mod double;
pub mod ffmpeg;
pub mod ieee;
pub mod langdetect;
pub mod media;
pub mod media_laws;
pub mod number_laws;
pub mod pipeline;
pub mod pipeline_laws;
pub mod run;
pub mod segment;
pub mod segment_laws;
pub mod segment_shape;
pub mod service_laws;
pub mod srt;
pub mod srt_laws;
pub mod text;
pub mod text_laws;
pub mod vad;
pub mod wav;

//! Subtitles (SRT) for a text whose lines were aligned against the timed
//! segments of a speech recogniser.
//!
//! - `srt`: time codes and the SRT document, one entry per text line;
//! - `timeline`: the time span of every line, from its segments or from its
//!   neighbours;
//! - `align`: the search band and the backtracking of the alignment;
//! - `similarity`: character-bigram similarity of two texts;
//! - `input`: the lines of the text and the choice of the audio file;
//! - `decimal`: integers printed in decimal.

pub mod align;
pub mod decimal;
pub mod input;
pub mod similarity;
pub mod srt;
pub mod timeline;

pub use srt::{build_srt, format_srt_time};

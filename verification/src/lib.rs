//! Curation pipeline for turning noisy media titles into `(artist, title, year)`
//! records: title normalization, recording-lookup post-processing, an
//! interactive review state machine, a paginated catalog browser, and the
//! line-based resume format.

pub mod persist;
pub mod resolve;
pub mod review;
pub mod browse;
pub mod normalize;
pub mod song;
pub mod text;

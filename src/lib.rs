//! Composable, lazy sequence operators for data pipelines: a windowed
//! shuffle and a batcher, layered over any sequence producer, plus the
//! parsers that the text-corpus loaders use.

pub mod babi;
pub mod batch;
pub mod dataset;
pub mod imdb;
pub mod items;
pub mod laws;
mod pattern;
mod rng;
pub mod shuffle;
pub mod text;

pub use crate::batch::{Batch, DatasetError};
pub use crate::dataset::{batch, drain, shuffle, Dataset};
pub use crate::items::Items;
pub use crate::shuffle::Shuffle;

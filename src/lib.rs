//! Scoring and optimisation of keyboard layouts against n-gram statistics.
//!
//! A [`Corpus`] holds n-gram counts over an interned alphabet, a [`Layout`]
//! puts interned characters on positions, and an [`Analyzer`] joins a corpus
//! to a catalogue of strokes to compute metric statistics and the exact
//! change a two-position swap would make. The [`opt`] module anneals a
//! population of layouts with those incremental updates.
pub mod analysis;
pub mod corpus;
pub mod layout;
pub mod opt;

pub use analysis::{Analyzer, MetricAmount, MetricData, NstrokeData};
pub use corpus::{Corpus, CorpusChar, CorpusIndex, NgramType};
pub use layout::{Layout, LayoutTotals, Nstroke, Pos, Swap};

//! A prosody engine, built on the mora.
//!
//! `mora` turns pronunciations into the units verse is measured in: syllables,
//! their weight in morae, the metrical shape of a line, and the sound kinship
//! between words. It reads phones and knows nothing about spelling.
//!
//! Only the bottom layer is language-specific: [`phone`] holds the atoms,
//! [`syllable`] divides them by a [`syllable::SyllableRule`], [`weight`]
//! counts morae by a [`weight::WeightRule`], and [`meter`] and [`sonance`]
//! read what the layers below give them. English ships as [`english`]: a
//! table of phones and two rules.
//!
//! Every function states its result in its contract, over the spec functions
//! beside it, and the properties that tie the layers together (syllables
//! tiling a pronunciation, onsets maximal, the best scansion unbeaten, the
//! phone table reading back) stand as proof functions named `lemma_*`.

pub mod english;
pub mod meter;
pub mod phone;
pub mod sonance;
pub mod syllable;
pub mod weight;

pub use phone::{Class, Phone, Stress};
pub use syllable::{Syllable, SyllableRule};
pub use weight::{Weight, WeightRule};

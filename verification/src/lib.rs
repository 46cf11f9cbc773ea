//! Phonology toolkit for constructed languages: IPA data, phoneme sequences,
//! syllabification, stress placement, sound pattern matching and the
//! validation of language configurations.

pub mod data;
pub mod ipa_string;
pub mod ipa_system;
pub mod json;
pub mod sequence;
pub mod sequence_parser;
pub mod text;
pub mod phonotactics;
pub mod sound_class;
pub mod feature;
pub mod phonology;
pub mod syllable;
pub mod syllabifier;
pub mod matcher;
pub mod config;
pub mod generator;
pub mod prosody;
pub mod word;
pub mod dictionary;
pub mod lookup;
pub mod listing;

//! Verified core of a local speech-transcription and translation tool: text
//! clean-up of recognizer output, agreement between two recognizers, sentence
//! splitting before translation, speaker renumbering, export formats and the
//! folder browser's rules.

pub mod text;
pub mod confidence;
pub mod translate;
pub mod asr;
pub mod diarize;
pub mod vad;
pub mod sorting;
pub mod browse;
pub mod export;
pub mod models;
pub mod options;
pub mod speakers;
pub mod run;
pub mod merge;

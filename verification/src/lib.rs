//! The verified core of a local voice assistant: text normalization for speech
//! synthesis, the voice-activity state machine, the conversation controller
//! with barge-in, reply chunking, utterance gathering, and audio framing.

pub mod strings;
pub mod text;
pub mod vad;
pub mod audio;
pub mod config;
pub mod types;
pub mod pipeline;
pub mod cli;
pub mod llm;
pub mod tts;

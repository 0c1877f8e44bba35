//! Configuration of the audio, speech-recognition and speech-synthesis stages.
use vstd::prelude::*;

verus! {

/// Audio devices and the internal stream format (always mono / 16 kHz).
#[derive(Clone, Debug)]
pub struct AudioConfig {
    /// Explicit device name; `None` means the default device.
    pub input_device: Option<String>,
    pub output_device: Option<String>,
    pub sample_rate: u32,
    pub channels: u16,
    /// Size of one audio chunk in samples at `sample_rate` (480 = 30 ms).
    pub chunk_samples: usize,
    /// Overrides the capture device's reported sample rate.
    pub input_sample_rate: Option<u32>,
    /// Overrides the playback device's reported sample rate.
    pub output_sample_rate: Option<u32>,
}

} // verus!

verus! {

impl Default for AudioConfig {
    fn default() -> (c: AudioConfig)
        ensures
            c.input_device is None,
            c.output_device is None,
            c.sample_rate == 16000,
            c.channels == 1,
            c.chunk_samples == 480,
            c.input_sample_rate is None,
            c.output_sample_rate is None,
    {
        AudioConfig {
            input_device: None,
            output_device: None,
            sample_rate: 16000,
            channels: 1,
            chunk_samples: 480,
            input_sample_rate: None,
            output_sample_rate: None,
        }
    }
}

/// Speech recognition model and partial-transcript cadence.
#[derive(Clone, Debug)]
pub struct SttConfig {
    /// Path to the GigaAM GGUF model.
    pub model_path: String,
    /// Language hint (e.g. "ru"); empty means none.
    pub language: String,
    /// Re-run recognition every this many milliseconds of speech (partials).
    pub partial_interval_ms: u64,
}

impl Default for SttConfig {
    fn default() -> (c: SttConfig)
        ensures
            c.model_path@ == "models/gigaam-v3-e2e-ctc-Q8_0.gguf"@,
            c.language@ == "ru"@,
            c.partial_interval_ms == 500,
    {
        SttConfig {
            model_path: String::from_str("models/gigaam-v3-e2e-ctc-Q8_0.gguf"),
            language: String::from_str("ru"),
            partial_interval_ms: 500,
        }
    }
}

/// The language hint passed to the recogniser: none when the setting is empty.
pub fn stt_language(cfg: &SttConfig) -> (l: Option<String>)
    ensures
        match l {
            Some(s) => cfg.language@.len() > 0 && s@ == cfg.language@,
            None => cfg.language@.len() == 0,
        },
{
    if cfg.language.as_str().is_empty() {
        None
    } else {
        Some(cfg.language.clone())
    }
}

/// The speech-synthesis HTTP service.
#[derive(Clone, Debug)]
pub struct TtsConfig {
    /// Base URL of the service.
    pub url: String,
    /// Speaker voice id.
    pub speaker: String,
    /// Sample rate the service produces.
    pub sample_rate: u32,
    pub timeout_secs: u64,
}

impl Default for TtsConfig {
    fn default() -> (c: TtsConfig)
        ensures
            c.url@ == "http://127.0.0.1:8090"@,
            c.speaker@ == "xenia"@,
            c.sample_rate == 16000,
            c.timeout_secs == 120,
    {
        TtsConfig {
            url: String::from_str("http://127.0.0.1:8090"),
            speaker: String::from_str("xenia"),
            sample_rate: 16000,
            timeout_secs: 120,
        }
    }
}

/// Input and output files of the file-based mode.
#[derive(Clone, Debug)]
pub struct FileArgs {
    pub input: String,
    pub output: String,
}

} // verus!

use voice_assistant::cli::parse_args;
use voice_assistant::config::{stt_language, AudioConfig, SttConfig, TtsConfig};
use voice_assistant::llm::build_prompt;
use voice_assistant::tts::{le_words, tts_endpoint};

fn args(v: &[&str]) -> Vec<String> {
    v.iter().map(|s| s.to_string()).collect()
}

#[test]
fn config_path_defaults_and_overrides() {
    assert_eq!(parse_args(&args(&["va"])), "config.toml");
    assert_eq!(parse_args(&args(&["va", "--config", "my.toml"])), "my.toml");
    assert_eq!(parse_args(&args(&["va", "--config", "a.toml", "--config", "b.toml"])), "b.toml");
    assert_eq!(parse_args(&args(&["va", "--config"])), "config.toml");
    assert_eq!(parse_args(&args(&["va", "x", "--config", "c.toml", "y"])), "c.toml");
    // the program name itself is never read as the flag
    assert_eq!(parse_args(&args(&["--config", "ignored"])), "config.toml");
}

#[test]
fn defaults() {
    let a = AudioConfig::default();
    assert_eq!((a.sample_rate, a.channels, a.chunk_samples), (16000, 1, 480));
    assert!(a.input_device.is_none() && a.input_sample_rate.is_none());
    let s = SttConfig::default();
    assert_eq!(s.model_path, "models/gigaam-v3-e2e-ctc-Q8_0.gguf");
    assert_eq!(s.language, "ru");
    assert_eq!(s.partial_interval_ms, 500);
    let t = TtsConfig::default();
    assert_eq!(t.url, "http://127.0.0.1:8090");
    assert_eq!(t.speaker, "xenia");
    assert_eq!((t.sample_rate, t.timeout_secs), (16000, 120));
}

#[test]
fn language_hint_only_when_set() {
    let mut s = SttConfig::default();
    assert_eq!(stt_language(&s), Some("ru".to_string()));
    s.language = String::new();
    assert_eq!(stt_language(&s), None);
}

#[test]
fn chat_prompt_layout() {
    assert_eq!(
        build_prompt("sys", "hi"),
        "<|im_start|>system\nsys<|im_end|>\n<|im_start|>user\nhi<|im_end|>\n<|im_start|>assistant\n"
    );
}

#[test]
fn tts_request_and_response() {
    assert_eq!(tts_endpoint("http://127.0.0.1:8090"), "http://127.0.0.1:8090/tts");
    let bytes = 1.5f32.to_le_bytes();
    let mut body = bytes.to_vec();
    body.extend_from_slice(&(-0.25f32).to_le_bytes());
    body.push(7); // trailing partial word is dropped
    let w = le_words(&body);
    assert_eq!(w.len(), 2);
    assert_eq!(f32::from_bits(w[0]), 1.5);
    assert_eq!(f32::from_bits(w[1]), -0.25);
    assert_eq!(le_words(&[1, 0, 0, 0, 0, 1, 0, 0]), vec![1, 256]);
}

# voice-assistant

A local voice assistant: microphone → voice-activity detection → speech
recognition → language model → speech synthesis → speaker, with barge-in
(speaking over a reply cancels it and silences playback).

`src/` is the verified library (Verus). It holds the decisions of the
pipeline, each with a contract and the laws that tie them together:

- `text` — spelling digit runs as Russian words for the synthesizer, and
  removing `<think>…</think>` reasoning blocks from a streamed reply;
- `vad` — the speech/silence state machine that turns per-frame decisions into
  `SpeechStart` / `SpeechEnd` edges;
- `pipeline` — the controller (barge-in generations), the reply chunker, and
  the tracker that gathers one utterance's audio with one chunk of pre-roll;
- `audio` — fixed-size framing of the captured stream and the playback queue;
- `config`, `cli`, `llm`, `tts`, `types`, `strings` — settings, argument
  parsing, prompt layout, synthesis request/response framing, helpers.

`app/` is the program around it: audio devices (CPAL / AAudio), model
inference (ONNX Runtime, transcribe.cpp, llama.cpp), the HTTP client, WAV
files, Tokio tasks, and everything that computes on `f32` samples.

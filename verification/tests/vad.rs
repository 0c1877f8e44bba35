use voice_assistant::vad::{merge, VadMachine, VadState, FRAME_SIZE};

#[test]
fn merge_prefers_most_significant() {
    let (si, sp, st, en) = (VadState::Silence, VadState::Speech, VadState::SpeechStart, VadState::SpeechEnd);
    assert_eq!(merge(si, sp), sp);
    assert_eq!(merge(sp, st), st);
    assert_eq!(merge(st, en), en);
    assert_eq!(merge(en, si), en);
    assert_eq!(merge(si, si), si);
    assert_eq!(merge(sp, si), merge(si, sp));
}

#[test]
fn speech_opens_and_silence_closes() {
    // 500 ms of silence = 8000 samples = 15.6 frames of 512.
    let mut m = VadMachine::new(500);
    assert_eq!(m.step(false), VadState::Silence);
    assert_eq!(m.step(true), VadState::SpeechStart);
    assert!(m.in_speech());
    assert_eq!(m.step(true), VadState::Speech);
    let mut ended_at = None;
    for i in 0..40 {
        let s = m.step(false);
        if s == VadState::SpeechEnd {
            ended_at = Some(i);
            break;
        }
        assert_eq!(s, VadState::Speech);
    }
    // first silent frame marks the start; 16 more frames give 16 * 512 >= 8000.
    assert_eq!(ended_at, Some(16));
    assert!(!m.in_speech());
    assert_eq!(m.step(false), VadState::Silence);
    assert_eq!(m.samples_seen(), (3 + 17 + 1) * FRAME_SIZE);
}

#[test]
fn speech_frame_resets_silence() {
    let mut m = VadMachine::new(32); // 512 samples: one frame of silence after the first
    assert_eq!(m.step(true), VadState::SpeechStart);
    assert_eq!(m.step(false), VadState::Speech);
    assert_eq!(m.step(true), VadState::Speech);
    assert_eq!(m.step(false), VadState::Speech);
    assert_eq!(m.step(false), VadState::SpeechEnd);
}

#[test]
fn zero_min_silence_ends_on_first_silent_frame() {
    let mut m = VadMachine::new(0);
    assert_eq!(m.step(true), VadState::SpeechStart);
    assert_eq!(m.step(false), VadState::SpeechEnd);
}

#[test]
fn reset_returns_to_fresh_state() {
    let mut m = VadMachine::new(100);
    m.step(true);
    m.reset();
    assert!(!m.in_speech());
    assert_eq!(m.samples_seen(), 0);
    assert_eq!(m.step(true), VadState::SpeechStart);
}

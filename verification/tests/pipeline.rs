use voice_assistant::pipeline::{
    ends_sentence, prepare_tts_chunk, ControlEvent, Controller, ControllerAction, ResponseChunker,
    UtteranceStep, UtteranceTracker,
};
use voice_assistant::text::filter_think;
use voice_assistant::types::TranscriptEvent;
use voice_assistant::vad::VadState;

#[test]
fn barge_in_bumps_generation() {
    let mut c = Controller::new();
    assert_eq!(c.generation(), 0);
    assert!(matches!(c.handle(ControlEvent::SpeechStarted), ControllerAction::Interrupt));
    assert_eq!(c.generation(), 1);
    match c.handle(ControlEvent::Transcript(TranscriptEvent::Final("  привет \n".to_string()))) {
        ControllerAction::Respond { text, generation } => {
            assert_eq!(text, "привет");
            assert_eq!(generation, 1);
        }
        other => panic!("unexpected {other:?}"),
    }
    assert_eq!(c.generation(), 1);
}

#[test]
fn empty_final_transcript_is_skipped() {
    let mut c = Controller::new();
    assert!(matches!(
        c.handle(ControlEvent::Transcript(TranscriptEvent::Final(" \t\n".to_string()))),
        ControllerAction::Skip
    ));
    match c.handle(ControlEvent::Transcript(TranscriptEvent::Partial("при".to_string()))) {
        ControllerAction::Report(t) => assert_eq!(t, "при"),
        other => panic!("unexpected {other:?}"),
    }
}

#[test]
fn sentence_boundaries() {
    assert!(ends_sentence("Привет."));
    assert!(ends_sentence("Как дела?  "));
    assert!(ends_sentence("Ура!\n"));
    assert!(ends_sentence("Ну…"));
    assert!(!ends_sentence("и потом"));
    assert!(!ends_sentence(""));
    assert!(!ends_sentence("   "));
}

#[test]
fn chunker_flushes_on_sentence_end() {
    let mut ch = ResponseChunker::new(160);
    assert_eq!(ch.push("Привет"), None);
    assert_eq!(ch.push(", мир."), Some("Привет, мир.".to_string()));
    assert_eq!(ch.push(" Ещё"), None);
    assert_eq!(ch.finish(), Some(" Ещё".to_string()));
    assert_eq!(ch.finish(), None);
}

#[test]
fn chunker_flushes_at_target_length() {
    let mut ch = ResponseChunker::new(5);
    assert_eq!(ch.push("абв"), None);
    assert_eq!(ch.push("гд"), Some("абвгд".to_string()));
}

#[test]
fn chunker_strips_reasoning_and_whitespace_chunks() {
    let mut ch = ResponseChunker::new(160);
    assert_eq!(ch.push("<think>думаю.</think>"), None);
    assert_eq!(ch.push("\n"), None);
    assert_eq!(ch.push("Ответ."), Some("\nОтвет.".to_string()));
    let mut ch = ResponseChunker::new(160);
    assert_eq!(ch.push("<think>думаю."), None);
    assert_eq!(ch.push("</think>Да."), Some("Да.".to_string()));
}

#[test]
fn tts_chunk_is_trimmed_and_spelled() {
    assert_eq!(prepare_tts_chunk("  Мне 3 года. \n"), Some("Мне три года.".to_string()));
    assert_eq!(prepare_tts_chunk(" \n "), None);
}

#[test]
fn utterance_keeps_one_chunk_of_preroll() {
    let mut t: UtteranceTracker<i32> = UtteranceTracker::new(500, 0);
    assert!(matches!(t.on_chunk(VadState::Silence, &[1, 2], 10), UtteranceStep::Idle));
    assert!(matches!(t.on_chunk(VadState::SpeechStart, &[3, 4], 20), UtteranceStep::Started));
    assert_eq!(t.speech(), &vec![1, 2, 3, 4]);
    assert!(matches!(t.on_chunk(VadState::Speech, &[5], 100), UtteranceStep::Idle));
    assert!(matches!(t.on_chunk(VadState::Speech, &[6], 520), UtteranceStep::PartialDue));
    assert!(matches!(t.on_chunk(VadState::Speech, &[7], 600), UtteranceStep::Idle));
    match t.on_chunk(VadState::SpeechEnd, &[8], 700) {
        UtteranceStep::Finished(u) => assert_eq!(u, vec![1, 2, 3, 4, 5, 6, 7]),
        other => panic!("unexpected {other:?}"),
    }
    assert!(t.speech().is_empty());
    assert_eq!(t.finish(), None);
}

#[test]
fn trailing_speech_is_handed_over() {
    let mut t: UtteranceTracker<i32> = UtteranceTracker::new(500, 0);
    t.on_chunk(VadState::SpeechStart, &[1], 0);
    t.on_chunk(VadState::Speech, &[2], 1);
    assert_eq!(t.finish(), Some(vec![1, 2]));
    assert_eq!(t.finish(), None);
}

#[test]
fn chunks_cover_reply_without_reasoning() {
    let pieces = ["<think>", "план", "</think>", "Первое", " предложение.", " Второе", " и", " конец"];
    let mut ch = ResponseChunker::new(12);
    let mut spoken = String::new();
    for p in pieces {
        if let Some(c) = ch.push(p) {
            spoken.push_str(&c);
        }
    }
    if let Some(c) = ch.finish() {
        spoken.push_str(&c);
    }
    let whole: String = pieces.concat();
    let mut st = false;
    assert_eq!(spoken, filter_think(&whole, &mut st));
    assert_eq!(spoken, "Первое предложение. Второе и конец");
}

//! Decisions of the conversation pipeline: the controller that reacts to
//! transcripts and barge-in, the splitting of a streamed reply into speakable
//! chunks, and the accumulation of one utterance's audio.
use vstd::prelude::*;
use crate::strings::{is_white_space, trim, trim_end, trim_start, trim_str, trim_end_str};
use crate::text::{
    close_tag, filter_think, lemma_filter_think_split, normalize_digits, not_straddling, numbers_speakable,
    occurs_at, open_tag, spec_normalize, think_filter,
};
use crate::types::TranscriptEvent;
use crate::vad::VadState;

verus! {

broadcast use vstd::string::group_string_axioms;

/// Events flowing from the voice-activity/recognition stage to the controller.
#[derive(Clone, Debug)]
pub enum ControlEvent {
    Transcript(TranscriptEvent),
    /// A new utterance started; used for barge-in.
    SpeechStarted,
}

/// What the controller asks the application to do for one event.
#[derive(Clone, Debug)]
pub enum ControllerAction {
    /// Cancel the reply in flight and drop the audio queued for playback.
    Interrupt,
    /// A partial transcript: only reported.
    Report(String),
    /// A final transcript with nothing but white space: no reply.
    Skip,
    /// Start a reply to `text`; it stays valid while the generation is `generation`.
    Respond { text: String, generation: u64 },
}

/// The generation after a barge-in (wrapping after `u64::MAX`).
pub open spec fn next_generation(g: u64) -> u64 {
    if g == u64::MAX {
        0
    } else {
        (g + 1) as u64
    }
}

/// The generation after a sequence of events: each barge-in bumps it, and
/// transcripts leave it alone.
pub open spec fn generation_after(g: u64, events: Seq<ControlEvent>) -> u64
    decreases events.len(),
{
    if events.len() == 0 {
        g
    } else {
        let before = generation_after(g, events.drop_last());
        if events.last() is SpeechStarted {
            next_generation(before)
        } else {
            before
        }
    }
}

/// The number of barge-ins in a sequence of events.
pub open spec fn barge_ins(events: Seq<ControlEvent>) -> nat
    decreases events.len(),
{
    if events.len() == 0 {
        0
    } else {
        barge_ins(events.drop_last()) + if events.last() is SpeechStarted {
            1nat
        } else {
            0nat
        }
    }
}

proof fn lemma_generation_after(g: u64, events: Seq<ControlEvent>)
    ensures
        generation_after(g, events) as int == (g + barge_ins(events)) % 0x1_0000_0000_0000_0000,
    decreases events.len(),
{
    if events.len() > 0 {
        lemma_generation_after(g, events.drop_last());
        let b = barge_ins(events.drop_last());
        assert((g + b) % 0x1_0000_0000_0000_0000 + 1 == 0x1_0000_0000_0000_0000 ==> (g + b + 1)
            % 0x1_0000_0000_0000_0000 == 0) by (nonlinear_arith);
        assert((g + b) % 0x1_0000_0000_0000_0000 + 1 < 0x1_0000_0000_0000_0000 ==> (g + b + 1)
            % 0x1_0000_0000_0000_0000 == (g + b) % 0x1_0000_0000_0000_0000 + 1)
            by (nonlinear_arith);
    } else {
        assert(g as int % 0x1_0000_0000_0000_0000 == g) by (nonlinear_arith)
            requires
                0 <= g < 0x1_0000_0000_0000_0000,
        ;
    }
}

/// A reply started under generation `g` is cancelled by any barge-in that
/// follows (fewer than 2^64 of them), and transcripts alone never cancel it.
pub proof fn lemma_barge_in_cancels(g: u64, events: Seq<ControlEvent>)
    ensures
        barge_ins(events) == 0 ==> generation_after(g, events) == g,
        0 < barge_ins(events) < 0x1_0000_0000_0000_0000 ==> generation_after(g, events) != g,
{
    lemma_generation_after(g, events);
    let b = barge_ins(events);
    if 0 < b < 0x1_0000_0000_0000_0000 {
        assert((g + b) % 0x1_0000_0000_0000_0000 != g) by (nonlinear_arith)
            requires
                0 < b < 0x1_0000_0000_0000_0000,
                0 <= g < 0x1_0000_0000_0000_0000,
        ;
    }
    if b == 0 {
        assert(g as int % 0x1_0000_0000_0000_0000 == g) by (nonlinear_arith)
            requires
                0 <= g < 0x1_0000_0000_0000_0000,
        ;
    }
}

/// The conversation controller. Its generation counter is bumped on every
/// barge-in; a reply started under an older generation is cancelled.
pub struct Controller {
    generation: u64,
}

impl Controller {
    pub closed spec fn current(&self) -> u64 {
        self.generation
    }

    pub fn new() -> (c: Controller)
        ensures
            c.current() == 0,
    {
        Controller { generation: 0 }
    }

    /// The generation that replies started now belong to.
    pub fn generation(&self) -> (g: u64)
        ensures
            g == self.current(),
    {
        self.generation
    }

    /// Reacts to one event.
    pub fn handle(&mut self, ev: ControlEvent) -> (a: ControllerAction)
        ensures
            match ev {
                ControlEvent::SpeechStarted => {
                    &&& final(self).current() == next_generation(old(self).current())
                    &&& a is Interrupt
                },
                ControlEvent::Transcript(TranscriptEvent::Partial(t)) => {
                    &&& final(self).current() == old(self).current()
                    &&& a matches ControllerAction::Report(r) && r@ == t@
                },
                ControlEvent::Transcript(TranscriptEvent::Final(t)) => {
                    &&& final(self).current() == old(self).current()
                    &&& if trim(t@).len() == 0 {
                        a is Skip
                    } else {
                        a matches ControllerAction::Respond { text, generation } && text@ == trim(
                            t@,
                        ) && generation == old(self).current()
                    }
                },
            },
    {
        match ev {
            ControlEvent::SpeechStarted => {
                self.generation = self.generation.wrapping_add(1);
                ControllerAction::Interrupt
            },
            ControlEvent::Transcript(TranscriptEvent::Partial(t)) => ControllerAction::Report(t),
            ControlEvent::Transcript(TranscriptEvent::Final(t)) => {
                let trimmed = trim_str(t.as_str());
                if trimmed.is_empty() {
                    ControllerAction::Skip
                } else {
                    ControllerAction::Respond {
                        text: String::from_str(trimmed),
                        generation: self.generation,
                    }
                }
            },
        }
    }
}

/// A character that ends a sentence.
pub open spec fn is_sentence_mark(c: char) -> bool {
    c == '.' || c == '!' || c == '?' || c == '…' || c == '\n'
}

/// The text, once trailing white space is dropped, ends on a sentence mark.
pub open spec fn ends_on_sentence(s: Seq<char>) -> bool {
    trim_end(s).len() > 0 && is_sentence_mark(trim_end(s).last())
}

/// True when the accumulated text ends on a sentence boundary.
pub fn ends_sentence(s: &str) -> (b: bool)
    ensures
        b == ends_on_sentence(s@),
{
    let t = trim_end_str(s);
    let n = t.unicode_len();
    if n == 0 {
        return false;
    }
    let c = t.get_char(n - 1);
    c == '.' || c == '!' || c == '?' || c == '…' || c == '\n'
}

/// The buffered reply text is handed on once it holds `target` characters or ends a sentence.
pub open spec fn flush_due(buf: Seq<char>, target: nat) -> bool {
    buf.len() >= target || ends_on_sentence(buf)
}

/// A cleaned chunk is passed on only when it holds more than white space.
pub open spec fn speakable(cleaned: Seq<char>) -> bool {
    trim(cleaned).len() > 0
}

/// Splits a streamed reply into chunks for speech synthesis, removing
/// reasoning blocks on the way.
pub struct ResponseChunker {
    buf: String,
    in_think: bool,
    target: usize,
}

impl ResponseChunker {
    /// Reply text received and not yet handed on.
    pub closed spec fn buffered(&self) -> Seq<char> {
        self.buf@
    }

    /// Whether the text received so far ends inside a reasoning block.
    pub closed spec fn thinking(&self) -> bool {
        self.in_think
    }

    /// Number of characters after which a chunk is handed on.
    pub closed spec fn chunk_target(&self) -> nat {
        self.target as nat
    }

    pub fn new(target: usize) -> (c: ResponseChunker)
        ensures
            c.buffered() == Seq::<char>::empty(),
            !c.thinking(),
            c.chunk_target() == target,
    {
        ResponseChunker { buf: String::new(), in_think: false, target }
    }

    /// Takes one generated fragment; returns a cleaned chunk when one is due
    /// and holds more than white space.
    pub fn push(&mut self, piece: &str) -> (out: Option<String>)
        ensures
            final(self).chunk_target() == old(self).chunk_target(),
            out matches Some(o) ==> trim(o@).len() > 0,
            ({
                let b = old(self).buffered() + piece@;
                if flush_due(b, old(self).chunk_target()) {
                    let r = think_filter(b, old(self).thinking());
                    &&& final(self).buffered() == Seq::<char>::empty()
                    &&& final(self).thinking() == r.1
                    &&& if speakable(r.0) {
                        out matches Some(o) && o@ == r.0
                    } else {
                        out is None
                    }
                } else {
                    &&& final(self).buffered() == b
                    &&& final(self).thinking() == old(self).thinking()
                    &&& out is None
                }
            }),
    {
        self.buf.append(piece);
        if self.buf.as_str().unicode_len() >= self.target || ends_sentence(self.buf.as_str()) {
            let mut chunk = String::new();
            std::mem::swap(&mut chunk, &mut self.buf);
            let cleaned = filter_think(chunk.as_str(), &mut self.in_think);
            if trim_str(cleaned.as_str()).is_empty() {
                None
            } else {
                Some(cleaned)
            }
        } else {
            None
        }
    }

    /// Hands on what is left once generation ends.
    pub fn finish(&mut self) -> (out: Option<String>)
        ensures
            out matches Some(o) ==> trim(o@).len() > 0,
            final(self).buffered() == Seq::<char>::empty(),
            final(self).chunk_target() == old(self).chunk_target(),
            ({
                let r = think_filter(old(self).buffered(), old(self).thinking());
                &&& old(self).buffered().len() == 0 ==> out is None && final(self).thinking()
                    == old(self).thinking()
                &&& old(self).buffered().len() > 0 ==> {
                    &&& final(self).thinking() == r.1
                    &&& if speakable(r.0) {
                        out matches Some(o) && o@ == r.0
                    } else {
                        out is None
                    }
                }
            }),
    {
        if self.buf.as_str().is_empty() {
            return None;
        }
        let mut chunk = String::new();
        std::mem::swap(&mut chunk, &mut self.buf);
        let cleaned = filter_think(chunk.as_str(), &mut self.in_think);
        if trim_str(cleaned.as_str()).is_empty() {
            None
        } else {
            Some(cleaned)
        }
    }
}

/// The text sent to speech synthesis for a reply chunk: trimmed, digits
/// spelled out; `None` when nothing is left.
pub fn prepare_tts_chunk(chunk: &str) -> (out: Option<String>)
    requires
        numbers_speakable(trim(chunk@)),
    ensures
        match out {
            Some(s) => s@ == spec_normalize(trim(chunk@)) && s@.len() > 0,
            None => spec_normalize(trim(chunk@)).len() == 0,
        },
{
    let text = normalize_digits(trim_str(chunk));
    if text.as_str().is_empty() {
        None
    } else {
        Some(text)
    }
}


/// What the voice-activity/recognition driver does after one chunk.
#[derive(Debug)]
pub enum UtteranceStep<T> {
    /// Nothing to report.
    Idle,
    /// An utterance began: announce it (barge-in) and transcribe what is buffered.
    Started,
    /// Speech continues and a partial transcript is due.
    PartialDue,
    /// The utterance is complete; its audio is handed over for the final transcript.
    Finished(Vec<T>),
}

/// The plain values an `UtteranceTracker` holds.
pub struct UtteranceModel<T> {
    pub speech: Seq<T>,
    pub prev_chunk: Seq<T>,
    pub last_partial_ms: int,
    pub partial_interval_ms: int,
}

/// The step's outcome, without the audio it may carry.
pub enum StepKind {
    Idle,
    Started,
    PartialDue,
    Finished,
}

impl<T> UtteranceModel<T> {
    /// The tracker after one chunk with voice-activity state `state`, received
    /// at `now_ms`, and what the step reports.
    pub open spec fn step(self, state: VadState, chunk: Seq<T>, now_ms: int) -> (
        UtteranceModel<T>,
        StepKind,
    ) {
        match state {
            VadState::SpeechStart => (
                UtteranceModel {
                    speech: self.prev_chunk + chunk,
                    prev_chunk: chunk,
                    last_partial_ms: now_ms,
                    ..self
                },
                StepKind::Started,
            ),
            VadState::Speech => if now_ms - self.last_partial_ms >= self.partial_interval_ms {
                (
                    UtteranceModel {
                        speech: self.speech + chunk,
                        prev_chunk: chunk,
                        last_partial_ms: now_ms,
                        ..self
                    },
                    StepKind::PartialDue,
                )
            } else {
                (
                    UtteranceModel { speech: self.speech + chunk, prev_chunk: chunk, ..self },
                    StepKind::Idle,
                )
            },
            VadState::SpeechEnd => (
                UtteranceModel { speech: Seq::<T>::empty(), prev_chunk: chunk, ..self },
                StepKind::Finished,
            ),
            VadState::Silence => (UtteranceModel { prev_chunk: chunk, ..self }, StepKind::Idle),
        }
    }
}

/// Accumulates the audio of one utterance as the voice-activity states arrive,
/// keeping one chunk of pre-roll so a quiet word-initial consonant is not cut.
pub struct UtteranceTracker<T> {
    speech: Vec<T>,
    prev_chunk: Vec<T>,
    last_partial_ms: u64,
    partial_interval_ms: u64,
}

pub open spec fn step_kind<T>(s: UtteranceStep<T>) -> StepKind {
    match s {
        UtteranceStep::Idle => StepKind::Idle,
        UtteranceStep::Started => StepKind::Started,
        UtteranceStep::PartialDue => StepKind::PartialDue,
        UtteranceStep::Finished(_) => StepKind::Finished,
    }
}

fn copy_to_vec<T: Copy>(s: &[T]) -> (v: Vec<T>)
    ensures
        v@ == s@,
{
    let mut v: Vec<T> = Vec::new();
    let mut i: usize = 0;
    while i < s.len()
        invariant
            i <= s@.len(),
            v@ == s@.take(i as int),
        decreases s.len() - i,
    {
        v.push(s[i]);
        proof {
            assert(s@.take(i + 1) =~= s@.take(i as int).push(s@[i as int]));
        }
        i = i + 1;
    }
    proof {
        assert(s@.take(s@.len() as int) =~= s@);
    }
    v
}

fn append_to<T: Copy>(v: &mut Vec<T>, s: &[T])
    ensures
        final(v)@ == old(v)@ + s@,
{
    let mut i: usize = 0;
    while i < s.len()
        invariant
            i <= s@.len(),
            v@ == old(v)@ + s@.take(i as int),
        decreases s.len() - i,
    {
        v.push(s[i]);
        proof {
            assert(s@.take(i + 1) =~= s@.take(i as int).push(s@[i as int]));
        }
        i = i + 1;
    }
    proof {
        assert(s@.take(s@.len() as int) =~= s@);
    }
}

impl<T: Copy> UtteranceTracker<T> {
    pub closed spec fn model(&self) -> UtteranceModel<T> {
        UtteranceModel {
            speech: self.speech@,
            prev_chunk: self.prev_chunk@,
            last_partial_ms: self.last_partial_ms as int,
            partial_interval_ms: self.partial_interval_ms as int,
        }
    }

    /// A tracker that asks for a partial transcript every `partial_interval_ms`
    /// of speech, starting its clock at `now_ms`.
    pub fn new(partial_interval_ms: u64, now_ms: u64) -> (t: UtteranceTracker<T>)
        ensures
            t.model() == (UtteranceModel::<T> {
                speech: Seq::empty(),
                prev_chunk: Seq::empty(),
                last_partial_ms: now_ms as int,
                partial_interval_ms: partial_interval_ms as int,
            }),
    {
        UtteranceTracker {
            speech: Vec::new(),
            prev_chunk: Vec::new(),
            last_partial_ms: now_ms,
            partial_interval_ms,
        }
    }

    /// The audio of the utterance so far.
    pub fn speech(&self) -> (s: &Vec<T>)
        ensures
            s@ == self.model().speech,
    {
        &self.speech
    }

    /// Takes one chunk with its voice-activity state; `now_ms` is a monotonic clock.
    pub fn on_chunk(&mut self, state: VadState, chunk: &[T], now_ms: u64) -> (step: UtteranceStep<
        T,
    >)
        requires
            now_ms >= old(self).model().last_partial_ms,
        ensures
            (final(self).model(), step_kind(step)) == old(self).model().step(
                state,
                chunk@,
                now_ms as int,
            ),
            step matches UtteranceStep::Finished(u) ==> u@ == old(self).model().speech,
            final(self).model().prev_chunk == chunk@,
            state == VadState::SpeechStart ==> final(self).model().speech == old(
                self,
            ).model().prev_chunk + chunk@,
    {
        let mut step = UtteranceStep::Idle;
        match state {
            VadState::SpeechStart => {
                let mut speech = copy_to_vec(self.prev_chunk.as_slice());
                append_to(&mut speech, chunk);
                self.speech = speech;
                self.last_partial_ms = now_ms;
                step = UtteranceStep::Started;
            },
            VadState::Speech => {
                append_to(&mut self.speech, chunk);
                if now_ms - self.last_partial_ms >= self.partial_interval_ms {
                    self.last_partial_ms = now_ms;
                    step = UtteranceStep::PartialDue;
                }
            },
            VadState::SpeechEnd => {
                let mut done: Vec<T> = Vec::new();
                std::mem::swap(&mut done, &mut self.speech);
                step = UtteranceStep::Finished(done);
            },
            VadState::Silence => {},
        }
        self.prev_chunk = copy_to_vec(chunk);
        step
    }

    /// Hands over speech that never reached `SpeechEnd` (input ended mid-utterance).
    pub fn finish(&mut self) -> (u: Option<Vec<T>>)
        ensures
            final(self).model() == (UtteranceModel { speech: Seq::<T>::empty(), ..old(self).model() }),
            match u {
                Some(v) => old(self).model().speech.len() > 0 && v@ == old(self).model().speech,
                None => old(self).model().speech.len() == 0,
            },
    {
        if self.speech.len() == 0 {
            assert(self.speech@ =~= Seq::<T>::empty());
            return None;
        }
        let mut done: Vec<T> = Vec::new();
        std::mem::swap(&mut done, &mut self.speech);
        Some(done)
    }
}


/// Chunks joined end to end.
pub open spec fn concat_chunks<T>(chunks: Seq<Seq<T>>) -> Seq<T>
    decreases chunks.len(),
{
    if chunks.len() == 0 {
        Seq::<T>::empty()
    } else {
        concat_chunks(chunks.drop_last()) + chunks.last()
    }
}

/// The tracker after a sequence of chunks with their states and arrival times.
pub open spec fn feed<T>(
    u: UtteranceModel<T>,
    states: Seq<VadState>,
    chunks: Seq<Seq<T>>,
    times: Seq<int>,
) -> UtteranceModel<T>
    decreases states.len(),
{
    if states.len() == 0 || chunks.len() != states.len() || times.len() != states.len() {
        u
    } else {
        feed(u, states.drop_last(), chunks.drop_last(), times.drop_last()).step(
            states.last(),
            chunks.last(),
            times.last(),
        ).0
    }
}

/// The audio of an utterance is the chunk heard just before its `SpeechStart`
/// (the pre-roll) followed by every chunk from the `SpeechStart` on, in order;
/// this is what `SpeechEnd` hands over for the final transcript.
pub proof fn lemma_utterance_audio<T>(
    u: UtteranceModel<T>,
    states: Seq<VadState>,
    chunks: Seq<Seq<T>>,
    times: Seq<int>,
)
    requires
        states.len() >= 1,
        chunks.len() == states.len(),
        times.len() == states.len(),
        states[0] == VadState::SpeechStart,
        forall|i: int| 0 < i < states.len() ==> #[trigger] states[i] == VadState::Speech,
    ensures
        feed(u, states, chunks, times).speech == u.prev_chunk + concat_chunks(chunks),
        feed(u, states, chunks, times).prev_chunk == chunks.last(),
    decreases states.len(),
{
    if states.len() == 1 {
        assert(chunks.drop_last() =~= Seq::<Seq<T>>::empty());
        assert(states.drop_last() =~= Seq::<VadState>::empty());
        assert(concat_chunks(chunks.drop_last()) =~= Seq::<T>::empty());
        assert(concat_chunks(chunks) =~= chunks[0]);
        assert(feed(u, states.drop_last(), chunks.drop_last(), times.drop_last()) == u);
    } else {
        let s2 = states.drop_last();
        assert forall|i: int| 0 < i < s2.len() implies #[trigger] s2[i] == VadState::Speech by {
            assert(s2[i] == states[i]);
        }
        lemma_utterance_audio(u, s2, chunks.drop_last(), times.drop_last());
        assert(states.last() == states[states.len() - 1]);
        assert(u.prev_chunk + concat_chunks(chunks) =~= u.prev_chunk + concat_chunks(
            chunks.drop_last(),
        ) + chunks.last());
    }
}


/// A reply streamed through a fresh chunker: the text cut off at flushes, the
/// cleaned text of those flushes, what is still buffered, the in-block flag,
/// and the positions (in the whole reply) where flushes cut it.
pub struct ChunkRun {
    pub consumed: Seq<char>,
    pub cleaned: Seq<char>,
    pub buf: Seq<char>,
    pub in_think: bool,
    pub cuts: Seq<int>,
}

/// The chunker's run over a sequence of generated pieces.
pub open spec fn chunk_run(pieces: Seq<Seq<char>>, target: nat) -> ChunkRun
    decreases pieces.len(),
{
    if pieces.len() == 0 {
        ChunkRun {
            consumed: Seq::empty(),
            cleaned: Seq::empty(),
            buf: Seq::empty(),
            in_think: false,
            cuts: Seq::empty(),
        }
    } else {
        let prev = chunk_run(pieces.drop_last(), target);
        let b = prev.buf + pieces.last();
        if flush_due(b, target) {
            let r = think_filter(b, prev.in_think);
            ChunkRun {
                consumed: prev.consumed + b,
                cleaned: prev.cleaned + r.0,
                buf: Seq::empty(),
                in_think: r.1,
                cuts: prev.cuts.push(prev.consumed.len() as int),
            }
        } else {
            ChunkRun { buf: b, ..prev }
        }
    }
}

/// A straddle-free cut of a text is straddle-free in any prefix of it.
proof fn lemma_not_straddling_prefix(total: Seq<char>, p: Seq<char>, pat: Seq<char>, cut: int)
    requires
        p.len() <= total.len(),
        p == total.subrange(0, p.len() as int),
        not_straddling(total, pat, cut),
    ensures
        not_straddling(p, pat, cut),
{
    assert forall|i: int| i < cut < i + pat.len() implies !occurs_at(p, pat, i) by {
        if occurs_at(p, pat, i) {
            assert(total.subrange(i, i + pat.len()) =~= p.subrange(i, i + pat.len()));
            assert(occurs_at(total, pat, i));
        }
    }
}

/// No reasoning tag straddles any of `cuts` in `total`.
pub open spec fn cuts_clean(total: Seq<char>, cuts: Seq<int>) -> bool {
    forall|k: int|
        0 <= k < cuts.len() ==> not_straddling(total, open_tag(), #[trigger] cuts[k])
            && not_straddling(total, close_tag(), cuts[k])
}

proof fn lemma_chunk_run_invariant(pieces: Seq<Seq<char>>, target: nat, total: Seq<char>)
    requires
        concat_chunks(pieces).len() <= total.len(),
        concat_chunks(pieces) == total.subrange(0, concat_chunks(pieces).len() as int),
        cuts_clean(total, chunk_run(pieces, target).cuts),
    ensures
        ({
            let r = chunk_run(pieces, target);
            &&& r.consumed + r.buf == concat_chunks(pieces)
            &&& think_filter(r.consumed, false) == (r.cleaned, r.in_think)
        }),
    decreases pieces.len(),
{
    let r = chunk_run(pieces, target);
    if pieces.len() == 0 {
        assert(r.consumed + r.buf =~= concat_chunks(pieces));
        assert(Seq::<char>::empty().subrange(0, 0) =~= Seq::<char>::empty());
    } else {
        let d = pieces.drop_last();
        let prev = chunk_run(d, target);
        let whole = concat_chunks(pieces);
        let pd = concat_chunks(d);
        assert(whole == pd + pieces.last());
        assert(pd =~= total.subrange(0, pd.len() as int));
        assert(cuts_clean(total, prev.cuts)) by {
            let b = prev.buf + pieces.last();
            if flush_due(b, target) {
                assert forall|k: int| 0 <= k < prev.cuts.len() implies not_straddling(
                    total,
                    open_tag(),
                    #[trigger] prev.cuts[k],
                ) && not_straddling(total, close_tag(), prev.cuts[k]) by {
                    assert(r.cuts[k] == prev.cuts[k]);
                }
            }
        }
        lemma_chunk_run_invariant(d, target, total);
        let b = prev.buf + pieces.last();
        assert(prev.consumed + b =~= whole);
        if flush_due(b, target) {
            let k = prev.cuts.len() as int;
            assert(r.cuts[k] == prev.consumed.len());
            let p = prev.consumed + b;
            assert(p =~= total.subrange(0, p.len() as int));
            lemma_not_straddling_prefix(total, p, open_tag(), prev.consumed.len() as int);
            lemma_not_straddling_prefix(total, p, close_tag(), prev.consumed.len() as int);
            lemma_filter_think_split(prev.consumed, b, false);
            assert(r.consumed + r.buf =~= whole);
        }
    }
}

/// Cutting a streamed reply into chunks does not change what survives
/// reasoning-block removal: the cleaned text of every flush, followed by the
/// cleaned rest that `finish` hands on, is the whole reply with its reasoning
/// blocks removed, as long as no tag is cut in two at a flush.
pub proof fn lemma_chunks_cover_reply(pieces: Seq<Seq<char>>, target: nat)
    requires
        cuts_clean(concat_chunks(pieces), chunk_run(pieces, target).cuts),
        not_straddling(
            concat_chunks(pieces),
            open_tag(),
            chunk_run(pieces, target).consumed.len() as int,
        ),
        not_straddling(
            concat_chunks(pieces),
            close_tag(),
            chunk_run(pieces, target).consumed.len() as int,
        ),
    ensures
        ({
            let r = chunk_run(pieces, target);
            think_filter(concat_chunks(pieces), false).0 == r.cleaned + think_filter(
                r.buf,
                r.in_think,
            ).0
        }),
{
    let total = concat_chunks(pieces);
    assert(total =~= total.subrange(0, total.len() as int));
    lemma_chunk_run_invariant(pieces, target, total);
    let r = chunk_run(pieces, target);
    lemma_filter_think_split(r.consumed, r.buf, false);
}

} // verus!

verus! {

/// The pre-roll remembered after a chunk is exactly that chunk, whatever its
/// voice-activity state: silence is never accumulated.
pub proof fn lemma_preroll_is_last_chunk<T>(
    u: UtteranceModel<T>,
    state: VadState,
    chunk: Seq<T>,
    now_ms: int,
)
    ensures
        u.step(state, chunk, now_ms).0.prev_chunk == chunk,
        state == VadState::Silence ==> u.step(state, chunk, now_ms).0.speech == u.speech,
{
}

/// Across two calls: an utterance that opens on the second chunk starts with
/// exactly the first chunk (one chunk of pre-roll), then the onset chunk,
/// whatever came before the first chunk.
pub proof fn lemma_utterance_starts_with_one_chunk<T>(
    u: UtteranceModel<T>,
    s1: VadState,
    c1: Seq<T>,
    t1: int,
    c2: Seq<T>,
    t2: int,
)
    ensures
        u.step(s1, c1, t1).0.step(VadState::SpeechStart, c2, t2).0.speech == c1 + c2,
{
}

/// A text holds a character that is not white space exactly when trimming
/// leaves something.
pub proof fn lemma_trim_nonempty(s: Seq<char>)
    ensures
        trim(s).len() > 0 <==> exists|i: int| 0 <= i < s.len() && !is_white_space(#[trigger] s[i]),
{
    lemma_trim_end_nonempty(s);
    lemma_trim_start_nonempty(trim_end(s));
    if trim_end(s).len() > 0 {
        let t = trim_end(s);
        lemma_trim_end_prefix(s);
        assert(!is_white_space(t[t.len() - 1]));
        assert(s[t.len() - 1] == t[t.len() - 1]);
    }
}

proof fn lemma_trim_end_prefix(s: Seq<char>)
    ensures
        trim_end(s).len() <= s.len(),
        trim_end(s) == s.take(trim_end(s).len() as int),
        trim_end(s).len() > 0 ==> !is_white_space(trim_end(s).last()),
        forall|i: int| trim_end(s).len() <= i < s.len() ==> is_white_space(#[trigger] s[i]),
    decreases s.len(),
{
    if s.len() > 0 && is_white_space(s.last()) {
        lemma_trim_end_prefix(s.drop_last());
        let t = trim_end(s.drop_last());
        assert(s.drop_last().take(t.len() as int) =~= s.take(t.len() as int));
        assert forall|i: int| t.len() <= i < s.len() implies is_white_space(#[trigger] s[i]) by {
            if i < s.len() - 1 {
                assert(s[i] == s.drop_last()[i]);
            }
        }
    } else {
        assert(s.take(s.len() as int) =~= s);
    }
}

proof fn lemma_trim_end_nonempty(s: Seq<char>)
    ensures
        trim_end(s).len() > 0 <==> exists|i: int| 0 <= i < s.len() && !is_white_space(#[trigger] s[i]),
{
    lemma_trim_end_prefix(s);
    let t = trim_end(s);
    if t.len() > 0 {
        assert(s[t.len() - 1] == t[t.len() - 1]);
        assert(!is_white_space(s[t.len() - 1]));
    }
}

proof fn lemma_trim_start_nonempty(s: Seq<char>)
    ensures
        trim_start(s).len() > 0 <==> exists|i: int| 0 <= i < s.len() && !is_white_space(#[trigger] s[i]),
    decreases s.len(),
{
    if s.len() > 0 && is_white_space(s[0]) {
        let t = s.drop_first();
        lemma_trim_start_nonempty(t);
        if exists|i: int| 0 <= i < s.len() && !is_white_space(#[trigger] s[i]) {
            let i = choose|i: int| 0 <= i < s.len() && !is_white_space(#[trigger] s[i]);
            assert(i > 0);
            assert(t[i - 1] == s[i]);
        }
        if exists|i: int| 0 <= i < t.len() && !is_white_space(#[trigger] t[i]) {
            let i = choose|i: int| 0 <= i < t.len() && !is_white_space(#[trigger] t[i]);
            assert(s[i + 1] == t[i]);
        }
    } else if s.len() > 0 {
        assert(!is_white_space(s[0]));
    }
}

/// A chunk is handed on exactly when it holds a character that is not white space.
pub proof fn lemma_speakable_means_not_blank(cleaned: Seq<char>)
    ensures
        speakable(cleaned) <==> exists|i: int|
            0 <= i < cleaned.len() && !is_white_space(#[trigger] cleaned[i]),
{
    lemma_trim_nonempty(cleaned);
}

} // verus!

//! Voice-activity state machine: per-frame speech decisions become the edges
//! `SpeechStart` / `SpeechEnd` that open and close an utterance.
use vstd::prelude::*;

verus! {

/// State transition reported by a VAD for a single audio chunk.
#[derive(Clone, Copy, Debug, PartialEq, Eq, Structural)]
pub enum VadState {
    /// No speech detected.
    Silence,
    /// Rising edge: speech just began.
    SpeechStart,
    /// Speech in progress.
    Speech,
    /// Falling edge: the utterance is complete.
    SpeechEnd,
}

/// Samples per inference frame at 16 kHz (32 ms).
pub const FRAME_SIZE: usize = 512;

/// Samples per millisecond at the internal 16 kHz rate.
pub const SAMPLES_PER_MS: usize = 16;

/// How significant a state is when several frames are summarised.
pub open spec fn significance(s: VadState) -> int {
    match s {
        VadState::Silence => 0,
        VadState::Speech => 1,
        VadState::SpeechStart => 2,
        VadState::SpeechEnd => 3,
    }
}

/// The state that `merge` returns, as a function.
pub open spec fn spec_merge(a: VadState, b: VadState) -> VadState {
    if significance(a) >= significance(b) {
        a
    } else {
        b
    }
}

/// Collapses two per-frame states into the more significant one:
/// `SpeechEnd` over `SpeechStart` over `Speech` over `Silence`.
pub fn merge(a: VadState, b: VadState) -> (r: VadState)
    ensures
        r == spec_merge(a, b),
{
    match (a, b) {
        (VadState::SpeechEnd, _) | (_, VadState::SpeechEnd) => VadState::SpeechEnd,
        (VadState::SpeechStart, _) | (_, VadState::SpeechStart) => VadState::SpeechStart,
        (VadState::Speech, _) | (_, VadState::Speech) => VadState::Speech,
        _ => VadState::Silence,
    }
}

proof fn lemma_significance_injective(a: VadState, b: VadState)
    ensures
        significance(a) == significance(b) ==> a == b,
{
}

/// `merge` is commutative, associative and idempotent, `Silence` is its
/// identity and `SpeechEnd` absorbs everything.
pub proof fn lemma_merge_laws(a: VadState, b: VadState, c: VadState)
    ensures
        spec_merge(a, b) == spec_merge(b, a),
        spec_merge(spec_merge(a, b), c) == spec_merge(a, spec_merge(b, c)),
        spec_merge(a, a) == a,
        spec_merge(VadState::Silence, a) == a,
        spec_merge(VadState::SpeechEnd, a) == VadState::SpeechEnd,
{
    lemma_significance_injective(a, b);
    lemma_significance_injective(b, c);
    lemma_significance_injective(a, c);
}

/// The frame-level state machine of a voice-activity detector: it counts
/// samples, opens an utterance on the first speech frame and closes it after
/// `min_silence_samples` of continuous non-speech.
pub struct VadMachine {
    in_speech: bool,
    speech_start_sample: usize,
    silence_start_sample: usize,
    current_sample: usize,
    min_silence_samples: usize,
}

/// The plain values that a `VadMachine` holds.
pub struct VadModel {
    pub in_speech: bool,
    pub speech_start_sample: int,
    pub silence_start_sample: int,
    pub current_sample: int,
    pub min_silence_samples: int,
}

impl VadModel {
    /// The machine's state after one frame, and the state it reports.
    pub open spec fn step(self, is_speech: bool) -> (VadModel, VadState) {
        let cur = self.current_sample + FRAME_SIZE;
        if is_speech {
            if !self.in_speech {
                (
                    VadModel {
                        in_speech: true,
                        speech_start_sample: cur - FRAME_SIZE,
                        silence_start_sample: 0,
                        current_sample: cur,
                        ..self
                    },
                    VadState::SpeechStart,
                )
            } else {
                (VadModel { silence_start_sample: 0, current_sample: cur, ..self }, VadState::Speech)
            }
        } else if self.in_speech {
            let silence_start = if self.silence_start_sample == 0 {
                cur
            } else {
                self.silence_start_sample
            };
            if cur - silence_start >= self.min_silence_samples {
                (
                    VadModel { in_speech: false, silence_start_sample: 0, current_sample: cur, ..self },
                    VadState::SpeechEnd,
                )
            } else {
                (
                    VadModel { silence_start_sample: silence_start, current_sample: cur, ..self },
                    VadState::Speech,
                )
            }
        } else {
            (VadModel { current_sample: cur, ..self }, VadState::Silence)
        }
    }

    /// The state machine after a sequence of frames, and the states it reports.
    pub open spec fn run(self, decisions: Seq<bool>) -> (VadModel, Seq<VadState>)
        decreases decisions.len(),
    {
        if decisions.len() == 0 {
            (self, Seq::<VadState>::empty())
        } else {
            let prev = self.run(decisions.drop_last());
            let next = prev.0.step(decisions.last());
            (next.0, prev.1.push(next.1))
        }
    }

    /// The machine holds counters that make sense together.
    pub open spec fn wf(self) -> bool {
        &&& 0 <= self.silence_start_sample <= self.current_sample
        &&& 0 <= self.speech_start_sample
        &&& 0 <= self.min_silence_samples
        &&& !self.in_speech ==> self.silence_start_sample == 0
    }
}

impl VadMachine {
    pub closed spec fn model(&self) -> VadModel {
        VadModel {
            in_speech: self.in_speech,
            speech_start_sample: self.speech_start_sample as int,
            silence_start_sample: self.silence_start_sample as int,
            current_sample: self.current_sample as int,
            min_silence_samples: self.min_silence_samples as int,
        }
    }

    /// The model of a freshly started machine.
    pub open spec fn initial(min_silence_ms: u32) -> VadModel {
        VadModel {
            in_speech: false,
            speech_start_sample: 0,
            silence_start_sample: 0,
            current_sample: 0,
            min_silence_samples: SAMPLES_PER_MS * min_silence_ms,
        }
    }

    /// A machine that needs `min_silence_ms` of silence to end an utterance.
    pub fn new(min_silence_ms: u32) -> (m: VadMachine)
        requires
            SAMPLES_PER_MS * min_silence_ms <= usize::MAX,
        ensures
            m.model() == Self::initial(min_silence_ms),
            m.model().wf(),
    {
        VadMachine {
            in_speech: false,
            speech_start_sample: 0,
            silence_start_sample: 0,
            current_sample: 0,
            min_silence_samples: SAMPLES_PER_MS * min_silence_ms as usize,
        }
    }

    /// Number of samples counted so far.
    pub fn samples_seen(&self) -> (n: usize)
        ensures
            n == self.model().current_sample,
    {
        self.current_sample
    }

    /// Whether an utterance is open.
    pub fn in_speech(&self) -> (b: bool)
        ensures
            b == self.model().in_speech,
    {
        self.in_speech
    }

    /// Advances the machine by one frame whose speech decision is `is_speech`.
    pub fn step(&mut self, is_speech: bool) -> (s: VadState)
        requires
            old(self).model().wf(),
            old(self).model().current_sample + FRAME_SIZE <= usize::MAX,
        ensures
            (final(self).model(), s) == old(self).model().step(is_speech),
            final(self).model().wf(),
    {
        self.current_sample = self.current_sample + FRAME_SIZE;
        if is_speech {
            self.silence_start_sample = 0;
            if !self.in_speech {
                self.in_speech = true;
                self.speech_start_sample = self.current_sample - FRAME_SIZE;
                VadState::SpeechStart
            } else {
                VadState::Speech
            }
        } else if self.in_speech {
            if self.silence_start_sample == 0 {
                self.silence_start_sample = self.current_sample;
            }
            if self.current_sample - self.silence_start_sample >= self.min_silence_samples {
                self.in_speech = false;
                self.silence_start_sample = 0;
                VadState::SpeechEnd
            } else {
                VadState::Speech
            }
        } else {
            VadState::Silence
        }
    }

    /// Returns the machine to its freshly started state.
    pub fn reset(&mut self)
        ensures
            final(self).model() == (VadModel {
                in_speech: false,
                speech_start_sample: 0,
                silence_start_sample: 0,
                current_sample: 0,
                ..old(self).model()
            }),
            final(self).model().wf(),
    {
        self.in_speech = false;
        self.speech_start_sample = 0;
        self.silence_start_sample = 0;
        self.current_sample = 0;
    }
}


/// Whether `state` can follow when an utterance is open (`open`), and whether
/// one is open after it: `SpeechStart` and `Silence` only while none is open,
/// `Speech` and `SpeechEnd` only inside one.
pub open spec fn edge_after(open: bool, state: VadState) -> Option<bool> {
    match state {
        VadState::SpeechStart => if !open { Some(true) } else { None },
        VadState::Speech => if open { Some(true) } else { None },
        VadState::SpeechEnd => if open { Some(false) } else { None },
        VadState::Silence => if !open { Some(false) } else { None },
    }
}

/// Follows `edge_after` through a sequence of reported states.
pub open spec fn edges_follow(open: bool, states: Seq<VadState>) -> Option<bool>
    decreases states.len(),
{
    if states.len() == 0 {
        Some(open)
    } else {
        match edges_follow(open, states.drop_last()) {
            Some(o) => edge_after(o, states.last()),
            None => None,
        }
    }
}

proof fn lemma_step_edge(m: VadModel, is_speech: bool)
    requires
        m.wf(),
    ensures
        m.step(is_speech).0.wf(),
        edge_after(m.in_speech, m.step(is_speech).1) == Some(m.step(is_speech).0.in_speech),
        m.step(is_speech).0.min_silence_samples == m.min_silence_samples,
{
}

/// The states a detector reports always form well-nested utterances: every
/// `SpeechEnd` closes an utterance opened by a `SpeechStart`, no utterance is
/// opened twice, and `Speech` is reported only inside one.
pub proof fn lemma_vad_edges_well_formed(m: VadModel, decisions: Seq<bool>)
    requires
        m.wf(),
    ensures
        m.run(decisions).0.wf(),
        edges_follow(m.in_speech, m.run(decisions).1) == Some(m.run(decisions).0.in_speech),
    decreases decisions.len(),
{
    if decisions.len() > 0 {
        let d = decisions.drop_last();
        lemma_vad_edges_well_formed(m, d);
        lemma_step_edge(m.run(d).0, decisions.last());
        assert(m.run(decisions).1.drop_last() =~= m.run(d).1);
    }
}

/// What the machine remembers about the frames of `decisions`, run from `m`:
/// the sample count, and that the silence it measures consists of non-speech frames.
pub open spec fn silence_tracked(m: VadModel, decisions: Seq<bool>) -> bool {
    let r = m.run(decisions).0;
    let n = decisions.len();
    &&& r.current_sample == m.current_sample + FRAME_SIZE * n
    &&& r.min_silence_samples == m.min_silence_samples
    &&& r.in_speech && r.silence_start_sample == 0 ==> n > 0 && decisions[n - 1]
    &&& r.in_speech && r.silence_start_sample != 0 ==> {
        &&& m.current_sample < r.silence_start_sample <= m.current_sample + FRAME_SIZE * n
        &&& forall|j: int|
            0 <= j < n && m.current_sample + FRAME_SIZE * (j + 1) >= r.silence_start_sample
                ==> !#[trigger] decisions[j]
    }
}

proof fn lemma_silence_tracked(m: VadModel, decisions: Seq<bool>)
    requires
        m.wf(),
        !m.in_speech,
    ensures
        silence_tracked(m, decisions),
    decreases decisions.len(),
{
    if decisions.len() > 0 {
        let d = decisions.drop_last();
        lemma_silence_tracked(m, d);
        assert forall|j: int| 0 <= j < d.len() implies d[j] == decisions[j] by {}
    }
}

/// An utterance ends only after at least `min_silence_samples` of non-speech:
/// when the last frame of a run reports `SpeechEnd`, every frame that lies
/// within `min_silence_samples` before it (itself included) was a non-speech frame.
pub proof fn lemma_speech_end_needs_silence(m: VadModel, decisions: Seq<bool>)
    requires
        m.wf(),
        !m.in_speech,
        decisions.len() > 0,
        m.run(decisions).1.last() == VadState::SpeechEnd,
    ensures
        forall|j: int|
            0 <= j < decisions.len() && FRAME_SIZE * (decisions.len() - 1 - j)
                <= m.min_silence_samples ==> !#[trigger] decisions[j],
{
    let n = decisions.len() as int;
    let d = decisions.drop_last();
    lemma_silence_tracked(m, d);
    lemma_vad_edges_well_formed(m, d);
    assert forall|j: int| 0 <= j < d.len() implies d[j] == decisions[j] by {}
}

} // verus!

verus! {

/// How one frame moves the machine, whatever its counters: a speech frame
/// while no utterance is open always opens one (`SpeechStart`), a speech frame
/// inside an utterance keeps it open (`Speech`), and a non-speech frame while
/// none is open reports `Silence`; a non-speech frame inside an utterance
/// either keeps it open (`Speech`) or closes it (`SpeechEnd`).
pub proof fn lemma_step_transitions(m: VadModel, is_speech: bool)
    requires
        m.wf(),
    ensures
        is_speech && !m.in_speech ==> m.step(is_speech).1 == VadState::SpeechStart
            && m.step(is_speech).0.in_speech,
        is_speech && m.in_speech ==> m.step(is_speech).1 == VadState::Speech
            && m.step(is_speech).0.in_speech,
        !is_speech && !m.in_speech ==> m.step(is_speech).1 == VadState::Silence
            && !m.step(is_speech).0.in_speech,
        !is_speech && m.in_speech ==> (m.step(is_speech).1 == VadState::Speech
            && m.step(is_speech).0.in_speech) || (m.step(is_speech).1 == VadState::SpeechEnd
            && !m.step(is_speech).0.in_speech),
        m.step(is_speech).0.current_sample == m.current_sample + FRAME_SIZE,
        m.step(is_speech).0.min_silence_samples == m.min_silence_samples,
{
}

/// After an utterance has closed, the next speech frame opens a new one, no
/// matter how many utterances came before: reopening never depends on where
/// the previous utterance started.
pub proof fn lemma_speech_reopens_after_end(m: VadModel)
    requires
        m.wf(),
        m.in_speech,
        m.step(false).1 == VadState::SpeechEnd,
    ensures
        m.step(false).0.wf(),
        m.step(false).0.step(true).1 == VadState::SpeechStart,
{
}

} // verus!

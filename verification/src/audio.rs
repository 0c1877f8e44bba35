//! Device-independent parts of audio capture and playback: fixed-size
//! chunking of a sample stream and the playback queue that feeds an
//! interleaved output buffer.
use vstd::prelude::*;
use std::collections::VecDeque;
use crate::config::AudioConfig;

verus! {

/// Collects a stream of samples and hands it out again in frames of a fixed size.
pub struct FrameBuffer<T> {
    buf: Vec<T>,
    frame_size: usize,
}

impl<T: Copy> FrameBuffer<T> {
    /// Samples received and not yet handed out, oldest first.
    pub closed spec fn pending(&self) -> Seq<T> {
        self.buf@
    }

    /// The number of samples in each frame handed out.
    pub closed spec fn frame_len(&self) -> nat {
        self.frame_size as nat
    }

    pub fn new(frame_size: usize) -> (b: FrameBuffer<T>)
        requires
            frame_size > 0,
        ensures
            b.pending() == Seq::<T>::empty(),
            b.frame_len() == frame_size,
    {
        FrameBuffer { buf: Vec::new(), frame_size }
    }

    pub fn frame_size(&self) -> (n: usize)
        ensures
            n == self.frame_len(),
    {
        self.frame_size
    }

    /// Number of samples waiting.
    pub fn len(&self) -> (n: usize)
        ensures
            n == self.pending().len(),
    {
        self.buf.len()
    }

    /// Appends samples to the pending stream.
    pub fn push(&mut self, samples: &[T])
        ensures
            final(self).pending() == old(self).pending() + samples@,
            final(self).frame_len() == old(self).frame_len(),
    {
        let ghost start = self.buf@;
        let mut i: usize = 0;
        while i < samples.len()
            invariant
                i <= samples@.len(),
                self.buf@ == start + samples@.take(i as int),
                self.frame_size == old(self).frame_size,
            decreases samples.len() - i,
        {
            self.buf.push(samples[i]);
            proof {
                assert(samples@.take(i + 1) =~= samples@.take(i as int).push(samples@[i as int]));
            }
            i = i + 1;
        }
        proof {
            assert(samples@.take(samples@.len() as int) =~= samples@);
        }
    }

    /// Hands out the oldest full frame, if one is waiting.
    pub fn pop_frame(&mut self) -> (frame: Option<Vec<T>>)
        requires
            old(self).frame_len() > 0,
        ensures
            final(self).frame_len() == old(self).frame_len(),
            match frame {
                Some(f) => {
                    &&& old(self).pending().len() >= old(self).frame_len()
                    &&& f@ == split_frames(old(self).pending(), old(self).frame_len())[0]
                    &&& split_frames(final(self).pending(), final(self).frame_len())
                        == split_frames(old(self).pending(), old(self).frame_len()).drop_first()
                    &&& f@ == old(self).pending().take(old(self).frame_len() as int)
                    &&& final(self).pending() == old(self).pending().skip(
                        old(self).frame_len() as int,
                    )
                },
                None => {
                    &&& old(self).pending().len() < old(self).frame_len()
                    &&& final(self).pending() == old(self).pending()
                },
            },
    {
        if self.buf.len() < self.frame_size {
            return None;
        }
        let mut rest = self.buf.split_off(self.frame_size);
        std::mem::swap(&mut self.buf, &mut rest);
        proof {
            assert(rest@ =~= old(self).buf@.take(self.frame_size as int));
            assert(self.buf@ =~= old(self).buf@.skip(self.frame_size as int));
            let f = split_frames(old(self).buf@, self.frame_size as nat);
            assert(f.drop_first() =~= split_frames(self.buf@, self.frame_size as nat));
        }
        Some(rest)
    }

    /// Drops all pending samples.
    pub fn clear(&mut self)
        ensures
            final(self).pending() == Seq::<T>::empty(),
            final(self).frame_len() == old(self).frame_len(),
    {
        self.buf.clear();
    }
}

/// The sample played for `frame`: the queued one, or `silence` once the queue runs dry.
pub open spec fn frame_sample<T>(queued: Seq<T>, frame: int, silence: T) -> T {
    if frame < queued.len() {
        queued[frame]
    } else {
        silence
    }
}

/// Mono samples waiting to be played.
pub struct PlaybackQueue<T> {
    queue: VecDeque<T>,
}

impl<T: Copy> PlaybackQueue<T> {
    pub closed spec fn queued(&self) -> Seq<T> {
        self.queue@
    }

    pub fn new() -> (q: PlaybackQueue<T>)
        ensures
            q.queued() == Seq::<T>::empty(),
    {
        PlaybackQueue { queue: VecDeque::new() }
    }

    /// Number of samples waiting.
    pub fn len(&self) -> (n: usize)
        ensures
            n == self.queued().len(),
    {
        self.queue.len()
    }

    /// Queues samples after those already waiting.
    pub fn enqueue(&mut self, samples: &[T])
        ensures
            final(self).queued() == old(self).queued() + samples@,
    {
        let ghost start = self.queue@;
        let mut i: usize = 0;
        while i < samples.len()
            invariant
                i <= samples@.len(),
                self.queue@ == start + samples@.take(i as int),
            decreases samples.len() - i,
        {
            self.queue.push_back(samples[i]);
            proof {
                assert(samples@.take(i + 1) =~= samples@.take(i as int).push(samples@[i as int]));
            }
            i = i + 1;
        }
        proof {
            assert(samples@.take(samples@.len() as int) =~= samples@);
        }
    }

    /// Drops everything queued (used when the user interrupts a reply).
    pub fn flush(&mut self)
        ensures
            final(self).queued() == Seq::<T>::empty(),
    {
        self.queue.clear();
    }

    /// Produces an interleaved output buffer of `data_len` slots and `channels`
    /// channels: each whole frame takes ONE queued sample (or `silence` when the
    /// queue is empty) and writes it to every channel; slots past the last whole
    /// frame are not produced.
    pub fn fill(&mut self, data_len: usize, channels: usize, silence: T) -> (out: Vec<T>)
        requires
            channels > 0,
        ensures
            out@.len() == (data_len / channels) * channels,
            forall|i: int|
                0 <= i < out@.len() ==> #[trigger] out@[i] == frame_sample(
                    old(self).queued(),
                    i / channels as int,
                    silence,
                ),
            final(self).queued() == old(self).queued().skip(
                if old(self).queued().len() < data_len / channels {
                    old(self).queued().len() as int
                } else {
                    (data_len / channels) as int
                },
            ),
    {
        let ghost start = self.queue@;
        let frames = data_len / channels;
        proof {
            assert(frames * channels <= data_len) by (nonlinear_arith)
                requires
                    frames == data_len / channels,
                    channels > 0,
            ;
        }
        let mut out: Vec<T> = Vec::new();
        let mut f: usize = 0;
        while f < frames
            invariant
                f <= frames,
                frames == data_len / channels,
                frames * channels <= data_len,
                channels > 0,
                out@.len() == f * channels,
                forall|i: int|
                    0 <= i < out@.len() ==> #[trigger] out@[i] == frame_sample(
                        start,
                        i / channels as int,
                        silence,
                    ),
                self.queue@ == start.skip(if start.len() < f { start.len() as int } else { f as int }),
            decreases frames - f,
        {
            let s = match self.queue.pop_front() {
                Some(x) => x,
                None => silence,
            };
            proof {
                assert(s == frame_sample(start, f as int, silence));
                assert((f + 1) * channels <= frames * channels) by (nonlinear_arith)
                    requires
                        f + 1 <= frames,
                        channels > 0,
                ;
                assert((f + 1) * channels == f * channels + channels) by (nonlinear_arith);
            }
            let mut c: usize = 0;
            while c < channels
                invariant
                    c <= channels,
                    channels > 0,
                    f < frames,
                    (f + 1) * channels <= data_len,
                    (f + 1) * channels == f * channels + channels,
                    out@.len() == f * channels + c,
                    s == frame_sample(start, f as int, silence),
                    forall|i: int|
                        0 <= i < out@.len() ==> #[trigger] out@[i] == frame_sample(
                            start,
                            i / channels as int,
                            silence,
                        ),
                decreases channels - c,
            {
                let ghost idx = out@.len() as int;
                proof {
                    assert(idx / channels as int == f) by (nonlinear_arith)
                        requires
                            idx == f * channels + c,
                            c < channels,
                            channels > 0,
                            f >= 0,
                    ;
                }
                out.push(s);
                c = c + 1;
            }
            proof {
                assert(start.skip(if start.len() < f + 1 { start.len() as int } else { f + 1 })
                    =~= if start.len() <= f { start.skip(start.len() as int) } else { start.skip(f as int).subrange(1, start.len() - f) });
            }
            f = f + 1;
        }
        out
    }
}

/// Microphone capture settings for a device that delivers mono 16 kHz chunks.
pub struct CpalCapture {
    config: AudioConfig,
}

impl CpalCapture {
    pub closed spec fn settings(&self) -> AudioConfig {
        self.config
    }

    pub fn new(config: AudioConfig) -> (c: CpalCapture)
        ensures
            c.settings() == config,
    {
        CpalCapture { config }
    }

    pub fn config(&self) -> (c: &AudioConfig)
        ensures
            *c == self.settings(),
    {
        &self.config
    }
}

/// Playback settings for the output device.
pub struct CpalSink {
    config: AudioConfig,
}

impl CpalSink {
    pub closed spec fn settings(&self) -> AudioConfig {
        self.config
    }

    pub fn new(config: AudioConfig) -> (s: CpalSink)
        ensures
            s.settings() == config,
    {
        CpalSink { config }
    }

    pub fn config(&self) -> (c: &AudioConfig)
        ensures
            *c == self.settings(),
    {
        &self.config
    }
}


/// The full frames of `n` samples that `s` splits into, in order.
pub open spec fn split_frames<T>(s: Seq<T>, n: nat) -> Seq<Seq<T>>
    decreases s.len(),
{
    if n == 0 || s.len() < n {
        Seq::<Seq<T>>::empty()
    } else {
        seq![s.take(n as int)] + split_frames(s.skip(n as int), n)
    }
}

/// What is left of `s` after its full frames of `n` samples.
pub open spec fn split_rest<T>(s: Seq<T>, n: nat) -> Seq<T>
    decreases s.len(),
{
    if n == 0 || s.len() < n {
        s
    } else {
        split_rest(s.skip(n as int), n)
    }
}

/// Frames joined end to end.
pub open spec fn join_frames<T>(frames: Seq<Seq<T>>) -> Seq<T>
    decreases frames.len(),
{
    if frames.len() == 0 {
        Seq::<T>::empty()
    } else {
        frames[0] + join_frames(frames.drop_first())
    }
}

/// Cutting a stream into frames loses and reorders nothing: the frames,
/// joined, followed by the short remainder give back the stream, and every
/// frame has exactly `n` samples.
pub proof fn lemma_frames_lossless<T>(s: Seq<T>, n: nat)
    requires
        n > 0,
    ensures
        join_frames(split_frames(s, n)) + split_rest(s, n) == s,
        split_rest(s, n).len() < n,
        forall|i: int| 0 <= i < split_frames(s, n).len() ==> (#[trigger] split_frames(s, n)[i]).len() == n,
    decreases s.len(),
{
    if s.len() >= n {
        let t = s.skip(n as int);
        lemma_frames_lossless(t, n);
        let f = split_frames(s, n);
        assert(f.drop_first() =~= split_frames(t, n));
        let j = join_frames(split_frames(t, n));
        assert(j + split_rest(t, n) == t);
        assert(s.take(n as int) + t =~= s);
        assert(join_frames(f) == s.take(n as int) + j);
        assert(s.take(n as int) + j + split_rest(t, n) =~= s.take(n as int) + (j + split_rest(t, n)));
        assert forall|i: int| 0 <= i < f.len() implies (#[trigger] f[i]).len() == n by {
            if i > 0 {
                assert(f[i] == split_frames(t, n)[i - 1]);
            }
        }
    } else {
        assert(Seq::<T>::empty() + s =~= s);
    }
}

} // verus!

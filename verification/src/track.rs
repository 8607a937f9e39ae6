//! A track: one sample sequence and the playhead that walks it.

use vstd::arithmetic::div_mod::lemma_add_mod_noop_right;
use vstd::arithmetic::div_mod::lemma_mod_multiples_vanish;
use vstd::arithmetic::div_mod::lemma_small_mod;
use vstd::prelude::*;
use crate::decode::decode;
use crate::decode::decoded_wav;
use crate::decode::DecodeError;

verus! {

/// What a track does once its playhead has passed the last sample.
#[derive(Clone, Copy, Debug, PartialEq, Eq, Structural)]
pub enum Playback {
    /// Play the sequence once, then stay silent.
    Bounded,
    /// Start over from the first sample, without end.
    Looping,
}

/// Why a track refused a request.
#[derive(Clone, Copy, Debug, PartialEq, Eq, Structural)]
pub enum TrackError {
    /// A track needs at least one sample.
    EmptySequence,
    /// The position lies outside the range that the track's policy allows.
    SeekOutOfRange,
}

/// The mathematical state of a track. A sample is an amplitude in units of
/// `1 / FULL_SCALE`; a track may hold samples beyond full scale.
pub struct TrackState {
    pub samples: Seq<i32>,
    pub playhead: nat,
    pub policy: Playback,
}

impl TrackState {
    /// A freshly built track: the playhead stands on the first sample.
    pub open spec fn fresh(samples: Seq<i32>, policy: Playback) -> TrackState {
        TrackState { samples, playhead: 0, policy }
    }

    /// The positions that a playhead may take under `policy`: a looping track
    /// always stands on a sample, a bounded one may also stand past the end.
    pub open spec fn admits(self, position: nat) -> bool {
        match self.policy {
            Playback::Looping => position < self.samples.len(),
            Playback::Bounded => position <= self.samples.len(),
        }
    }

    /// A track is well formed when it has a sample and its playhead stands
    /// where the policy admits it.
    pub open spec fn wf(self) -> bool {
        self.samples.len() >= 1 && self.admits(self.playhead)
    }

    /// The sample that the next call yields: the one under the playhead, or
    /// silence where the playhead stands past the end.
    pub open spec fn current(self) -> int {
        if self.playhead < self.samples.len() {
            self.samples[self.playhead as int] as int
        } else {
            0
        }
    }

    /// The state after one call.
    pub open spec fn step(self) -> TrackState {
        let len = self.samples.len();
        let playhead = match self.policy {
            Playback::Looping => (self.playhead + 1) % len,
            Playback::Bounded => if self.playhead < len {
                self.playhead + 1
            } else {
                self.playhead
            },
        };
        TrackState { playhead, ..self }
    }

    /// The state after `calls` calls.
    pub open spec fn advance(self, calls: nat) -> TrackState
        decreases calls,
    {
        if calls == 0 {
            self
        } else {
            self.step().advance((calls - 1) as nat)
        }
    }

    /// The sample that call number `index` yields, counting from zero.
    pub open spec fn sample_at(self, index: nat) -> int {
        self.advance(index).current()
    }

    /// The state with the playhead moved to `position`.
    pub open spec fn moved_to(self, position: nat) -> TrackState {
        TrackState { playhead: position, ..self }
    }
}

/// One sample sequence with its playhead and its playback policy.
#[derive(Debug)]
pub struct AudioTrack {
    samples: Vec<i32>,
    playhead: usize,
    policy: Playback,
}

impl View for AudioTrack {
    type V = TrackState;

    closed spec fn view(&self) -> TrackState {
        TrackState { samples: self.samples@, playhead: self.playhead as nat, policy: self.policy }
    }
}

impl AudioTrack {
    /// Every track is well formed, whatever was asked of it.
    #[verifier::type_invariant]
    pub open spec fn well_formed(self) -> bool {
        self@.wf()
    }

    /// Builds a track that stands on the first of `samples`.
    pub fn new(samples: Vec<i32>, policy: Playback) -> (r: Result<AudioTrack, TrackError>)
        ensures
            samples@.len() == 0 ==> r == Err::<AudioTrack, TrackError>(TrackError::EmptySequence),
            samples@.len() > 0 ==> r is Ok && r->Ok_0@ == TrackState::fresh(samples@, policy),
    {
        if samples.len() == 0 {
            return Err(TrackError::EmptySequence);
        }
        Ok(AudioTrack { samples, playhead: 0, policy })
    }

    /// Builds a track from the bytes of a WAV file: it stands on the first of
    /// the samples that the bytes decode to.
    pub fn from_wav(bytes: &[u8], policy: Playback) -> (r: Result<AudioTrack, DecodeError>)
        ensures
            match decoded_wav(bytes@) {
                Ok(waveform) => r is Ok && r->Ok_0@ == TrackState::fresh(waveform.samples, policy),
                Err(e) => r == Err::<AudioTrack, DecodeError>(e),
            },
    {
        match decode(bytes) {
            Ok(waveform) => Ok(AudioTrack { samples: waveform.samples, playhead: 0, policy }),
            Err(e) => Err(e),
        }
    }

    /// Yields the sample under the playhead and moves the playhead on by one;
    /// a bounded track that has played its last sample yields silence and
    /// stays where it is.
    pub fn next(&mut self) -> (sample: i32)
        ensures
            sample == old(self)@.current(),
            final(self)@ == old(self)@.step(),
    {
        proof {
            use_type_invariant(&*self);
        }
        let len: usize = self.samples.len();
        if self.playhead >= len {
            return 0;
        }
        let sample: i32 = self.samples[self.playhead];
        match self.policy {
            Playback::Bounded => {
                self.playhead = self.playhead + 1;
            },
            Playback::Looping => {
                self.playhead = (self.playhead + 1) % len;
            },
        }
        sample
    }

    /// Moves the playhead to `position` if the policy admits it there, and
    /// leaves the track as it is if not.
    pub fn seek(&mut self, position: usize) -> (r: Result<(), TrackError>)
        ensures
            old(self)@.admits(position as nat) ==> r == Ok::<(), TrackError>(()) && final(self)@
                == old(self)@.moved_to(position as nat),
            !old(self)@.admits(position as nat) ==> r == Err::<(), TrackError>(
                TrackError::SeekOutOfRange,
            ) && final(self)@ == old(self)@,
    {
        let len: usize = self.samples.len();
        let admitted: bool = match self.policy {
            Playback::Looping => position < len,
            Playback::Bounded => position <= len,
        };
        if !admitted {
            return Err(TrackError::SeekOutOfRange);
        }
        proof {
            use_type_invariant(&*self);
        }
        self.playhead = position;
        Ok(())
    }

    /// The number of samples in the sequence.
    pub fn len(&self) -> (len: usize)
        ensures
            len == self@.samples.len(),
            self@.wf(),
    {
        proof {
            use_type_invariant(self);
        }
        self.samples.len()
    }

    /// The position of the sample that the next call yields.
    pub fn playhead(&self) -> (playhead: usize)
        ensures
            playhead == self@.playhead,
            self@.wf(),
    {
        proof {
            use_type_invariant(self);
        }
        self.playhead
    }

    /// The policy that the track was built with.
    pub fn policy(&self) -> (policy: Playback)
        ensures
            policy == self@.policy,
    {
        self.policy
    }
}

impl TrackState {
    /// A call keeps a track well formed and touches nothing but the playhead.
    pub proof fn lemma_step_wf(self)
        requires
            self.wf(),
        ensures
            self.step().wf(),
            self.step().samples == self.samples,
            self.step().policy == self.policy,
    {
    }

    /// Any number of calls keeps a track well formed and touches nothing but
    /// the playhead.
    pub proof fn lemma_advance_wf(self, calls: nat)
        requires
            self.wf(),
        ensures
            self.advance(calls).wf(),
            self.advance(calls).samples == self.samples,
            self.advance(calls).policy == self.policy,
        decreases calls,
    {
        if calls > 0 {
            self.lemma_step_wf();
            self.step().lemma_advance_wf((calls - 1) as nat);
        }
    }

    /// `first` calls followed by `then` calls are `first + then` calls.
    pub proof fn lemma_advance_split(self, first: nat, then: nat)
        ensures
            self.advance(first).advance(then) == self.advance(first + then),
        decreases first,
    {
        if first > 0 {
            self.step().lemma_advance_split((first - 1) as nat, then);
        }
    }

    /// One more call after `calls` calls is `calls + 1` calls.
    pub proof fn lemma_advance_one_more(self, calls: nat)
        ensures
            self.advance(calls).step() == self.advance(calls + 1),
    {
        self.lemma_advance_split(calls, 1);
        reveal_with_fuel(TrackState::advance, 2);
    }

    /// A looping track's playhead after `calls` calls, in closed form.
    pub proof fn lemma_looping_playhead(self, calls: nat)
        requires
            self.wf(),
            self.policy == Playback::Looping,
        ensures
            self.advance(calls).playhead == (self.playhead + calls) % self.samples.len(),
        decreases calls,
    {
        let len = self.samples.len() as int;
        if calls == 0 {
            lemma_small_mod(self.playhead, self.samples.len());
        } else {
            self.lemma_step_wf();
            self.step().lemma_looping_playhead((calls - 1) as nat);
            lemma_add_mod_noop_right(calls - 1, (self.playhead + 1) as int, len);
            assert((calls - 1) + (self.playhead + 1) == self.playhead + calls);
        }
    }

    /// A bounded track's playhead after `calls` calls, in closed form: it
    /// stops at the end of the sequence.
    pub proof fn lemma_bounded_playhead(self, calls: nat)
        requires
            self.wf(),
            self.policy == Playback::Bounded,
        ensures
            self.advance(calls).playhead == if self.playhead + calls <= self.samples.len() {
                self.playhead + calls
            } else {
                self.samples.len()
            },
        decreases calls,
    {
        if calls > 0 {
            self.lemma_step_wf();
            self.step().lemma_bounded_playhead((calls - 1) as nat);
        }
    }

    /// A looping track yields its sequence in order, from the playhead on and
    /// around the end: call number `index` yields the sample `index` places
    /// behind the playhead, counted modulo the length.
    pub proof fn lemma_looping_sample(self, index: nat)
        requires
            self.wf(),
            self.policy == Playback::Looping,
        ensures
            self.sample_at(index) == self.samples[((self.playhead + index)
                % self.samples.len()) as int],
    {
        self.lemma_advance_wf(index);
        self.lemma_looping_playhead(index);
    }

    /// A fresh looping track that is called as many times as it has samples
    /// yields the sequence it was built from, in order.
    pub proof fn lemma_looping_replays(samples: Seq<i32>, index: nat)
        requires
            index < samples.len(),
        ensures
            TrackState::fresh(samples, Playback::Looping).sample_at(index) == samples[index as int],
    {
        let track = TrackState::fresh(samples, Playback::Looping);
        track.lemma_looping_sample(index);
        lemma_small_mod(index, samples.len());
    }

    /// A looping track is periodic: `cycles` full passes over the sequence
    /// followed by `rest` calls leave it where `rest` calls alone leave it, so
    /// the calls that follow yield the same samples.
    pub proof fn lemma_looping_period(self, cycles: nat, rest: nat)
        requires
            self.wf(),
            self.policy == Playback::Looping,
        ensures
            self.advance(cycles * self.samples.len() + rest) == self.advance(rest),
            self.sample_at(cycles * self.samples.len() + rest) == self.sample_at(rest),
    {
        let len = self.samples.len();
        let calls = cycles * len + rest;
        self.lemma_advance_wf(calls);
        self.lemma_advance_wf(rest);
        self.lemma_looping_playhead(calls);
        self.lemma_looping_playhead(rest);
        assert(self.playhead + calls == (len as int) * (cycles as int) + (self.playhead + rest))
            by (nonlinear_arith)
            requires
                calls == cycles * len + rest,
        ;
        lemma_mod_multiples_vanish(cycles as int, (self.playhead + rest) as int, len as int);
    }

    /// A bounded track plays its sequence once: while samples are left, call
    /// number `index` yields the sample `index` places behind the playhead.
    pub proof fn lemma_bounded_sample(self, index: nat)
        requires
            self.wf(),
            self.policy == Playback::Bounded,
            self.playhead + index < self.samples.len(),
        ensures
            self.sample_at(index) == self.samples[(self.playhead + index) as int],
    {
        self.lemma_advance_wf(index);
        self.lemma_bounded_playhead(index);
    }

    /// A bounded track that has been called as many times as it has samples is
    /// silent on every call that follows, and its playhead rests at the end.
    pub proof fn lemma_bounded_silence(self, calls: nat)
        requires
            self.wf(),
            self.policy == Playback::Bounded,
            calls >= self.samples.len(),
        ensures
            self.sample_at(calls) == 0,
            self.advance(calls).playhead == self.samples.len(),
    {
        self.lemma_advance_wf(calls);
        self.lemma_bounded_playhead(calls);
    }

    /// A looping track of one sample yields that sample on every call, and
    /// its playhead never leaves it.
    pub proof fn lemma_single_sample_loop(self, calls: nat)
        requires
            self.wf(),
            self.policy == Playback::Looping,
            self.samples.len() == 1,
        ensures
            self.advance(calls) == self,
            self.sample_at(calls) == self.samples[0],
    {
        self.lemma_advance_wf(calls);
        self.lemma_looping_playhead(calls);
    }
}

} // verus!

//! A mixer: the tracks it owns, summed position by position.
//!
//! A sum is an `i128`, wide enough for the samples of as many tracks as a
//! mixer can hold: no sum wraps, and none is clipped.

use vstd::prelude::*;
use crate::track::AudioTrack;
use crate::track::TrackState;

verus! {

/// The sum of the samples that the tracks yield on their next call, taken in
/// the order in which the tracks were added. Nothing is averaged or clipped.
pub open spec fn mix(tracks: Seq<TrackState>) -> int
    decreases tracks.len(),
{
    if tracks.len() == 0 {
        0
    } else {
        mix(tracks.drop_last()) + tracks.last().current()
    }
}

/// Every track after `calls` calls.
pub open spec fn advance_all(tracks: Seq<TrackState>, calls: nat) -> Seq<TrackState> {
    Seq::new(tracks.len(), |j: int| tracks[j].advance(calls))
}

/// The sum written to position `index` of the output, counting from zero.
pub open spec fn mix_at(tracks: Seq<TrackState>, index: nat) -> int {
    mix(advance_all(tracks, index))
}

/// What holds of a block that `fill` wrote from `before`: every position holds
/// the sum for that position.
pub open spec fn written_from(before: Seq<TrackState>, block: Seq<i128>) -> bool {
    forall|i: int| 0 <= i < block.len() ==> block[i] == mix_at(before, i as nat)
}

/// What holds of the blocks `written` by consecutive calls of `fill` that
/// began with the tracks at `start` and left them at `end`.
pub open spec fn run(start: Seq<TrackState>, written: Seq<Seq<i128>>, end: Seq<TrackState>) -> bool
    decreases written.len(),
{
    if written.len() == 0 {
        end == start
    } else {
        let block = written.first();
        &&& written_from(start, block)
        &&& run(advance_all(start, block.len()), written.drop_first(), end)
    }
}

/// The number of positions in `written`, all blocks counted together.
pub open spec fn positions(written: Seq<Seq<i128>>) -> nat
    decreases written.len(),
{
    if written.len() == 0 {
        0
    } else {
        written.first().len() + positions(written.drop_first())
    }
}

/// Every track is well formed.
pub open spec fn all_wf(tracks: Seq<TrackState>) -> bool {
    forall|j: int| 0 <= j < tracks.len() ==> (#[trigger] tracks[j]).wf()
}

/// The tracks of one output stream, in the order in which they were added.
#[derive(Debug)]
pub struct Mixer {
    tracks: Vec<AudioTrack>,
}

/// The states of `tracks`, in order.
pub open spec fn states(tracks: Seq<AudioTrack>) -> Seq<TrackState> {
    Seq::new(tracks.len(), |j: int| tracks[j]@)
}

impl View for Mixer {
    type V = Seq<TrackState>;

    closed spec fn view(&self) -> Seq<TrackState> {
        states(self.tracks@)
    }
}

/// A sum of `count` samples stays within `count` times the widest sample.
proof fn lemma_mix_bound(tracks: Seq<TrackState>)
    ensures
        -(tracks.len() * 0x8000_0000) <= mix(tracks) <= tracks.len() * 0x8000_0000,
    decreases tracks.len(),
{
    if tracks.len() > 0 {
        lemma_mix_bound(tracks.drop_last());
    }
}

/// One call on every track is `advance_all` by one.
proof fn lemma_advance_all_once(tracks: Seq<TrackState>)
    ensures
        advance_all(tracks, 1) == Seq::new(tracks.len(), |j: int| tracks[j].step()),
{
    assert forall|j: int| 0 <= j < tracks.len() implies tracks[j].advance(1)
        == tracks[j].step() by {
        reveal_with_fuel(TrackState::advance, 2);
    }
}

/// Sums the next sample of every track in `tracks`, in order, and moves each
/// on by one call.
fn next_of(tracks: &mut Vec<AudioTrack>) -> (sum: i128)
    ensures
        sum == mix(states(old(tracks)@)),
        states(final(tracks)@) == advance_all(states(old(tracks)@), 1),
{
    let ghost before = states(tracks@);
    let count: usize = tracks.len();
    let mut sum: i128 = 0;
    let mut j: usize = 0;
    while j < count
        invariant
            j <= count,
            count == tracks@.len(),
            before.len() == count,
            forall|t: int| 0 <= t < j ==> states(tracks@)[t] == before[t].step(),
            forall|t: int| j <= t < count ==> states(tracks@)[t] == before[t],
            sum == mix(before.take(j as int)),
        decreases count - j,
    {
        proof {
            lemma_mix_bound(before.take(j as int));
            assert(before.take(j + 1).drop_last() == before.take(j as int));
        }
        let ghost entering = states(tracks@);
        let sample: i32 = tracks[j].next();
        assert(states(tracks@) == entering.update(j as int, entering[j as int].step()));
        sum = sum + sample as i128;
        j = j + 1;
    }
    proof {
        assert(before.take(count as int) == before);
        lemma_advance_all_once(before);
    }
    sum
}

impl Mixer {
    /// Every track of a mixer is well formed.
    #[verifier::type_invariant]
    pub open spec fn well_formed(self) -> bool {
        all_wf(self@)
    }

    /// A mixer without tracks.
    pub fn new() -> (mixer: Mixer)
        ensures
            mixer@ == Seq::<TrackState>::empty(),
    {
        Mixer { tracks: Vec::new() }
    }

    /// Adds `track` behind the tracks that are already there.
    pub fn add_track(&mut self, track: AudioTrack)
        ensures
            final(self)@ == old(self)@.push(track@),
    {
        proof {
            use_type_invariant(&*self);
            use_type_invariant(&track);
        }
        let mut tracks: Vec<AudioTrack> = Vec::new();
        std::mem::swap(&mut tracks, &mut self.tracks);
        tracks.push(track);
        assert(states(tracks@) == old(self)@.push(track@));
        self.tracks = tracks;
    }

    /// The number of tracks.
    pub fn track_count(&self) -> (count: usize)
        ensures
            count == self@.len(),
            all_wf(self@),
    {
        proof {
            use_type_invariant(self);
        }
        self.tracks.len()
    }

    /// The track that was added as number `index`, counting from zero.
    pub fn track(&self, index: usize) -> (r: Option<&AudioTrack>)
        ensures
            index < self@.len() ==> r is Some && r->Some_0@ == self@[index as int],
            index >= self@.len() ==> r is None,
    {
        if index < self.tracks.len() {
            Some(&self.tracks[index])
        } else {
            None
        }
    }

    /// Yields the sum for one output position and moves every track on by one call.
    pub fn next_sample(&mut self) -> (sum: i128)
        ensures
            sum == mix(old(self)@),
            final(self)@ == advance_all(old(self)@, 1),
    {
        proof {
            use_type_invariant(&*self);
            lemma_advance_all_wf(self@, 1);
        }
        let mut tracks: Vec<AudioTrack> = Vec::new();
        std::mem::swap(&mut tracks, &mut self.tracks);
        let sum: i128 = next_of(&mut tracks);
        self.tracks = tracks;
        sum
    }

    /// Writes to every position of `block` the sum of the next sample of every
    /// track, and so moves every track on by as many calls as the block is long.
    pub fn fill(&mut self, block: &mut [i128])
        ensures
            final(block)@.len() == old(block)@.len(),
            written_from(old(self)@, final(block)@),
            final(self)@ == advance_all(old(self)@, old(block)@.len()),
    {
        proof {
            use_type_invariant(&*self);
            lemma_advance_all_wf(self@, block@.len());
            lemma_advance_all_none(self@);
        }
        let ghost before = self@;
        let mut tracks: Vec<AudioTrack> = Vec::new();
        std::mem::swap(&mut tracks, &mut self.tracks);
        let len: usize = block.len();
        let mut i: usize = 0;
        while i < len
            invariant
                i <= len,
                block@.len() == len,
                states(tracks@) == advance_all(before, i as nat),
                forall|k: int| 0 <= k < i ==> block@[k] == mix_at(before, k as nat),
            decreases len - i,
        {
            proof {
                lemma_advance_all_split(before, i as nat, 1);
            }
            let sum: i128 = next_of(&mut tracks);
            block[i] = sum;
            i = i + 1;
        }
        self.tracks = tracks;
    }
}

/// No call leaves every track where it is.
pub proof fn lemma_advance_all_none(tracks: Seq<TrackState>)
    ensures
        advance_all(tracks, 0) == tracks,
{
}

/// `first` calls on every track followed by `then` calls are `first + then` calls.
pub proof fn lemma_advance_all_split(tracks: Seq<TrackState>, first: nat, then: nat)
    ensures
        advance_all(advance_all(tracks, first), then) == advance_all(tracks, first + then),
{
    assert forall|j: int| 0 <= j < tracks.len() implies tracks[j].advance(first).advance(then)
        == tracks[j].advance(first + then) by {
        tracks[j].lemma_advance_split(first, then);
    }
}

/// Calls keep every track well formed.
pub proof fn lemma_advance_all_wf(tracks: Seq<TrackState>, calls: nat)
    requires
        all_wf(tracks),
    ensures
        all_wf(advance_all(tracks, calls)),
        advance_all(tracks, calls).len() == tracks.len(),
{
    assert forall|j: int| 0 <= j < tracks.len() implies (#[trigger] advance_all(
        tracks,
        calls,
    )[j]).wf() by {
        tracks[j].lemma_advance_wf(calls);
    }
}

/// The sum for the first position is the sum of the samples that the tracks
/// yield on their next call.
pub proof fn lemma_first_position(tracks: Seq<TrackState>)
    ensures
        mix_at(tracks, 0) == mix(tracks),
{
    lemma_advance_all_none(tracks);
}

/// A mixer without tracks yields silence at every position.
pub proof fn lemma_no_tracks_silent(index: nat)
    ensures
        mix_at(Seq::<TrackState>::empty(), index) == 0,
{
}

/// A track that joins a mixer adds its own samples to the sums, position by
/// position, and changes nothing else: the mix is a plain sum.
pub proof fn lemma_track_adds(tracks: Seq<TrackState>, track: TrackState, index: nat)
    ensures
        mix_at(tracks.push(track), index) == mix_at(tracks, index) + track.sample_at(index),
{
    let joined = advance_all(tracks.push(track), index);
    assert(joined.drop_last() == advance_all(tracks, index));
}

/// A mixer of one track yields that track's samples.
pub proof fn lemma_one_track(track: TrackState, index: nat)
    ensures
        mix_at(seq![track], index) == track.sample_at(index),
{
    lemma_track_adds(Seq::empty(), track, index);
    assert(Seq::<TrackState>::empty().push(track) == seq![track]);
}

/// The sums do not depend on where the blocks end: position `index` of a
/// block that starts after `written` positions holds the sum for position
/// `written + index` of the whole stream.
pub proof fn lemma_stream_position(tracks: Seq<TrackState>, written: nat, index: nat)
    ensures
        mix_at(advance_all(tracks, written), index) == mix_at(tracks, written + index),
{
    lemma_advance_all_split(tracks, written, index);
}

/// Consecutive blocks are the stream cut into pieces: block number `k` of a
/// run holds at position `index` the sum for position `offset + index` of the
/// stream, where `offset` counts the positions of the blocks before it; and
/// the run has moved every track on by one call for each position.
pub proof fn lemma_run_is_the_stream(
    start: Seq<TrackState>,
    written: Seq<Seq<i128>>,
    end: Seq<TrackState>,
    k: int,
    index: int,
)
    requires
        run(start, written, end),
        0 <= k < written.len(),
        0 <= index < written[k].len(),
    ensures
        written[k][index] == mix_at(start, positions(written.take(k)) + index as nat),
        end == advance_all(start, positions(written)),
    decreases written.len(),
{
    lemma_run_end(start, written, end);
    if k == 0 {
        assert(written.take(0) == Seq::<Seq<i128>>::empty());
    } else {
        let first = written.first().len();
        let rest = written.drop_first();
        lemma_run_is_the_stream(advance_all(start, first), rest, end, k - 1, index);
        assert(rest.take(k - 1) == written.take(k).drop_first());
        assert(written.take(k).first() == written.first());
        lemma_stream_position(start, first, positions(rest.take(k - 1)) + index as nat);
    }
}

/// A run moves every track on by one call for each position written.
pub proof fn lemma_run_end(start: Seq<TrackState>, written: Seq<Seq<i128>>, end: Seq<TrackState>)
    requires
        run(start, written, end),
    ensures
        end == advance_all(start, positions(written)),
    decreases written.len(),
{
    if written.len() == 0 {
        lemma_advance_all_none(start);
    } else {
        let first = written.first().len();
        lemma_run_end(advance_all(start, first), written.drop_first(), end);
        lemma_advance_all_split(start, first, positions(written.drop_first()));
    }
}

/// Two mixers in the same state that are asked for blocks of the same sizes
/// write the same blocks and end in the same state.
pub proof fn lemma_runs_agree(
    start: Seq<TrackState>,
    one: Seq<Seq<i128>>,
    one_end: Seq<TrackState>,
    other: Seq<Seq<i128>>,
    other_end: Seq<TrackState>,
)
    requires
        run(start, one, one_end),
        run(start, other, other_end),
        one.len() == other.len(),
        forall|k: int| 0 <= k < one.len() ==> one[k].len() == other[k].len(),
    ensures
        one == other,
        one_end == other_end,
    decreases one.len(),
{
    if one.len() > 0 {
        let first = one.first().len();
        assert(one.first() == other.first());
        assert forall|k: int| 0 <= k < one.drop_first().len() implies one.drop_first()[k].len()
            == other.drop_first()[k].len() by {
            assert(one.drop_first()[k] == one[k + 1]);
            assert(other.drop_first()[k] == other[k + 1]);
        }
        lemma_runs_agree(
            advance_all(start, first),
            one.drop_first(),
            one_end,
            other.drop_first(),
            other_end,
        );
        assert(one == seq![one.first()] + one.drop_first());
        assert(other == seq![other.first()] + other.drop_first());
    }
}

} // verus!

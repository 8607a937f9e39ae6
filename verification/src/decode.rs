//! Decoding: from the bytes of a WAV file to a sample sequence.
//!
//! The container is read by the `hound` crate. What this module decides is
//! which files are taken (16-bit integer PCM, every sample readable, at least
//! one sample) and what the samples become.

use vstd::arithmetic::div_mod::lemma_fundamental_div_mod;
use vstd::arithmetic::mul::lemma_mul_inequality;
use vstd::arithmetic::mul::lemma_mul_is_commutative;
use vstd::arithmetic::mul::lemma_mul_is_distributive_sub_other_way;
use vstd::prelude::*;

verus! {

/// The amplitude that stands for `1.0`: a sample `s` sounds at `s / FULL_SCALE`.
/// A 16-bit sample is taken as it is stored, so decoded samples lie in
/// `-FULL_SCALE .. FULL_SCALE`.
pub const FULL_SCALE: i32 = 32768;

/// Why a byte sequence gave no sample sequence.
#[derive(Clone, Copy, Debug, PartialEq, Eq, Structural)]
pub enum DecodeError {
    /// The reader does not take the bytes for a WAV file that it can read.
    NotWav,
    /// The samples are not stored as 16-bit integers.
    UnsupportedEncoding,
    /// A sample that the header announces could not be read.
    UnreadableSample,
    /// The file holds no sample.
    Empty,
}

/// What the reader found in a WAV file.
#[derive(Debug)]
pub struct WavContents {
    /// The number of channels; the samples of one frame follow each other.
    pub channels: u16,
    /// The number of bits of one sample.
    pub bits_per_sample: u16,
    /// Whether the samples are integers; if not, they are floats.
    pub integer: bool,
    /// Every sample of the file in stored order, read as a 16-bit integer, or
    /// `None` if one of them could not be read so.
    pub samples: Option<Vec<i16>>,
}

/// The mathematical value of a `WavContents`.
pub struct WavView {
    pub channels: u16,
    pub bits_per_sample: u16,
    pub integer: bool,
    pub samples: Option<Seq<i16>>,
}

impl View for WavContents {
    type V = WavView;

    open spec fn view(&self) -> WavView {
        WavView {
            channels: self.channels,
            bits_per_sample: self.bits_per_sample,
            integer: self.integer,
            samples: match self.samples {
                Some(samples) => Some(samples@),
                None => None,
            },
        }
    }
}

/// A decoded waveform: the samples of every channel in units of
/// `1 / FULL_SCALE`, interleaved as the file stores them. The samples of one
/// frame follow each other, one for each channel.
#[derive(Debug)]
pub struct Waveform {
    pub channels: u16,
    pub samples: Vec<i32>,
}

/// The mathematical value of a `Waveform`.
pub struct WaveformView {
    pub channels: nat,
    pub samples: Seq<i32>,
}

impl View for Waveform {
    type V = WaveformView;

    open spec fn view(&self) -> WaveformView {
        WaveformView { channels: self.channels as nat, samples: self.samples@ }
    }
}

impl WaveformView {
    /// The number of whole frames.
    pub open spec fn frames(self) -> nat
        recommends
            self.channels >= 1,
    {
        self.samples.len() / self.channels
    }

    /// The samples of channel `index` alone, one for each whole frame.
    pub open spec fn channel(self, index: nat) -> Seq<i32>
        recommends
            index < self.channels,
    {
        Seq::new(self.frames(), |frame: int| self.samples[frame * self.channels + index])
    }
}

impl WavView {
    /// The waveform that the contents stand for, or the reason why they stand
    /// for none.
    pub open spec fn decoded(self) -> Result<WaveformView, DecodeError> {
        if !self.integer || self.bits_per_sample != 16 {
            Err(DecodeError::UnsupportedEncoding)
        } else {
            match self.samples {
                None => Err(DecodeError::UnreadableSample),
                Some(stored) => if stored.len() == 0 {
                    Err(DecodeError::Empty)
                } else {
                    Ok(
                        WaveformView {
                            channels: self.channels as nat,
                            samples: stored.map_values(|s: i16| s as i32),
                        },
                    )
                },
            }
        }
    }

    /// A waveform that was decoded holds, in order, the samples that were
    /// stored, at least one, each within full scale.
    pub proof fn lemma_decoded_samples(self)
        requires
            self.decoded() is Ok,
        ensures
            self.samples is Some,
            self.decoded()->Ok_0.samples.len() == self.samples->Some_0.len(),
            self.decoded()->Ok_0.samples.len() >= 1,
            forall|i: int|
                0 <= i < self.samples->Some_0.len() ==> {
                    &&& (#[trigger] self.decoded()->Ok_0.samples[i]) == self.samples->Some_0[i]
                    &&& -FULL_SCALE <= self.decoded()->Ok_0.samples[i] < FULL_SCALE
                },
    {
    }
}

/// The mathematical value of a decoding result.
pub open spec fn outcome(r: Result<Waveform, DecodeError>) -> Result<
    WaveformView,
    DecodeError,
> {
    match r {
        Ok(waveform) => Ok(waveform@),
        Err(e) => Err(e),
    }
}

/// The error type of the `hound` crate; a value of it is carried, never read.
#[verifier::external_type_specification]
#[verifier::external_body]
pub struct ExHoundError(hound::Error);

/// What `hound` reads from `bytes`: `None` where `hound::WavReader::new`
/// refuses them, else the format that the reader reports and the samples that
/// it yields as `i16`.
pub uninterp spec fn wav_contents(bytes: Seq<u8>) -> Option<WavView>;

/// Reads `bytes` with `hound::WavReader`: `new` reads the header, `spec`
/// reports the format, `into_samples::<i16>` yields the samples, which are
/// collected up to the first that fails.
///
/// Not proved: the result is a function of the bytes alone; a reader that
/// `new` returns has at least one channel, and yields whole frames.
#[verifier::external_body]
fn read_wav(bytes: &[u8]) -> (r: Result<WavContents, hound::Error>)
    ensures
        r is Ok <==> wav_contents(bytes@) is Some,
        r matches Ok(found) ==> wav_contents(bytes@) == Some(found@),
        r matches Ok(found) ==> found.channels >= 1,
        r matches Ok(found) ==> (found.samples matches Some(samples) ==> samples@.len() % (
        found.channels as nat) == 0),
{
    let reader = hound::WavReader::new(bytes)?;
    let format = reader.spec();
    let integer = match format.sample_format {
        hound::SampleFormat::Int => true,
        hound::SampleFormat::Float => false,
    };
    let samples = reader.into_samples::<i16>().collect::<Result<Vec<i16>, hound::Error>>().ok();
    Ok(
        WavContents {
            channels: format.channels,
            bits_per_sample: format.bits_per_sample,
            integer,
            samples,
        },
    )
}

/// Turns what the reader found into a waveform: each 16-bit sample as it is
/// stored, in stored order. Contents that are not 16-bit integers, that are
/// incomplete or that are empty give no waveform.
pub fn waveform_of(found: &WavContents) -> (r: Result<Waveform, DecodeError>)
    ensures
        outcome(r) == found@.decoded(),
{
    if !found.integer || found.bits_per_sample != 16 {
        return Err(DecodeError::UnsupportedEncoding);
    }
    match &found.samples {
        None => Err(DecodeError::UnreadableSample),
        Some(stored) => {
            let len: usize = stored.len();
            if len == 0 {
                return Err(DecodeError::Empty);
            }
            let mut samples: Vec<i32> = Vec::with_capacity(len);
            let mut i: usize = 0;
            while i < len
                invariant
                    i <= len,
                    len == stored@.len(),
                    samples@.len() == i,
                    forall|k: int| 0 <= k < i ==> samples@[k] == stored@[k] as i32,
                decreases len - i,
            {
                samples.push(stored[i] as i32);
                i = i + 1;
            }
            assert(samples@ == stored@.map_values(|s: i16| s as i32));
            Ok(Waveform { channels: found.channels, samples })
        },
    }
}

/// The waveform that `bytes` decode to, or the reason why they decode to none.
pub open spec fn decoded_wav(bytes: Seq<u8>) -> Result<WaveformView, DecodeError> {
    match wav_contents(bytes) {
        None => Err(DecodeError::NotWav),
        Some(found) => found.decoded(),
    }
}

/// Decodes the bytes of a WAV file. A file of which not everything can be
/// returned gives an error, never a part of its samples.
///
/// The waveform holds every sample of the file, as many as the file has
/// frames times channels, each within full scale.
pub fn decode(bytes: &[u8]) -> (r: Result<Waveform, DecodeError>)
    ensures
        outcome(r) == decoded_wav(bytes@),
        r matches Ok(waveform) ==> {
            &&& wav_contents(bytes@) matches Some(found)
            &&& found.samples matches Some(stored)
            &&& waveform@.samples.len() == stored.len()
            &&& waveform@.channels >= 1
            &&& waveform@.samples.len() == waveform@.frames() * waveform@.channels
            &&& waveform@.samples.len() >= 1
            &&& forall|i: int|
                0 <= i < stored.len() ==> {
                    &&& (#[trigger] waveform@.samples[i]) == stored[i]
                    &&& -FULL_SCALE <= waveform@.samples[i] < FULL_SCALE
                }
        },
{
    match read_wav(bytes) {
        Err(_) => Err(DecodeError::NotWav),
        Ok(found) => {
            let r = waveform_of(&found);
            proof {
                if r is Ok {
                    found@.lemma_decoded_samples();
                    let len = found@.samples->Some_0.len();
                    lemma_fundamental_div_mod(len as int, found.channels as int);
                    lemma_mul_is_commutative(
                        (len / (found.channels as nat)) as int,
                        found.channels as int,
                    );
                }
            }
            r
        },
    }
}

impl Waveform {
    /// The samples of channel `index` alone, one for each whole frame, or
    /// `None` if the waveform has no such channel.
    pub fn channel(&self, index: u16) -> (r: Option<Vec<i32>>)
        ensures
            index < self.channels ==> r is Some && r->Some_0@ == self@.channel(index as nat),
            index >= self.channels ==> r is None,
    {
        if index >= self.channels {
            return None;
        }
        let channels: usize = self.channels as usize;
        let offset: usize = index as usize;
        let len: usize = self.samples.len();
        let frames: usize = len / channels;
        proof {
            lemma_fundamental_div_mod(len as int, channels as int);
        }
        let mut picked: Vec<i32> = Vec::with_capacity(frames);
        let mut frame: usize = 0;
        while frame < frames
            invariant
                frame <= frames,
                offset < channels,
                channels == self.channels,
                len == self.samples@.len(),
                channels * frames <= len,
                picked@.len() == frame,
                forall|f: int|
                    0 <= f < frame ==> picked@[f] == self.samples@[f * channels + offset],
            decreases frames - frame,
        {
            proof {
                lemma_mul_inequality(frame as int, frames - 1, channels as int);
                lemma_mul_is_distributive_sub_other_way(channels as int, frames as int, 1);
                lemma_mul_is_commutative(frames as int, channels as int);
            }
            picked.push(self.samples[frame * channels + offset]);
            frame = frame + 1;
        }
        assert(picked@ == self@.channel(index as nat));
        Some(picked)
    }
}

} // verus!

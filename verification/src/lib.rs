//! Playback of decoded waveforms. `decode` turns the bytes of a WAV file into
//! a sample sequence, a `track` walks one sequence with a playhead, once or
//! in a loop, and a `mixer` sums the tracks it owns, one output position at a
//! time.
//!
//! Amplitudes are integers in units of `1 / FULL_SCALE`, so every sum is
//! exact; nothing is averaged or clipped.

pub mod decode;
pub mod mixer;
pub mod track;

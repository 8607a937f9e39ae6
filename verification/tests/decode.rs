use std::io::Cursor;
use wavmix::decode::decode;
use wavmix::decode::waveform_of;
use wavmix::decode::DecodeError;
use wavmix::decode::WavContents;
use wavmix::decode::Waveform;
use wavmix::decode::FULL_SCALE;
use wavmix::track::AudioTrack;
use wavmix::track::Playback;

fn int_spec(channels: u16, bits_per_sample: u16) -> hound::WavSpec {
    hound::WavSpec {
        channels,
        sample_rate: 44100,
        bits_per_sample,
        sample_format: hound::SampleFormat::Int,
    }
}

fn wav_i16(channels: u16, samples: &[i16]) -> Vec<u8> {
    let mut bytes = Vec::new();
    let mut writer =
        hound::WavWriter::new(Cursor::new(&mut bytes), int_spec(channels, 16)).expect("a writer");
    for s in samples {
        writer.write_sample(*s).expect("a written sample");
    }
    writer.finalize().expect("a finished file");
    bytes
}

fn wav_i32(bits_per_sample: u16, samples: &[i32]) -> Vec<u8> {
    let mut bytes = Vec::new();
    let mut writer = hound::WavWriter::new(Cursor::new(&mut bytes), int_spec(1, bits_per_sample))
        .expect("a writer");
    for s in samples {
        writer.write_sample(*s).expect("a written sample");
    }
    writer.finalize().expect("a finished file");
    bytes
}

fn wav_f32(samples: &[f32]) -> Vec<u8> {
    let spec = hound::WavSpec {
        channels: 1,
        sample_rate: 44100,
        bits_per_sample: 32,
        sample_format: hound::SampleFormat::Float,
    };
    let mut bytes = Vec::new();
    let mut writer = hound::WavWriter::new(Cursor::new(&mut bytes), spec).expect("a writer");
    for s in samples {
        writer.write_sample(*s).expect("a written sample");
    }
    writer.finalize().expect("a finished file");
    bytes
}

fn decoded(bytes: &[u8]) -> Waveform {
    match decode(bytes) {
        Ok(waveform) => waveform,
        Err(e) => panic!("no waveform: {:?}", e),
    }
}

fn refusal(bytes: &[u8]) -> DecodeError {
    match decode(bytes) {
        Ok(_) => panic!("a waveform where none was expected"),
        Err(e) => e,
    }
}

#[test]
fn mono_file_decodes_to_its_samples() {
    let stored = [2i16, -3, 5, -7, 0, 32767, -32768];
    let waveform = decoded(&wav_i16(1, &stored));
    assert_eq!(waveform.channels, 1);
    assert_eq!(waveform.samples, vec![2, -3, 5, -7, 0, 32767, -32768]);
    assert_eq!(waveform.samples.len(), stored.len());
}

#[test]
fn decoded_samples_normalize_to_raw_over_full_scale() {
    let waveform = decoded(&wav_i16(1, &[16384, -16384, 0, 32767, -32768, 1, -8192]));
    let floats: Vec<f32> =
        waveform.samples.iter().map(|s| *s as f32 / FULL_SCALE as f32).collect();
    assert_eq!(
        floats,
        vec![0.5, -0.5, 0.0, 0.999969482421875, -1.0, 0.000030517578125, -0.25]
    );
    assert!(floats.iter().all(|x| -1.0 <= *x && *x <= 1.0));
    assert_eq!(FULL_SCALE, 32768);
}

#[test]
fn every_decoded_sample_lies_within_full_scale() {
    let stored: Vec<i16> = (0..2000).map(|i| (i * 7919 % 65536 - 32768) as i16).collect();
    let waveform = decoded(&wav_i16(1, &stored));
    assert_eq!(waveform.samples.len(), 2000);
    for (got, raw) in waveform.samples.iter().zip(stored.iter()) {
        assert_eq!(*got, *raw as i32);
        assert!(-FULL_SCALE <= *got && *got < FULL_SCALE);
    }
}

#[test]
fn stereo_file_decodes_interleaved() {
    let waveform = decoded(&wav_i16(2, &[2, -3, 5, -7, 11, -13, 17, -19]));
    assert_eq!(waveform.channels, 2);
    assert_eq!(waveform.samples, vec![2, -3, 5, -7, 11, -13, 17, -19]);
    assert_eq!(waveform.samples.len(), 4 * 2);
    assert_eq!(waveform.channel(0), Some(vec![2, 5, 11, 17]));
    assert_eq!(waveform.channel(1), Some(vec![-3, -7, -13, -19]));
    assert_eq!(waveform.channel(2), None);
}

#[test]
fn channel_of_a_mono_waveform_is_the_waveform() {
    let waveform = decoded(&wav_i16(1, &[9, 8, 7]));
    assert_eq!(waveform.channel(0), Some(vec![9, 8, 7]));
    assert_eq!(waveform.channel(1), None);
    assert_eq!(waveform.channel(u16::MAX), None);
}

#[test]
fn channel_leaves_out_a_frame_that_is_not_whole() {
    let waveform = Waveform { channels: 3, samples: vec![1, 2, 3, 4, 5, 6, 7, 8] };
    assert_eq!(waveform.channel(0), Some(vec![1, 4]));
    assert_eq!(waveform.channel(1), Some(vec![2, 5]));
    assert_eq!(waveform.channel(2), Some(vec![3, 6]));
    assert_eq!(waveform.channel(3), None);
    let none = Waveform { channels: 0, samples: vec![1, 2, 3] };
    assert_eq!(none.channel(0), None);
    let short = Waveform { channels: 4, samples: vec![1, 2, 3] };
    assert_eq!(short.channel(0), Some(Vec::new()));
}

#[test]
fn bytes_that_are_no_wav_file_are_refused() {
    assert_eq!(refusal(&[]), DecodeError::NotWav);
    assert_eq!(refusal(b"RIFF"), DecodeError::NotWav);
    assert_eq!(refusal(b"this is text, and no sound at all, whatever its length"), DecodeError::NotWav);
    let mut bytes = wav_i16(1, &[1, 2, 3]);
    bytes[0] = b'X';
    assert_eq!(refusal(&bytes), DecodeError::NotWav);
    let header_only = &wav_i16(1, &[1, 2, 3])[..20];
    assert_eq!(refusal(header_only), DecodeError::NotWav);
}

#[test]
fn decode_does_not_hand_the_bytes_back() {
    let bytes = wav_i16(1, &[258, 772]);
    let waveform = decoded(&bytes);
    assert_eq!(waveform.samples, vec![258, 772]);
    assert!(bytes.len() > 2 * waveform.samples.len());
    let as_bytes: Vec<i32> = bytes.iter().map(|b| *b as i32).collect();
    assert_ne!(waveform.samples, as_bytes);
}

#[test]
fn eight_bit_file_is_refused() {
    assert_eq!(refusal(&wav_i32(8, &[19, -53, 89, -127])), DecodeError::UnsupportedEncoding);
}

#[test]
fn wider_integer_files_are_refused() {
    assert_eq!(refusal(&wav_i32(24, &[-17, 4_194_319])), DecodeError::UnsupportedEncoding);
    assert_eq!(refusal(&wav_i32(32, &[19, -229_373])), DecodeError::UnsupportedEncoding);
}

#[test]
fn float_file_is_refused() {
    assert_eq!(refusal(&wav_f32(&[0.5, -0.25])), DecodeError::UnsupportedEncoding);
}

#[test]
fn file_without_samples_is_refused() {
    assert_eq!(refusal(&wav_i16(1, &[])), DecodeError::Empty);
    assert_eq!(refusal(&wav_i16(2, &[])), DecodeError::Empty);
}

#[test]
fn file_that_ends_before_its_last_sample_is_refused() {
    let bytes = wav_i16(1, &[1, 2, 3, 4]);
    let cut = &bytes[..bytes.len() - 1];
    assert_eq!(refusal(cut), DecodeError::UnreadableSample);
    let cut_more = &bytes[..bytes.len() - 5];
    assert_eq!(refusal(cut_more), DecodeError::UnreadableSample);
}

#[test]
fn waveform_of_takes_sixteen_bit_integers() {
    let found =
        WavContents { channels: 2, bits_per_sample: 16, integer: true, samples: Some(vec![1, -1, 32767, -32768]) };
    let waveform = waveform_of(&found).expect("a waveform");
    assert_eq!(waveform.channels, 2);
    assert_eq!(waveform.samples, vec![1, -1, 32767, -32768]);
}

#[test]
fn waveform_of_refuses_other_encodings() {
    for bits in [0u16, 8, 15, 17, 24, 32] {
        let found =
            WavContents { channels: 1, bits_per_sample: bits, integer: true, samples: Some(vec![1]) };
        assert_eq!(waveform_of(&found).err(), Some(DecodeError::UnsupportedEncoding));
    }
    let float = WavContents { channels: 1, bits_per_sample: 16, integer: false, samples: Some(vec![1]) };
    assert_eq!(waveform_of(&float).err(), Some(DecodeError::UnsupportedEncoding));
    let float_unread = WavContents { channels: 1, bits_per_sample: 32, integer: false, samples: None };
    assert_eq!(waveform_of(&float_unread).err(), Some(DecodeError::UnsupportedEncoding));
}

#[test]
fn waveform_of_refuses_incomplete_contents() {
    let found = WavContents { channels: 1, bits_per_sample: 16, integer: true, samples: None };
    assert_eq!(waveform_of(&found).err(), Some(DecodeError::UnreadableSample));
}

#[test]
fn waveform_of_refuses_empty_contents() {
    let found = WavContents { channels: 1, bits_per_sample: 16, integer: true, samples: Some(Vec::new()) };
    assert_eq!(waveform_of(&found).err(), Some(DecodeError::Empty));
}

#[test]
fn track_from_wav_plays_the_decoded_samples() {
    let bytes = wav_i16(1, &[100, -200, 300]);
    let mut looping = match AudioTrack::from_wav(&bytes, Playback::Looping) {
        Ok(track) => track,
        Err(e) => panic!("no track: {:?}", e),
    };
    assert_eq!(looping.len(), 3);
    assert_eq!(looping.playhead(), 0);
    assert_eq!(looping.policy(), Playback::Looping);
    let played: Vec<i32> = (0..5).map(|_| looping.next()).collect();
    assert_eq!(played, vec![100, -200, 300, 100, -200]);

    let mut bounded = match AudioTrack::from_wav(&bytes, Playback::Bounded) {
        Ok(track) => track,
        Err(e) => panic!("no track: {:?}", e),
    };
    let played: Vec<i32> = (0..5).map(|_| bounded.next()).collect();
    assert_eq!(played, vec![100, -200, 300, 0, 0]);
}

#[test]
fn track_from_wav_passes_the_refusal_on() {
    assert_eq!(AudioTrack::from_wav(&[], Playback::Looping).err(), Some(DecodeError::NotWav));
    assert_eq!(
        AudioTrack::from_wav(&wav_i16(1, &[]), Playback::Looping).err(),
        Some(DecodeError::Empty)
    );
    assert_eq!(
        AudioTrack::from_wav(&wav_i32(8, &[1]), Playback::Bounded).err(),
        Some(DecodeError::UnsupportedEncoding)
    );
    let bytes = wav_i16(1, &[1, 2]);
    assert_eq!(
        AudioTrack::from_wav(&bytes[..bytes.len() - 1], Playback::Bounded).err(),
        Some(DecodeError::UnreadableSample)
    );
}

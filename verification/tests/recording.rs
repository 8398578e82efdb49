//! Capturing, spilling and laying out a recording.

use std::io::Cursor;

use scribe_engine::audio::{
    decode_recording, deinterleave, interleave, resample_to_whisper, sample_reader, SampleFormat,
    SampleReader, WHISPER_RATE,
};
use scribe_engine::capture::{
    append_mono, append_planar, check_stream_format, drain, finish_recording, level_tail,
    open_error, read_raw, spill, spill_step, stereo_samples, CaptureSession, OpenFailure, Scratch, Source,
    SpillEvent, Stage, StartStep, StreamFormat, LEVEL_WINDOW,
};
use scribe_engine::EngineError;

fn mean(window: &[f32]) -> f32 {
    window.iter().sum::<f32>() / window.len() as f32
}

fn to_i16(sample: f32) -> i16 {
    (sample.clamp(-1.0, 1.0) * i16::MAX as f32) as i16
}

fn bits(samples: &[f32]) -> Vec<u32> {
    samples.iter().map(|s| s.to_bits()).collect()
}

/// Writes a stereo WAV and decodes it back into its two channels.
fn through_wav(near: &[f32], far: &[f32]) -> (Vec<i16>, Vec<i16>) {
    let samples = stereo_samples(near, 16_000, far, 16_000, 0i16, mean, to_i16);
    let spec = hound::WavSpec {
        channels: 2,
        sample_rate: WHISPER_RATE,
        bits_per_sample: 16,
        sample_format: hound::SampleFormat::Int,
    };
    let mut bytes = Vec::new();
    let mut writer = hound::WavWriter::new(Cursor::new(&mut bytes), spec).expect("write wav");
    for s in samples {
        writer.write_sample(s).expect("write wav");
    }
    writer.finalize().expect("write wav");

    let mut reader = hound::WavReader::new(Cursor::new(&bytes)).expect("open wav");
    let all: Vec<i16> = reader.samples::<i16>().map(|s| s.expect("sample")).collect();
    let near = all.iter().step_by(2).copied().collect();
    let far = all.iter().skip(1).step_by(2).copied().collect();
    (near, far)
}

#[test]
fn deinterleave_splits_stereo() {
    let (near, far) = deinterleave(&[1.0, 2.0, 3.0, 4.0], 2);
    assert_eq!(near, [1.0, 3.0]);
    assert_eq!(far, [2.0, 4.0]);
}

#[test]
fn deinterleave_mono_has_empty_far() {
    let (near, far) = deinterleave(&[1.0, 2.0, 3.0], 1);
    assert_eq!(near, [1.0, 2.0, 3.0]);
    assert!(far.is_empty());
}

#[test]
fn deinterleave_takes_the_first_two_of_many_channels() {
    // The last frame is not whole and is left out.
    let (near, far) = deinterleave(&[1, 2, 3, 4, 5, 6, 7, 8], 3);
    assert_eq!(near, [1, 4]);
    assert_eq!(far, [2, 5]);
    let (near, far) = deinterleave(&[1, 2], 0);
    assert_eq!(near, [1, 2]);
    assert!(far.is_empty());
}

#[test]
fn resample_48k_to_16k_thirds_the_length() {
    let input = vec![0.5_f32; 4800];
    let out = resample_to_whisper(&input, 48_000, mean);
    assert_eq!(out.len(), 1600);
    assert!((out[0] - 0.5).abs() < 1e-6);
}

#[test]
fn resample_passthrough_at_native_rate() {
    let input = vec![0.1, 0.2, 0.3];
    assert_eq!(resample_to_whisper(&input, WHISPER_RATE, mean), input);
}

#[test]
fn resample_averages_the_window_each_sample_spans() {
    let sum = |w: &[i64]| w.iter().sum::<i64>();
    // An integer ratio: each window is three samples.
    assert_eq!(resample_to_whisper(&[1, 2, 4, 8, 16, 32, 64], 48_000, sum), [7, 56]);
    // Two to three: windows of 1.5 samples touch two each.
    assert_eq!(resample_to_whisper(&[1, 2, 4, 8, 16, 32], 24_000, sum), [3, 6, 24, 48]);
    // Upwards: each window lies within one sample.
    assert_eq!(resample_to_whisper(&[1, 2], 8_000, sum), [1, 1, 2, 2]);
    assert!(resample_to_whisper(&[], 0, sum).is_empty());
    assert!(resample_to_whisper(&[5], 48_000, sum).is_empty());
}

#[test]
fn a_recording_decodes_to_its_channels() {
    let stereo = interleave(&[1.0_f32, 2.0], &[3.0, 4.0], 0.0);
    assert_eq!(stereo, [1.0, 3.0, 2.0, 4.0]);
    let channels = decode_recording(&stereo, 2, WHISPER_RATE, mean);
    assert_eq!(channels.near, [1.0, 2.0]);
    assert_eq!(channels.far, [3.0, 4.0]);
    let channels = decode_recording(&[3.0_f32, 3.0, 3.0, 6.0], 1, 48_000, mean);
    assert_eq!(channels.near, [3.0]);
    assert!(channels.far.is_empty());
}

#[test]
fn a_missing_far_end_is_silent() {
    assert_eq!(interleave(&[7, 8], &[], 0), [7, 0, 8, 0]);
    assert_eq!(interleave(&[], &[7, 8], 0), [0, 7, 0, 8]);
}

#[test]
fn sample_formats_are_told_apart() {
    assert_eq!(sample_reader(SampleFormat::Float, 32).unwrap(), SampleReader::Float);
    assert_eq!(
        sample_reader(SampleFormat::Int, 16).unwrap(),
        SampleReader::Int { full_scale: 32_768 }
    );
    assert_eq!(
        sample_reader(SampleFormat::Int, 1).unwrap(),
        SampleReader::Int { full_scale: 1 }
    );
    let r = sample_reader(SampleFormat::Float, 64);
    assert!(
        matches!(r, Err(EngineError::Transcribe(m)) if m == "unsupported WAV format: Float 64-bit")
    );
}

#[test]
fn stereo_wav_keeps_channels_separate() {
    // Near at full scale, far silent, both already at 16 kHz.
    let (near, far) = through_wav(&[1.0, 1.0, 1.0], &[0.0, 0.0, 0.0]);
    assert_eq!(near.len(), 3);
    assert!(near.iter().all(|&s| s > 30_000), "near channel lost its signal");
    assert!(far.iter().all(|&s| s == 0), "far channel should be silent");
}

#[test]
fn shorter_channel_is_padded_with_silence() {
    let (near, far) = through_wav(&[0.5, 0.5, 0.5, 0.5], &[0.5]);
    assert_eq!(near.len(), 4, "frame count follows the longer channel");
    assert_eq!(far.len(), 4);
    assert!(far[0] > 10_000, "far's real sample survived");
    assert_eq!(&far[1..], &[0, 0, 0], "far was padded with silence");
}

#[test]
fn both_ends_are_resampled_at_their_own_rates() {
    let out = stereo_samples(
        &[1.0, 1.0, 1.0, 0.0, 0.0, 0.0],
        48_000,
        &[0.5, 0.5],
        32_000,
        0,
        mean,
        |s: f32| (s * 10.0) as i32,
    );
    assert_eq!(out, [10, 5, 0, 0]);
}

#[test]
fn spill_drains_all_but_the_kept_tail_and_round_trips() {
    let mut samples = bits(&[0.1, 0.2, 0.3, 0.4, 0.5]);
    let scratch = spill(&mut samples, 2); // keep the last two
    // Three spilled to disk, two kept in memory for the meters.
    assert_eq!(samples.len(), 2);
    let read: Vec<f32> = read_raw(&scratch).into_iter().map(f32::from_bits).collect();
    assert_eq!(read.len(), 3);
    assert!((read[0] - 0.1).abs() < 1e-6);
    assert!((read[2] - 0.3).abs() < 1e-6);
}

#[test]
fn a_short_buffer_is_not_spilled() {
    let mut samples = vec![1, 2];
    assert!(spill(&mut samples, 2).is_empty());
    assert_eq!(samples, [1, 2]);
}

#[test]
fn scratch_bytes_are_little_endian() {
    let mut samples = bits(&[1.0, -2.5]);
    let scratch = spill(&mut samples, 0);
    let mut expected = 1.0_f32.to_le_bytes().to_vec();
    expected.extend_from_slice(&(-2.5_f32).to_le_bytes());
    assert_eq!(scratch, expected);
    assert_eq!(read_raw(&[1, 2, 3, 4, 5]), [0x0403_0201]);
}

#[test]
fn spills_lose_nothing() {
    let all: Vec<u32> = (0..12_000).collect();
    let mut near: Vec<u32> = Vec::new();
    let mut far: Vec<u32> = Vec::new();
    let mut near_file = Vec::new();
    let mut far_file = Vec::new();
    for chunk in all.chunks(5_000) {
        near.extend_from_slice(chunk);
        let (n, f) = (drain(SpillEvent::Tick, &mut near), drain(SpillEvent::Tick, &mut far));
        let step = spill_step(SpillEvent::Tick, &n, &f);
        assert!(!step.finished);
        assert!(near.len() <= LEVEL_WINDOW);
        near_file.extend(step.near);
        far_file.extend(step.far);
    }
    far.push(9);
    let (n, f) = (drain(SpillEvent::Stop, &mut near), drain(SpillEvent::Stop, &mut far));
    let step = spill_step(SpillEvent::Stop, &n, &f);
    assert!(step.finished);
    near_file.extend(step.near);
    far_file.extend(step.far);
    assert!(near.is_empty() && far.is_empty());
    assert_eq!(read_raw(&near_file), all);
    assert_eq!(read_raw(&far_file), [9]);
}

#[test]
fn frames_are_averaged_to_mono() {
    let mut buf = vec![9.0_f32];
    append_mono(&mut buf, &[1.0, 3.0, 5.0, 7.0, 100.0], 2, mean);
    assert_eq!(buf, [9.0, 2.0, 6.0]);
    append_mono(&mut buf, &[1.0, 2.0], 0, mean);
    assert_eq!(buf, [9.0, 2.0, 6.0, 1.0, 2.0]);
    let mut buf = Vec::new();
    append_mono(&mut buf, &[16_384_i16, -16_384], 1, |w: &[i16]| w[0] as f32 / 32768.0);
    assert_eq!(buf, [0.5, -0.5]);
}

#[test]
fn planar_channels_are_averaged_to_mono() {
    let mut buf = vec![9.0_f32];
    append_planar(&mut buf, vec![vec![1.0, 2.0, 3.0], vec![], vec![3.0, 4.0]], mean);
    assert_eq!(buf, [9.0, 2.0, 3.0]);
    append_planar(&mut buf, vec![vec![], vec![]], mean);
    append_planar(&mut buf, Vec::new(), mean);
    assert_eq!(buf, [9.0, 2.0, 3.0]);
}

#[test]
fn levels_look_at_the_recent_window() {
    let samples: Vec<usize> = (0..LEVEL_WINDOW + 3).collect();
    assert_eq!(level_tail(&samples), &samples[3..]);
    assert_eq!(level_tail(&samples[..5]), &samples[..5]);
    assert!(level_tail::<f32>(&[]).is_empty());
}

#[test]
fn stream_formats_depend_on_the_source() {
    for source in [Source::Microphone, Source::SystemAudio] {
        assert!(check_stream_format(source, StreamFormat::F32, "F32").is_ok());
        assert!(check_stream_format(source, StreamFormat::I16, "I16").is_ok());
    }
    assert!(check_stream_format(Source::SystemAudio, StreamFormat::U16, "U16").is_ok());
    assert_eq!(
        check_stream_format(Source::Microphone, StreamFormat::U16, "U16").unwrap_err(),
        "unsupported microphone sample format: U16"
    );
    assert_eq!(
        check_stream_format(Source::SystemAudio, StreamFormat::Other, "F64").unwrap_err(),
        "unsupported system-audio sample format: F64"
    );
}

#[test]
fn a_remote_call_opens_both_ends() {
    let mut session = CaptureSession::new(true);
    assert_eq!(session.start().unwrap(), Source::Microphone);
    assert!(matches!(session.opened(Ok(())), StartStep::Open(Source::Buffer)));
    assert!(matches!(session.opened(Ok(())), StartStep::Open(Source::SystemAudio)));
    assert!(matches!(session.opened(Ok(())), StartStep::Recording(None)));
    assert_eq!(session.stage(), Stage::Recording { system_audio: true });
    // The buffer stops last, so its final spill captures every sample.
    assert_eq!(
        session.stop().unwrap(),
        [Source::Microphone, Source::SystemAudio, Source::Buffer]
    );
    assert_eq!(session.stage(), Stage::Idle);
}

#[test]
fn a_memo_opens_only_the_microphone() {
    let mut session = CaptureSession::new(false);
    session.start().unwrap();
    session.opened(Ok(()));
    assert!(matches!(session.opened(Ok(())), StartStep::Recording(None)));
    let r = session.start();
    assert!(matches!(r, Err(EngineError::Capture(m)) if m == "already recording"));
    assert_eq!(session.stop().unwrap(), [Source::Microphone, Source::Buffer]);
    let r = session.stop();
    assert!(matches!(r, Err(EngineError::Capture(m)) if m == "not recording"));
    // A stopped session can start again.
    assert_eq!(session.start().unwrap(), Source::Microphone);
}

#[test]
fn a_required_source_that_fails_ends_the_start() {
    let mut session = CaptureSession::new(true);
    session.start().unwrap();
    match session.opened(Err(OpenFailure::Reported("no microphone found".into()))) {
        StartStep::Failed(shut, EngineError::Capture(m)) => {
            assert!(shut.is_empty());
            assert_eq!(m, "microphone: no microphone found");
        }
        step => panic!("{step:?}"),
    }
    session.start().unwrap();
    session.opened(Ok(()));
    match session.opened(Err(OpenFailure::Exited)) {
        StartStep::Failed(shut, EngineError::Capture(m)) => {
            assert_eq!(shut, [Source::Microphone]);
            assert_eq!(m, "recording buffer: capture thread exited before it was ready");
        }
        step => panic!("{step:?}"),
    }
    assert_eq!(session.stage(), Stage::Idle);
}

#[test]
fn a_recording_goes_on_without_system_audio() {
    let mut session = CaptureSession::new(true);
    session.start().unwrap();
    session.opened(Ok(()));
    session.opened(Ok(()));
    match session.opened(Err(OpenFailure::Reported("denied".into()))) {
        StartStep::Recording(Some(EngineError::Capture(m))) => {
            assert_eq!(m, "system audio: denied")
        }
        step => panic!("{step:?}"),
    }
    assert_eq!(session.stage(), Stage::Recording { system_audio: false });
    assert_eq!(session.stop().unwrap(), [Source::Microphone, Source::Buffer]);
}

#[test]
fn open_errors_name_their_source() {
    let error = open_error(Source::SystemAudio, OpenFailure::Exited);
    assert_eq!(
        error.message(),
        "audio capture failed: system audio: capture thread exited before it was ready"
    );
}

#[test]
fn a_stopped_recording_always_deletes_its_scratch_files() {
    let both = [Scratch::Near, Scratch::Far];
    let step = finish_recording(Ok(vec![1, 0, 0, 0]), Ok(vec![2, 0, 0, 0, 9]));
    assert_eq!(step.samples.unwrap(), (vec![1], vec![2]));
    assert_eq!(step.delete, both);
    let unreadable = [
        (Err("near gone".to_string()), Ok(Vec::new()), "near gone"),
        (Ok(Vec::new()), Err("far gone".to_string()), "far gone"),
        (Err("near gone".to_string()), Err("far gone".to_string()), "near gone"),
    ];
    for (near, far, e) in unreadable {
        let step = finish_recording(near, far);
        assert_eq!(
            step.samples.unwrap_err().message(),
            format!("audio capture failed: could not read recording buffer: {e}")
        );
        assert_eq!(step.delete, both);
    }
}

#[test]
fn samples_without_a_whole_frame_need_no_rate() {
    let channels = decode_recording(&[1.0_f32], 2, 0, mean);
    assert!(channels.near.is_empty() && channels.far.is_empty());
}

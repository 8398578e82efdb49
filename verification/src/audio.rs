//! Audio layout for the transcription backend.
//!
//! A *recording* is one stereo WAV file: channel 0 (left) is the near end, the
//! operator's microphone, and channel 1 (right) is the far end, system audio,
//! the other participants. Keeping the two ends on separate channels is what
//! lets the transcriber attribute every segment to a speaker without a
//! diarization model.
//!
//! The functions here place samples; what a sample is, and how several are
//! averaged into one, the caller says.

use vstd::prelude::*;

use crate::error::EngineError;
use crate::text;
use crate::text::push_decimal;

verus! {

/// Whisper's required input sample rate.
pub const WHISPER_RATE: u32 = 16_000;

/// A decoded recording, split into its two ends, each mono at
/// [`WHISPER_RATE`]. `far` is empty when the source was mono.
#[derive(Debug)]
pub struct Channels<T> {
    /// The operator's microphone: the near end.
    pub near: Vec<T>,
    /// System audio: the far end. Empty for a mono recording.
    pub far: Vec<T>,
}

/// Whether `value` is what `mean` may give for these samples.
pub open spec fn averages<T, U, F: Fn(&[T]) -> U>(mean: F, samples: Seq<T>, value: U) -> bool {
    exists|window: &[T]| window@ == samples && call_ensures(mean, (window,), value)
}

/// Whether `mean` can be asked of any samples at all, as long as there are
/// some.
pub open spec fn total_mean<T, U, F: Fn(&[T]) -> U>(mean: F) -> bool {
    forall|window: &[T]| window@.len() > 0 ==> call_requires(mean, (window,))
}

/// Where averaging computes `g`, what is averaged of some samples is `g` of just
/// those samples.
pub proof fn law_averages_what_it_is_given<T, U, F: Fn(&[T]) -> U>(
    mean: F,
    g: spec_fn(Seq<T>) -> U,
    samples: Seq<T>,
    value: U,
)
    requires
        averages(mean, samples, value),
        forall|window: &[T], out: U| #[trigger]
            call_ensures(mean, (window,), out) ==> out == g(window@),
    ensures
        value == g(samples),
{
}

// --- sample formats --------------------------------------------------

/// How the samples of a WAV file are written.
#[derive(Debug, Clone, Copy, PartialEq, Eq, Structural)]
pub enum SampleFormat {
    Float,
    Int,
}

/// How samples are read.
#[derive(Debug, Clone, Copy, PartialEq, Eq, Structural)]
pub enum SampleReader {
    /// As they are.
    Float,
    /// As integers, divided by the full scale.
    Int { full_scale: u64 },
}

/// How the samples of a WAV file of this format are read.
pub fn sample_reader(format: SampleFormat, bits: u16) -> (r: Result<SampleReader, EngineError>)
    requires
        format == SampleFormat::Int ==> 1 <= bits <= 64,
    ensures
        match (format, r) {
            (SampleFormat::Float, Ok(reader)) => bits == 32 && reader == SampleReader::Float,
            (SampleFormat::Float, Err(EngineError::Transcribe(message))) => bits != 32 && message@
                == "unsupported WAV format: Float "@ + text::decimal(bits as nat) + "-bit"@,
            (SampleFormat::Int, Ok(SampleReader::Int { full_scale })) => full_scale
                == vstd::arithmetic::power2::pow2((bits - 1) as nat),
            _ => false,
        },
{
    match format {
        SampleFormat::Float => {
            if bits == 32 {
                Ok(SampleReader::Float)
            } else {
                let mut message = "unsupported WAV format: Float ".to_string();
                push_decimal(&mut message, bits as u64);
                message.append("-bit");
                Err(EngineError::Transcribe(message))
            }
        },
        SampleFormat::Int => {
            let shift = (bits - 1) as u64;
            proof {
                vstd::bits::lemma_u64_pow2_no_overflow(shift as nat);
                vstd::bits::lemma_u64_shl_is_mul(1, shift);
            }
            Ok(SampleReader::Int { full_scale: 1u64 << shift })
        },
    }
}

// --- channels --------------------------------------------------------

/// Every `channels`-th sample of the whole frames, from the one at `channel`.
pub open spec fn channel_of<T>(interleaved: Seq<T>, channels: int, channel: int) -> Seq<T> {
    Seq::new(
        (interleaved.len() as int / channels) as nat,
        |i: int| interleaved[i * channels + channel],
    )
}

/// Splits interleaved samples into the near (channel 0) and far (channel 1)
/// ends. A mono source yields an empty far channel.
pub fn deinterleave<T: Copy>(interleaved: &[T], channels: usize) -> (r: (Vec<T>, Vec<T>))
    ensures
        channels <= 1 ==> r.0@ == interleaved@ && r.1@ == Seq::<T>::empty(),
        channels > 1 ==> r.0@ == channel_of(interleaved@, channels as int, 0) && r.1@
            == channel_of(interleaved@, channels as int, 1),
{
    if channels <= 1 {
        return (vstd::slice::slice_to_vec(interleaved), Vec::new());
    }
    let frames = interleaved.len() / channels;
    let mut near: Vec<T> = Vec::with_capacity(frames);
    let mut far: Vec<T> = Vec::with_capacity(frames);
    let mut i: usize = 0;
    let mut at: usize = 0;
    while i < frames
        invariant
            channels > 1,
            frames == interleaved@.len() as int / channels as int,
            i <= frames,
            at == i * channels,
            near@.len() == i,
            far@.len() == i,
            forall|k: int| 0 <= k < i ==> #[trigger] near@[k] == interleaved@[k * channels],
            forall|k: int| 0 <= k < i ==> #[trigger] far@[k] == interleaved@[k * channels + 1],
        decreases frames - i,
    {
        proof {
            assert((i + 1) * channels == at + channels) by (nonlinear_arith)
                requires
                    at == i * channels,
            ;
            assert((i + 1) * channels <= frames * channels) by (nonlinear_arith)
                requires
                    i + 1 <= frames,
            ;
            assert(frames * channels <= interleaved@.len()) by (nonlinear_arith)
                requires
                    frames == interleaved@.len() as int / channels as int,
                    channels > 1,
            ;
        }
        near.push(interleaved[at]);
        far.push(interleaved[at + 1]);
        at += channels;
        i += 1;
    }
    assert(near@ == channel_of(interleaved@, channels as int, 0));
    assert(far@ == channel_of(interleaved@, channels as int, 1));
    (near, far)
}

/// A channel has one sample of every whole frame, at its own place in the frame,
/// and what does not fill a frame has none.
pub proof fn law_channel_takes_one_of_each_frame<T>(
    frame: Seq<T>,
    rest: Seq<T>,
    channels: int,
    channel: int,
)
    requires
        frame.len() == channels,
        0 <= channel < channels,
    ensures
        channel_of(frame + rest, channels, channel) == seq![frame[channel]] + channel_of(
            rest,
            channels,
            channel,
        ),
        rest.len() < channels ==> channel_of(rest, channels, channel).len() == 0,
{
    let all = frame + rest;
    let one = channel_of(all, channels, channel);
    let more = seq![frame[channel]] + channel_of(rest, channels, channel);
    vstd::arithmetic::div_mod::lemma_div_plus_one(rest.len() as int, channels);
    assert(all.len() as int / channels == rest.len() as int / channels + 1);
    if rest.len() < channels {
        vstd::arithmetic::div_mod::lemma_basic_div(rest.len() as int, channels);
    }
    assert forall|i: int| 0 <= i < one.len() implies one[i] == more[i] by {
        if i == 0 {
            assert(i * channels == 0) by (nonlinear_arith)
                requires
                    i == 0,
            ;
            assert(all[channel] == frame[channel]);
        } else {
            assert(i * channels + channel == frame.len() + ((i - 1) * channels + channel))
                by (nonlinear_arith)
                requires
                    frame.len() == channels,
            ;
            assert((i - 1) * channels >= 0) by (nonlinear_arith)
                requires
                    i >= 1,
                    channels > 0,
            ;
            assert((i + 1) * channels <= all.len()) by (nonlinear_arith)
                requires
                    i < all.len() as int / channels,
                    channels > 0,
            ;
            assert(i * channels + channels == (i + 1) * channels) by (nonlinear_arith);
            assert(more[i] == channel_of(rest, channels, channel)[i - 1]);
            assert(one[i] == all[i * channels + channel]);
        }
    }
    assert(one == more);
}

/// The sample at `i`, or silence past the end.
pub open spec fn padded<T>(samples: Seq<T>, i: int, silence: T) -> T {
    if i < samples.len() {
        samples[i]
    } else {
        silence
    }
}

/// The frames of a stereo recording: as many as the longer channel has.
pub open spec fn stereo_frames<T>(near: Seq<T>, far: Seq<T>) -> nat {
    if near.len() >= far.len() {
        near.len()
    } else {
        far.len()
    }
}

/// A channel filled up with silence to `frames`.
pub open spec fn padded_to<T>(samples: Seq<T>, frames: nat, silence: T) -> Seq<T> {
    Seq::new(frames, |i: int| padded(samples, i, silence))
}

/// The two channels frame by frame, the near end first, the shorter channel
/// padded with silence.
pub open spec fn interleaved<T>(near: Seq<T>, far: Seq<T>, silence: T) -> Seq<T> {
    Seq::new(
        stereo_frames(near, far) * 2,
        |i: int|
            if i % 2 == 0 {
                padded(near, i / 2, silence)
            } else {
                padded(far, i / 2, silence)
            },
    )
}

/// Interleaves two channels into stereo frames: channel 0 the near end, channel
/// 1 the far end. The shorter channel is padded with silence.
pub fn interleave<T: Copy>(near: &[T], far: &[T], silence: T) -> (out: Vec<T>)
    ensures
        out@ == interleaved(near@, far@, silence),
{
    let frames = if near.len() >= far.len() {
        near.len()
    } else {
        far.len()
    };
    let mut out: Vec<T> = Vec::new();
    let mut i: usize = 0;
    while i < frames
        invariant
            frames == stereo_frames(near@, far@),
            i <= frames,
            out@ == interleaved(near@, far@, silence).take(i * 2),
        decreases frames - i,
    {
        let ghost before = out@;
        out.push(
            if i < near.len() {
                near[i]
            } else {
                silence
            },
        );
        out.push(
            if i < far.len() {
                far[i]
            } else {
                silence
            },
        );
        i += 1;
        assert(out@ == interleaved(near@, far@, silence).take(i * 2));
    }
    assert(interleaved(near@, far@, silence).take(frames * 2) == interleaved(near@, far@, silence));
    out
}

/// The two ends of a recording stay apart: splitting the stereo frames gives
/// each channel back, the shorter one padded with silence.
pub proof fn law_channels_stay_apart<T>(near: Seq<T>, far: Seq<T>, silence: T)
    ensures
        channel_of(interleaved(near, far, silence), 2, 0) == padded_to(
            near,
            stereo_frames(near, far),
            silence,
        ),
        channel_of(interleaved(near, far, silence), 2, 1) == padded_to(
            far,
            stereo_frames(near, far),
            silence,
        ),
        near.len() >= far.len() ==> channel_of(interleaved(near, far, silence), 2, 0) == near,
        far.len() >= near.len() ==> channel_of(interleaved(near, far, silence), 2, 1) == far,
{
    let frames = stereo_frames(near, far);
    let all = interleaved(near, far, silence);
    assert(channel_of(all, 2, 0) == padded_to(near, frames, silence));
    assert(channel_of(all, 2, 1) == padded_to(far, frames, silence));
}

// --- resampling ------------------------------------------------------

/// How many samples are left at [`WHISPER_RATE`].
pub open spec fn resampled_len(len: int, in_rate: int) -> int {
    len * WHISPER_RATE / in_rate
}

/// Where the input window of output sample `j` begins.
pub open spec fn window_start(j: int, in_rate: int) -> int {
    j * in_rate / (WHISPER_RATE as int)
}

/// Where the input window of output sample `j` ends: with the input sample in
/// which the next output sample begins, that one taken in unless it begins
/// there exactly.
pub open spec fn window_end(j: int, in_rate: int) -> int {
    ((j + 1) * in_rate + WHISPER_RATE - 1) / (WHISPER_RATE as int)
}

proof fn lemma_window(len: int, in_rate: int, j: int)
    requires
        in_rate > 0,
        0 <= j < resampled_len(len, in_rate),
    ensures
        0 <= window_start(j, in_rate) < window_end(j, in_rate) <= len,
{
    let rate = WHISPER_RATE as int;
    let next = (j + 1) * in_rate;
    assert(next <= len * rate) by (nonlinear_arith)
        requires
            j + 1 <= len * rate / in_rate,
            next == (j + 1) * in_rate,
            in_rate > 0,
    ;
    assert(j * in_rate >= 0) by (nonlinear_arith)
        requires
            j >= 0,
            in_rate > 0,
    ;
    assert(next == j * in_rate + in_rate) by (nonlinear_arith)
        requires
            next == (j + 1) * in_rate,
    ;
}

/// Whether `out` is `input` at [`WHISPER_RATE`]: each output sample averages
/// the input window it spans.
pub open spec fn is_resampled<T, F: Fn(&[T]) -> T>(
    mean: F,
    input: Seq<T>,
    in_rate: int,
    out: Seq<T>,
) -> bool {
    if input.len() == 0 || in_rate == WHISPER_RATE {
        out == input
    } else {
        &&& out.len() == resampled_len(input.len() as int, in_rate)
        &&& forall|j: int|
            0 <= j < out.len() ==> averages(
                mean,
                input.subrange(window_start(j, in_rate), window_end(j, in_rate)),
                #[trigger] out[j],
            )
    }
}

/// Resamples to 16 kHz with box-filter decimation: each output sample is the
/// mean of the input window it spans. Aliasing-safe enough for speech, and
/// exact for integer ratios like 48 kHz to 16 kHz.
pub fn resample_to_whisper<T: Copy, F: Fn(&[T]) -> T>(input: &[T], in_rate: u32, mean: F) -> (out:
    Vec<T>)
    requires
        total_mean(mean),
        input@.len() > 0 ==> in_rate > 0 && resampled_len(input@.len() as int, in_rate as int)
            <= usize::MAX,
    ensures
        is_resampled(mean, input@, in_rate as int, out@),
{
    if input.len() == 0 || in_rate == WHISPER_RATE {
        return vstd::slice::slice_to_vec(input);
    }
    let len = input.len();
    let rate = in_rate as u128;
    proof {
        assert(len * WHISPER_RATE <= u128::MAX) by (nonlinear_arith)
            requires
                len <= u64::MAX,
        ;
    }
    let out_len = (len as u128 * WHISPER_RATE as u128 / rate) as usize;
    let mut out: Vec<T> = Vec::with_capacity(out_len);
    let mut j: usize = 0;
    while j < out_len
        invariant
            total_mean(mean),
            len == input@.len(),
            in_rate > 0,
            rate == in_rate,
            out_len == resampled_len(len as int, in_rate as int),
            j <= out_len,
            out@.len() == j,
            forall|k: int|
                0 <= k < out@.len() ==> averages(
                    mean,
                    input@.subrange(
                        window_start(k, in_rate as int),
                        window_end(k, in_rate as int),
                    ),
                    #[trigger] out@[k],
                ),
        decreases out_len - j,
    {
        proof {
            lemma_window(len as int, in_rate as int, j as int);
            assert(0 <= j * in_rate && (j + 1) * in_rate + WHISPER_RATE <= u128::MAX)
                by (nonlinear_arith)
                requires
                    0 <= j < u64::MAX,
                    0 < in_rate <= u32::MAX,
            ;
        }
        let here = j as u128 * rate;
        let next = (j as u128 + 1) * rate;
        let from = (here / WHISPER_RATE as u128) as usize;
        let to = ((next + WHISPER_RATE as u128 - 1) / WHISPER_RATE as u128) as usize;
        assert(from == window_start(j as int, in_rate as int));
        assert(to == window_end(j as int, in_rate as int));
        let window = vstd::slice::slice_subrange(input, from, to);
        let sample = mean(window);
        assert(averages(
            mean,
            input@.subrange(
                window_start(j as int, in_rate as int),
                window_end(j as int, in_rate as int),
            ),
            sample,
        ));
        out.push(sample);
        j += 1;
    }
    out
}

/// For an integer ratio the windows follow each other without overlap, each as
/// long as the ratio, and there are as many as fit: 48 kHz to 16 kHz averages
/// three samples into one.
pub proof fn law_integer_ratio_exact(len: int, ratio: int, j: int)
    requires
        len >= 0,
        ratio > 0,
        j >= 0,
    ensures
        resampled_len(len, ratio * WHISPER_RATE) == len / ratio,
        window_start(j, ratio * WHISPER_RATE) == j * ratio,
        window_end(j, ratio * WHISPER_RATE) == (j + 1) * ratio,
{
    let rate = WHISPER_RATE as int;
    vstd::arithmetic::div_mod::lemma_div_multiples_vanish_quotient(rate, len, ratio);
    assert(len * rate == rate * len && ratio * rate == rate * ratio) by (nonlinear_arith);
    assert(j * (ratio * rate) == (j * ratio) * rate) by (nonlinear_arith);
    assert((j + 1) * (ratio * rate) == ((j + 1) * ratio) * rate) by (nonlinear_arith);
    let a = j * ratio;
    let b = (j + 1) * ratio;
    assert((a * rate) / rate == a) by (nonlinear_arith)
        requires
            rate == 16000,
    ;
    assert((b * rate + rate - 1) / rate == b) by (nonlinear_arith)
        requires
            rate == 16000,
    ;
}

/// A window holds just the input samples that its output sample spans: it begins
/// with the one that the output sample begins in and ends with the one that it
/// ends in. There are as many output samples as fit.
pub proof fn law_window_spans_its_sample(len: int, in_rate: int, j: int)
    requires
        len >= 0,
        in_rate > 0,
        j >= 0,
    ensures
        window_start(j, in_rate) * WHISPER_RATE <= j * in_rate < (window_start(j, in_rate) + 1)
            * WHISPER_RATE,
        (window_end(j, in_rate) - 1) * WHISPER_RATE < (j + 1) * in_rate <= window_end(j, in_rate)
            * WHISPER_RATE,
        resampled_len(len, in_rate) * in_rate <= len * WHISPER_RATE < (resampled_len(len, in_rate)
            + 1) * in_rate,
{
    let whole = len * WHISPER_RATE;
    vstd::arithmetic::div_mod::lemma_fundamental_div_mod(whole, in_rate);
    vstd::arithmetic::div_mod::lemma_mod_bound(whole, in_rate);
    let n = resampled_len(len, in_rate);
    assert(n * in_rate == in_rate * n && (n + 1) * in_rate == in_rate * n + in_rate)
        by (nonlinear_arith);
}

/// At [`WHISPER_RATE`] samples come out as they are. At any other rate each is
/// averaged from the window it spans, and for an integer ratio that is just the
/// samples of its own place, as many as the ratio.
pub proof fn law_resampled_from_its_own_window<T, F: Fn(&[T]) -> T>(
    mean: F,
    g: spec_fn(Seq<T>) -> T,
    input: Seq<T>,
    in_rate: int,
    out: Seq<T>,
    ratio: int,
    j: int,
)
    requires
        is_resampled(mean, input, in_rate, out),
        forall|window: &[T], value: T| #[trigger]
            call_ensures(mean, (window,), value) ==> value == g(window@),
        ratio > 0,
        j >= 0,
    ensures
        in_rate == 16_000 ==> out == input,
        in_rate != 16_000 && input.len() > 0 ==> out.len() == resampled_len(
            input.len() as int,
            in_rate,
        ) && (j < out.len() ==> out[j] == g(
            input.subrange(window_start(j, in_rate), window_end(j, in_rate)),
        )),
        in_rate == ratio * 16_000 && ratio > 1 ==> out.len() == input.len() as int / ratio && (j
            < out.len() ==> out[j] == g(input.subrange(j * ratio, (j + 1) * ratio))),
{
    law_integer_ratio_exact(input.len() as int, ratio, j);
    if in_rate != WHISPER_RATE && input.len() > 0 && j < out.len() {
        law_averages_what_it_is_given(
            mean,
            g,
            input.subrange(window_start(j, in_rate), window_end(j, in_rate)),
            out[j],
        );
    }
    if input.len() == 0 {
        assert(0int / ratio == 0) by (nonlinear_arith)
            requires
                ratio > 0,
        ;
    }
}

/// The samples that one end of a recording has: all of them in a mono
/// recording, else one for each whole frame.
pub open spec fn samples_per_end(len: int, channels: int) -> int {
    if channels <= 1 {
        len
    } else {
        len / channels
    }
}

/// Turns the interleaved samples of a recording into mono channels ready for
/// Whisper.
pub fn decode_recording<T: Copy, F: Fn(&[T]) -> T>(
    interleaved: &[T],
    channels: u16,
    sample_rate: u32,
    mean: F,
) -> (r: Channels<T>)
    requires
        total_mean(mean),
        samples_per_end(interleaved@.len() as int, channels as int) > 0 ==> sample_rate > 0
            && resampled_len(
            samples_per_end(interleaved@.len() as int, channels as int),
            sample_rate as int,
        ) <= usize::MAX,
    ensures
        channels <= 1 ==> is_resampled(mean, interleaved@, sample_rate as int, r.near@) && r.far@
            == Seq::<T>::empty(),
        channels > 1 ==> is_resampled(
            mean,
            channel_of(interleaved@, channels as int, 0),
            sample_rate as int,
            r.near@,
        ) && is_resampled(
            mean,
            channel_of(interleaved@, channels as int, 1),
            sample_rate as int,
            r.far@,
        ),
{
    let (near_raw, far_raw) = deinterleave(interleaved, channels as usize);
    let near = resample_to_whisper(near_raw.as_slice(), sample_rate, &mean);
    let far = resample_to_whisper(far_raw.as_slice(), sample_rate, &mean);
    Channels { near, far }
}

/// A stereo recording at [`WHISPER_RATE`] decodes to the channels it was made
/// of, the shorter one padded with silence.
pub proof fn law_recording_decodes_to_its_channels<T, F: Fn(&[T]) -> T>(
    mean: F,
    near: Seq<T>,
    far: Seq<T>,
    silence: T,
    decoded: Channels<T>,
)
    requires
        is_resampled(
            mean,
            channel_of(interleaved(near, far, silence), 2, 0),
            WHISPER_RATE as int,
            decoded.near@,
        ),
        is_resampled(
            mean,
            channel_of(interleaved(near, far, silence), 2, 1),
            WHISPER_RATE as int,
            decoded.far@,
        ),
    ensures
        decoded.near@ == padded_to(near, stereo_frames(near, far), silence),
        decoded.far@ == padded_to(far, stereo_frames(near, far), silence),
{
    law_channels_stay_apart(near, far, silence);
}

/// Where no far end was captured, its channel is silence throughout.
pub proof fn law_missing_far_end_is_silent<T>(near: Seq<T>, silence: T)
    ensures
        channel_of(interleaved(near, Seq::empty(), silence), 2, 1) == Seq::new(
            near.len(),
            |i: int| silence,
        ),
{
    law_channels_stay_apart(near, Seq::empty(), silence);
    assert(padded_to(Seq::empty(), near.len(), silence) == Seq::new(near.len(), |i: int| silence));
}

} // verus!

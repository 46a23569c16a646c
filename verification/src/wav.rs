//! WAV files for the `send-clip` command.

use crate::audio::{
    frame_count, is_feasible, law_resampling_holds_constant, law_trimming_keeps_speech, lemma_frames,
    resample_linear, resampled, trim_silence, trimmed, window_end, INPUT_SAMPLE_RATE,
};
use crate::rounding::Double;
use crate::single::{pcm_sample, Single};
use hound::WavReader;
use vstd::prelude::*;

verus! {

/// Why the WAV crate could not read a file.
#[verifier::external_type_specification]
#[verifier::external_body]
pub struct ExWavFault(hound::Error);

/// The channels and the sample rate of a WAV file, and whether its samples are
/// floating-point numbers; `None` where its header cannot be read.
pub uninterp spec fn wav_format(file: Seq<u8>) -> Option<(nat, nat, bool)>;

/// `WavReader::new` and `WavReader::spec` read the header of a WAV file, which
/// has at least one channel.
#[verifier::external_body]
fn read_format(file: &[u8]) -> (r: Result<(u16, u32, bool), hound::Error>)
    ensures
        r is Ok <==> wav_format(file@) is Some,
        r matches Ok(f) ==> wav_format(file@) == Some((f.0 as nat, f.1 as nat, f.2)) && f.0 > 0,
{
    let spec = WavReader::new(file)?.spec();
    Ok((spec.channels, spec.sample_rate, match spec.sample_format {
        hound::SampleFormat::Int => false,
        hound::SampleFormat::Float => true,
    }))
}

/// The integer samples of a WAV file, interleaved; `None` where they cannot be
/// read.
pub uninterp spec fn wav_integers(file: Seq<u8>) -> Option<Seq<i32>>;

/// `WavReader::into_samples` reads the integer samples of a WAV file, and fails
/// where one of them cannot be read.
#[verifier::external_body]
fn read_integers(file: &[u8]) -> (r: Result<Vec<i32>, hound::Error>)
    ensures
        r is Ok <==> wav_integers(file@) is Some,
        r matches Ok(samples) ==> wav_integers(file@) == Some(samples@),
{
    WavReader::new(file)?.into_samples::<i32>().collect()
}

/// The samples of a WAV file, interleaved.
pub enum WavSamples {
    Int(Vec<i32>),
    Float(Vec<Single>),
}

/// The low 16 bits of an integer, as a signed number.
pub open spec fn narrowed(v: int) -> int {
    (v + 32768) % 65536 - 32768
}

/// The 16-bit samples that integer samples become: the low 16 bits of each.
pub open spec fn from_integers(v: Seq<i32>) -> Seq<i16> {
    v.map_values(|x: i32| narrowed(x as int) as i16)
}

/// The 16-bit samples that floating-point samples become.
pub open spec fn from_floats(v: Seq<Single>) -> Seq<i16> {
    v.map_values(|x: Single| pcm_sample(x@) as i16)
}

/// The 16-bit samples that the samples of a file become.
pub open spec fn raw_samples(samples: WavSamples) -> Seq<i16> {
    match samples {
        WavSamples::Int(v) => from_integers(v@),
        WavSamples::Float(v) => from_floats(v@),
    }
}

/// The sum of some samples.
pub open spec fn sum_of(samples: Seq<i16>) -> int
    decreases samples.len(),
{
    if samples.len() == 0 {
        0
    } else {
        sum_of(samples.drop_last()) + samples.last()
    }
}

/// The mean of some samples, without its fraction.
pub open spec fn mean_of(samples: Seq<i16>) -> int {
    let sum = sum_of(samples);
    let n = samples.len() as int;
    if sum < 0 {
        -(-sum / n)
    } else {
        sum / n
    }
}

/// Interleaved samples mixed down to one channel: the mean of each frame.
pub open spec fn mixed(raw: Seq<i16>, channels: nat) -> Seq<i16> {
    if channels > 1 {
        Seq::new(
            frame_count(raw.len(), channels),
            |i: int|
                mean_of(raw.subrange(i * channels, window_end(raw.len(), channels, i as nat) as int)) as i16,
        )
    } else {
        raw
    }
}

/// The clip that a file becomes: mono, at 16 kHz, without the silence around
/// it.
pub open spec fn clip(channels: nat, sample_rate: nat, raw: Seq<i16>, threshold: Double) -> Seq<i16> {
    trimmed(resampled(mixed(raw, channels), sample_rate, 16_000), 16_000, threshold)
}

/// The exact sum of some samples.
pub open spec fn exact_sum(samples: Seq<i16>) -> int {
    samples.fold_left(0int, |sum: int, s: i16| sum + s)
}

/// `m` is the mean of some samples, without its fraction: what is left of the sum
/// is less than one for each of them, and has the sign of the sum.
pub open spec fn is_mean(samples: Seq<i16>, m: int) -> bool {
    let left = exact_sum(samples) - m * samples.len();
    if exact_sum(samples) >= 0 {
        0 <= left < samples.len()
    } else {
        -samples.len() < left <= 0
    }
}

/// Frame `i` of `raw`, which has `channels` samples in each frame; the last one
/// may be cut short.
pub open spec fn frame_at(raw: Seq<i16>, channels: nat, i: int) -> Seq<i16> {
    raw.subrange(
        i * channels,
        if i * channels + channels <= raw.len() {
            i * channels + channels
        } else {
            raw.len() as int
        },
    )
}

/// `mono` has the mean of each frame of `raw`.
pub open spec fn is_mono_of(mono: Seq<i16>, raw: Seq<i16>, channels: nat) -> bool {
    &&& (mono.len() - 1) * channels < raw.len() <= mono.len() * channels || (mono.len() == 0 && raw.len()
        == 0)
    &&& forall|i: int|
        0 <= i < mono.len() ==> is_mean(frame_at(raw, channels, i), #[trigger] mono[i] as int)
}

proof fn lemma_exact_sum(samples: Seq<i16>)
    ensures
        sum_of(samples) == exact_sum(samples),
    decreases samples.len(),
{
    if samples.len() > 0 {
        lemma_exact_sum(samples.drop_last());
    }
}

/// There is one mean.
proof fn lemma_mean(samples: Seq<i16>, m: int)
    requires
        samples.len() > 0,
        is_mean(samples, m),
    ensures
        mean_of(samples) == m,
{
    lemma_exact_sum(samples);
    let (sum, n) = (sum_of(samples), samples.len() as int);
    if sum < 0 {
        assert(-sum == (-m) * n + -(sum - m * n)) by (nonlinear_arith);
        vstd::arithmetic::div_mod::lemma_fundamental_div_mod_converse(-sum, n, -m, -(sum - m * n));
    } else {
        assert(sum == m * n + (sum - m * n)) by (nonlinear_arith);
        vstd::arithmetic::div_mod::lemma_fundamental_div_mod_converse(sum, n, m, sum - m * n);
    }
}

/// A clip is made of the means of the frames alone, and those are taken before
/// anything else is done: a file of several channels becomes the clip that the
/// mono file of its means becomes, at whatever rate.
pub proof fn law_clip_is_made_of_frame_means(
    channels: nat,
    sample_rate: nat,
    raw: Seq<i16>,
    mono: Seq<i16>,
    threshold: Double,
)
    requires
        channels > 0,
        is_mono_of(mono, raw, channels),
    ensures
        clip(channels, sample_rate, raw, threshold) == clip(1, sample_rate, mono, threshold),
        clip(1, sample_rate, mono, threshold) == trimmed(
            resampled(mono, sample_rate, 16_000),
            16_000,
            threshold,
        ),
        sample_rate == 16_000 ==> clip(channels, sample_rate, raw, threshold) == trimmed(mono, 16_000, threshold),
{
    lemma_mixed(channels, raw, mono);
}

proof fn lemma_mixed(channels: nat, raw: Seq<i16>, mono: Seq<i16>)
    requires
        channels > 0,
        is_mono_of(mono, raw, channels),
    ensures
        mixed(raw, channels) == mono,
{
    let c = channels as int;
    let n = mono.len();
    lemma_frames(raw.len(), channels, n);
    if n > 0 {
        lemma_frames(raw.len(), channels, (n - 1) as nat);
    } else {
        assert(0 * c == 0);
    }
    assert(frame_count(raw.len(), channels) == n);
    assert forall|i: int| 0 <= i < n implies #[trigger] mono[i] == mean_of(
        raw.subrange(i * c, window_end(raw.len(), channels, i as nat) as int),
    ) && (c == 1 ==> mono[i] == raw[i]) by {
        let frame = frame_at(raw, channels, i);
        assert((i + 1) * c == i * c + c && 0 <= i * c <= (n - 1) * c) by (nonlinear_arith)
            requires
                0 <= i <= n - 1,
                c > 0,
        ;
        lemma_mean(frame, mono[i] as int);
        if c == 1 {
            assert(frame =~= seq![raw[i]]);
            assert(seq![raw[i]].drop_last() =~= Seq::<i16>::empty());
            reveal_with_fuel(sum_of, 2);
            assert(sum_of(frame) == raw[i]);
        }
    }
    if c == 1 {
        assert(mono =~= raw);
    } else {
        assert(mixed(raw, channels) =~= mono);
    }
}

/// A sound that is steady over the frames stays steady: where every frame has
/// the mean `m`, every sample of the clip is `m`.
pub proof fn law_steady_sound_stays_steady(
    channels: nat,
    sample_rate: nat,
    raw: Seq<i16>,
    mono: Seq<i16>,
    m: i16,
    threshold: Double,
)
    requires
        channels > 0,
        is_mono_of(mono, raw, channels),
        is_feasible(mono.len(), sample_rate, 16_000),
        forall|i: int| 0 <= i < mono.len() ==> #[trigger] mono[i] == m,
    ensures
        forall|i: int|
            0 <= i < clip(channels, sample_rate, raw, threshold).len() ==> #[trigger] clip(
                channels,
                sample_rate,
                raw,
                threshold,
            )[i] == m,
{
    law_clip_is_made_of_frame_means(channels, sample_rate, raw, mono, threshold);
    law_resampling_holds_constant(mono, sample_rate, 16_000, m);
    law_trimming_keeps_speech(resampled(mono, sample_rate, 16_000), 16_000, threshold);
}

/// Samples of 16 bits are taken as they are, and of wider ones the low 16 bits.
pub proof fn law_integer_samples_keep_their_low_bits(v: Seq<i32>)
    ensures
        from_integers(v).len() == v.len(),
        forall|i: int|
            0 <= i < v.len() ==> (#[trigger] from_integers(v)[i] - v[i]) % 65536 == 0,
        forall|i: int|
            0 <= i < v.len() && -32768 <= v[i] <= 32767 ==> #[trigger] from_integers(v)[i] == v[i],
{
}

fn narrow(v: i32) -> (r: i16)
    ensures
        r == narrowed(v as int),
{
    (((v as i64 + 0x8000_8000) % 0x1_0000) - 0x8000) as i16
}

fn convert_samples(samples: &WavSamples) -> (r: Vec<i16>)
    ensures
        r@ == raw_samples(*samples),
{
    let mut r: Vec<i16> = Vec::new();
    let mut i: usize = 0;
    match samples {
        WavSamples::Int(v) => {
            while i < v.len()
                invariant
                    i <= v@.len(),
                    r@.len() == i,
                    forall|j: int| 0 <= j < i ==> #[trigger] r@[j] == narrowed(v@[j] as int),
                decreases v@.len() - i,
            {
                r.push(narrow(v[i]));
                i = i + 1;
            }
        },
        WavSamples::Float(v) => {
            while i < v.len()
                invariant
                    i <= v@.len(),
                    r@.len() == i,
                    forall|j: int| 0 <= j < i ==> #[trigger] r@[j] == pcm_sample(v@[j]@),
                decreases v@.len() - i,
            {
                r.push(v[i].to_pcm());
                i = i + 1;
            }
        },
    }
    assert(r@ =~= raw_samples(*samples));
    r
}

/// The mean of a frame of at most 65535 samples.
fn frame_mean(raw: &[i16], start: usize, end: usize) -> (r: i16)
    requires
        start < end <= raw@.len(),
        end - start <= 65535,
    ensures
        r == mean_of(raw@.subrange(start as int, end as int)),
{
    let mut sum: i64 = 0;
    let mut i: usize = start;
    assert(raw@.subrange(start as int, start as int) =~= Seq::<i16>::empty());
    while i < end
        invariant
            start <= i <= end <= raw@.len(),
            end - start <= 65535,
            sum == sum_of(raw@.subrange(start as int, i as int)),
            -32768 * (i - start) <= sum <= 32767 * (i - start),
        decreases end - i,
    {
        proof {
            let next = raw@.subrange(start as int, i + 1);
            assert(next.drop_last() =~= raw@.subrange(start as int, i as int));
        }
        sum = sum + raw[i] as i64;
        i = i + 1;
    }
    let n: u64 = (end - start) as u64;
    let size: u64 = if sum < 0 { (-sum) as u64 } else { sum as u64 };
    proof {
        let q = size as int / n as int;
        vstd::arithmetic::div_mod::lemma_fundamental_div_mod(size as int, n as int);
        assert(0 <= q && (sum < 0 ==> q <= 32768) && (sum >= 0 ==> q <= 32767)) by (nonlinear_arith)
            requires
                size == n * q + size as int % n as int,
                0 <= (size as int % n as int),
                n > 0,
                sum < 0 ==> size <= 32768 * n,
                sum >= 0 ==> size <= 32767 * n,
                size >= 0,
        ;
    }
    let q: u64 = size / n;
    if sum < 0 {
        (-(q as i64)) as i16
    } else {
        q as i16
    }
}

/// Mixes interleaved samples down to one channel.
fn mix_down(raw: Vec<i16>, channels: u16) -> (r: Vec<i16>)
    ensures
        r@ == mixed(raw@, channels as nat),
{
    if channels <= 1 {
        return raw;
    }
    let width: usize = channels as usize;
    let len: usize = raw.len();
    let mut out: Vec<i16> = Vec::new();
    let mut start: usize = 0;
    let ghost mut i: nat = 0;
    while start < len
        invariant
            1 < width <= 65535,
            len == raw@.len(),
            start == i * width || (start == len && i * width >= len),
            start <= len,
            out@.len() == i,
            i <= frame_count(len as nat, width as nat),
            forall|j: int|
                0 <= j < i ==> #[trigger] out@[j] == mean_of(
                    raw@.subrange(j * width, window_end(len as nat, width as nat, j as nat) as int),
                ),
        decreases len - start,
    {
        let end: usize = if len - start < width { len } else { start + width };
        proof {
            assert((i + 1) * width == i * width + width) by (nonlinear_arith);
            assert(end == window_end(len as nat, width as nat, i));
            lemma_frames(len as nat, width as nat, i);
        }
        out.push(frame_mean(&raw, start, end));
        start = end;
        proof {
            i = i + 1;
        }
    }
    proof {
        lemma_frames(len as nat, width as nat, i);
        assert(out@ =~= mixed(raw@, channels as nat));
    }
    out
}

/// Makes a clip of the samples of a WAV file.
pub fn convert_wav(channels: u16, sample_rate: u32, samples: &WavSamples, threshold: Double) -> (r: Vec<i16>)
    requires
        sample_rate > 0 || raw_samples(*samples).len() == 0,
    ensures
        r@ == clip(channels as nat, sample_rate as nat, raw_samples(*samples), threshold),
{
    let mono: Vec<i16> = mix_down(convert_samples(samples), channels);
    proof {
        if raw_samples(*samples).len() == 0 && channels > 1 {
            lemma_frames(0, channels as nat, 0);
        }
    }
    let resampled: Vec<i16> = resample_linear(&mono, sample_rate, INPUT_SAMPLE_RATE);
    trim_silence(&resampled, INPUT_SAMPLE_RATE, threshold)
}

/// Why a WAV file cannot be sent.
#[derive(Debug, Clone, Copy, PartialEq, Eq, Structural)]
pub enum WavError {
    /// The header cannot be read.
    Header,
    /// A sample cannot be read.
    Samples,
    /// The file has samples, but a sample rate of zero.
    ZeroRate,
}

/// The 16-bit samples that a file holds; `floats` are its samples where they
/// are floating-point numbers.  `None` where they cannot be read.
pub open spec fn file_samples(file: Seq<u8>, is_float: bool, floats: Seq<Single>) -> Option<Seq<i16>> {
    if is_float {
        Some(from_floats(floats))
    } else {
        match wav_integers(file) {
            Some(v) => Some(from_integers(v)),
            None => None,
        }
    }
}

/// What a file becomes, or why it cannot be sent.
pub open spec fn loaded(file: Seq<u8>, floats: Seq<Single>, threshold: Double) -> Result<Seq<i16>, WavError> {
    match wav_format(file) {
        None => Err(WavError::Header),
        Some((channels, rate, is_float)) => match file_samples(file, is_float, floats) {
            None => Err(WavError::Samples),
            Some(raw) => if rate == 0 && raw.len() > 0 {
                Err(WavError::ZeroRate)
            } else {
                Ok(clip(channels, rate, raw, threshold))
            },
        },
    }
}

/// A file of 16-bit samples becomes the clip of the means of its frames, whatever
/// its rate and its number of channels; it is refused exactly where its header
/// or a sample cannot be read, or its samples have no rate.
pub proof fn law_file_becomes_the_clip_of_its_frames(
    file: Seq<u8>,
    floats: Seq<Single>,
    threshold: Double,
    mono: Seq<i16>,
    raw: Seq<i16>,
)
    ensures
        loaded(file, floats, threshold) == Err::<Seq<i16>, WavError>(WavError::Header) <==> wav_format(file) is None,
        wav_format(file) matches Some((channels, rate, is_float)) ==> {
            &&& loaded(file, floats, threshold) == Err::<Seq<i16>, WavError>(WavError::Samples) <==> !is_float
                && wav_integers(file) is None
            &&& !is_float && wav_integers(file) is Some && (wav_integers(file)->0).len() > 0 ==> (loaded(
                file,
                floats,
                threshold,
            ) == Err::<Seq<i16>, WavError>(WavError::ZeroRate) <==> rate == 0)
            &&& !is_float && rate > 0 && channels > 0 && is_mono_of(mono, raw, channels) && (wav_integers(
                file,
            ) matches Some(v) && v.len() == raw.len() && forall|i: int|
                0 <= i < raw.len() ==> #[trigger] v[i] == raw[i]) ==> loaded(file, floats, threshold) == Ok::<
                Seq<i16>,
                WavError,
            >(trimmed(resampled(mono, rate, 16_000), 16_000, threshold))
            &&& is_float && rate > 0 && channels > 0 && is_mono_of(mono, raw, channels) && floats.len()
                == raw.len() && (forall|i: int|
                0 <= i < raw.len() ==> pcm_sample(#[trigger] floats[i]@) == raw[i]) ==> loaded(
                file,
                floats,
                threshold,
            ) == Ok::<Seq<i16>, WavError>(trimmed(resampled(mono, rate, 16_000), 16_000, threshold))
        },
{
    match wav_format(file) {
        Some((channels, rate, is_float)) => {
            if is_float && rate > 0 && channels > 0 && is_mono_of(mono, raw, channels) && floats.len()
                == raw.len() && forall|i: int|
                0 <= i < raw.len() ==> pcm_sample(#[trigger] floats[i]@) == raw[i] {
                assert forall|i: int| 0 <= i < raw.len() implies #[trigger] from_floats(floats)[i] == raw[i] by {
                    assert(pcm_sample(floats[i]@) == raw[i]);
                }
                assert(from_floats(floats) =~= raw);
                law_clip_is_made_of_frame_means(channels, rate, raw, mono, threshold);
            }
            if !is_float && rate > 0 && channels > 0 && is_mono_of(mono, raw, channels) {
                match wav_integers(file) {
                    Some(v) => {
                        law_integer_samples_keep_their_low_bits(v);
                        if v.len() == raw.len() && forall|i: int| 0 <= i < raw.len() ==> #[trigger] v[i] == raw[i] {
                            assert forall|i: int| 0 <= i < raw.len() implies #[trigger] from_integers(v)[i]
                                == raw[i] by {
                                assert(v[i] == raw[i]);
                            }
                            assert(from_integers(v) =~= raw);
                            law_clip_is_made_of_frame_means(channels, rate, raw, mono, threshold);
                        }
                    },
                    None => {},
                }
            }
        },
        None => {},
    }
}

/// Loads a WAV file, brings it to 16 kHz and trims the silence around it.
///
/// Where the samples of the file are floating-point numbers, `floats` are those
/// samples.
pub fn load_wav_as_input_pcm16(
    file: &[u8],
    floats: Vec<Single>,
    threshold: Double,
) -> (r: Result<Vec<i16>, WavError>)
    ensures
        loaded(file@, floats@, threshold) == (match r {
            Ok(out) => Ok::<Seq<i16>, WavError>(out@),
            Err(e) => Err(e),
        }),
{
    let (channels, rate, is_float) = match read_format(file) {
        Ok(format) => format,
        Err(_) => {
            return Err(WavError::Header);
        },
    };
    let samples: WavSamples = if is_float {
        WavSamples::Float(floats)
    } else {
        match read_integers(file) {
            Ok(v) => WavSamples::Int(v),
            Err(_) => {
                return Err(WavError::Samples);
            },
        }
    };
    let count: usize = match &samples {
        WavSamples::Int(v) => v.len(),
        WavSamples::Float(v) => v.len(),
    };
    if rate == 0 && count > 0 {
        return Err(WavError::ZeroRate);
    }
    Ok(convert_wav(channels, rate, &samples, threshold))
}

} // verus!

use gemini_assistant::audio::{resample_linear, trim_silence};
use gemini_assistant::rounding::Double;
use gemini_assistant::single::Single;
use gemini_assistant::wav::{convert_wav, load_wav_as_input_pcm16, WavError, WavSamples};

fn double(x: f64) -> Double {
    Double { bits: x.to_bits() }
}

/// Lets everything through.
fn open() -> Double {
    double(-1.0)
}

fn spec(channels: u16, sample_rate: u32, bits: u16, sample_format: hound::SampleFormat) -> hound::WavSpec {
    hound::WavSpec { channels, sample_rate, bits_per_sample: bits, sample_format }
}

fn int_wav(channels: u16, sample_rate: u32, bits: u16, samples: &[i32]) -> Vec<u8> {
    let mut file = std::io::Cursor::new(Vec::new());
    let mut writer = hound::WavWriter::new(&mut file, spec(channels, sample_rate, bits, hound::SampleFormat::Int)).unwrap();
    for &s in samples {
        writer.write_sample(s).unwrap();
    }
    writer.finalize().unwrap();
    file.into_inner()
}

fn float_wav(channels: u16, sample_rate: u32, samples: &[f32]) -> Vec<u8> {
    let mut file = std::io::Cursor::new(Vec::new());
    let mut writer = hound::WavWriter::new(&mut file, spec(channels, sample_rate, 32, hound::SampleFormat::Float)).unwrap();
    for &s in samples {
        writer.write_sample(s).unwrap();
    }
    writer.finalize().unwrap();
    file.into_inner()
}

fn singles(samples: &[f32]) -> Vec<Single> {
    samples.iter().map(|s| Single { bits: s.to_bits() }).collect()
}

#[test]
fn a_mono_file_at_16_khz_is_taken_as_it_is() {
    let file = int_wav(1, 16_000, 16, &[1, -2, 30_000, -30_000]);
    assert_eq!(load_wav_as_input_pcm16(&file, Vec::new(), open()), Ok(vec![1, -2, 30_000, -30_000]));
}

#[test]
fn channels_are_mixed_towards_zero() {
    let file = int_wav(2, 16_000, 16, &[1, 2, -1, -2, 32_767, 32_767, -32_768, -32_768]);
    assert_eq!(load_wav_as_input_pcm16(&file, Vec::new(), open()), Ok(vec![1, -1, 32_767, -32_768]));
}

#[test]
fn wide_samples_keep_their_low_bits() {
    let file = int_wav(1, 16_000, 24, &[0x12_3456, -1, 0x8000, -0x8001]);
    assert_eq!(load_wav_as_input_pcm16(&file, Vec::new(), open()), Ok(vec![0x3456, -1, -32_768, 0x7fff]));
    let file = int_wav(1, 16_000, 32, &[i32::MIN, i32::MAX]);
    assert_eq!(load_wav_as_input_pcm16(&file, Vec::new(), open()), Ok(vec![0, -1]));
}

#[test]
fn floating_point_samples_are_scaled() {
    let samples = [0.5f32, -1.0, 2.0, f32::NAN];
    let file = float_wav(1, 16_000, &samples);
    assert_eq!(
        load_wav_as_input_pcm16(&file, singles(&samples), open()),
        Ok(vec![16_383, -32_767, 32_767, 0])
    );
}

#[test]
fn a_file_is_resampled_and_trimmed() {
    let mut samples = vec![0i32; 48_000];
    for (i, s) in samples.iter_mut().enumerate().skip(20_000).take(4_000) {
        *s = if i % 2 == 0 { 9_000 } else { -8_000 };
    }
    let file = int_wav(1, 48_000, 16, &samples);
    let mono: Vec<i16> = samples.iter().map(|&s| s as i16).collect();
    let expected = trim_silence(&resample_linear(&mono, 48_000, 16_000), 16_000, double(400.0));
    assert!(!expected.is_empty() && expected.len() < 16_000);
    assert_eq!(load_wav_as_input_pcm16(&file, Vec::new(), double(400.0)), Ok(expected));
}

#[test]
fn what_is_no_wav_file_is_refused() {
    assert_eq!(load_wav_as_input_pcm16(b"RIFFxxxx", Vec::new(), open()), Err(WavError::Header));
    assert_eq!(load_wav_as_input_pcm16(b"", Vec::new(), open()), Err(WavError::Header));
}

#[test]
fn a_cut_file_is_refused() {
    let mut file = int_wav(1, 16_000, 16, &[1, 2, 3]);
    file.truncate(file.len() - 1);
    assert_eq!(load_wav_as_input_pcm16(&file, Vec::new(), open()), Err(WavError::Samples));
}

#[test]
fn a_rate_of_zero_is_refused() {
    let mut file = int_wav(1, 16_000, 16, &[1, 2]);
    file[24..32].fill(0);
    assert_eq!(load_wav_as_input_pcm16(&file, Vec::new(), open()), Err(WavError::ZeroRate));
    let mut file = int_wav(1, 16_000, 16, &[]);
    file[24..32].fill(0);
    assert_eq!(load_wav_as_input_pcm16(&file, Vec::new(), open()), Ok(Vec::new()));
}

#[test]
fn samples_are_converted_without_a_file() {
    let samples = WavSamples::Int(vec![3, 5, -3, -6, 100]);
    assert_eq!(convert_wav(2, 16_000, &samples, open()), vec![4, -4, 100]);
    assert_eq!(convert_wav(0, 16_000, &samples, open()), vec![3, 5, -3, -6, 100]);
}

use gemini_assistant::audio::{
    downmix_to_mono_i16, resample_linear, trim_silence, INPUT_SAMPLE_RATE, OUTPUT_SAMPLE_RATE,
};
use gemini_assistant::chime::{chime_phases, chime_tone, Chime};
use gemini_assistant::rounding::Double;
use gemini_assistant::single::Single;

fn sine_i16(freq: f32, sample_rate: u32, n: usize) -> Vec<i16> {
    (0..n)
        .map(|i| {
            let t = i as f32 / sample_rate as f32;
            ((t * freq * std::f32::consts::TAU).sin() * i16::MAX as f32 * 0.8) as i16
        })
        .collect()
}

fn double(x: f64) -> Double {
    Double { bits: x.to_bits() }
}

fn single(x: f32) -> Single {
    Single { bits: x.to_bits() }
}

/// A small generator of reproducible numbers.
struct Numbers(u64);

impl Numbers {
    fn next(&mut self) -> u64 {
        self.0 = self.0.wrapping_mul(6364136223846793005).wrapping_add(1442695040888963407);
        self.0 >> 16
    }

    fn sample(&mut self) -> i16 {
        self.next() as i16
    }
}

/// The conversion in hardware arithmetic.
fn resample_in_hardware(input: &[i16], from_rate: u32, to_rate: u32) -> Vec<i16> {
    if from_rate == to_rate || input.is_empty() {
        return input.to_vec();
    }
    let ratio = from_rate as f64 / to_rate as f64;
    let out_len = ((input.len() as f64) / ratio).round() as usize;
    (0..out_len)
        .map(|i| {
            let src_pos = i as f64 * ratio;
            let idx = src_pos.floor() as usize;
            let frac = src_pos - idx as f64;
            let a = *input.get(idx).unwrap_or(&0) as f64;
            let b = *input.get(idx + 1).unwrap_or(input.last().unwrap_or(&0)) as f64;
            (a + (b - a) * frac).round() as i16
        })
        .collect()
}

/// Trimming in hardware arithmetic.
fn trim_in_hardware(samples: &[i16], sample_rate: u32, threshold: f64) -> Vec<i16> {
    let window = (sample_rate as usize / 50).max(1);
    let padding = (sample_rate as usize / 1000) * 300;
    let mut first_voiced = None;
    let mut last_voiced = None;
    for (i, chunk) in samples.chunks(window).enumerate() {
        let sum_sq: i64 = chunk.iter().map(|&s| (s as i64) * (s as i64)).sum();
        if ((sum_sq as f64) / (chunk.len() as f64)).sqrt() > threshold {
            let start = i * window;
            first_voiced.get_or_insert(start);
            last_voiced = Some(start + chunk.len());
        }
    }
    match (first_voiced, last_voiced) {
        (Some(start), Some(end)) => {
            samples[start.saturating_sub(padding)..(end + padding).min(samples.len())].to_vec()
        }
        _ => Vec::new(),
    }
}

/// Mixing in hardware arithmetic.
fn downmix_in_hardware(data: &[f32], channels: u16) -> Vec<i16> {
    data.chunks(channels.max(1) as usize)
        .map(|frame| {
            let sum: f32 = frame.iter().sum();
            let avg = sum / frame.len() as f32;
            (avg.clamp(-1.0, 1.0) * i16::MAX as f32) as i16
        })
        .collect()
}

#[test]
fn resample_same_rate_is_identity() {
    let input = vec![1i16, 2, 3, 4, 5];
    assert_eq!(resample_linear(&input, 16_000, 16_000), input);
}

#[test]
fn resample_empty_input_is_empty() {
    assert!(resample_linear(&[], 16_000, 24_000).is_empty());
}

#[test]
fn resample_single_sample_holds_value() {
    let out = resample_linear(&[500], 16_000, 24_000);
    assert!(out.iter().all(|&s| s == 500));
    assert_eq!(out.len(), 2);
}

#[test]
fn upsample_preserves_approximate_duration() {
    let input = sine_i16(440.0, 16_000, 16_000);
    let out = resample_linear(&input, 16_000, 24_000);
    let expected = 24_000usize;
    assert!(
        (out.len() as i64 - expected as i64).abs() < 10,
        "expected ~{expected} samples, got {}",
        out.len()
    );
}

#[test]
fn downsample_preserves_approximate_duration() {
    let input = sine_i16(440.0, 24_000, 24_000);
    let out = resample_linear(&input, 24_000, 16_000);
    let expected = 16_000usize;
    assert!(
        (out.len() as i64 - expected as i64).abs() < 10,
        "expected ~{expected} samples, got {}",
        out.len()
    );
}

#[test]
fn resample_roundtrip_preserves_peak_amplitude_within_tolerance() {
    let input = sine_i16(1000.0, 16_000, 1600);
    let up = resample_linear(&input, 16_000, 24_000);
    let back = resample_linear(&up, 24_000, 16_000);

    let orig_peak = input.iter().map(|&s| s.unsigned_abs()).max().unwrap();
    let round_trip_peak = back.iter().map(|&s| s.unsigned_abs()).max().unwrap();
    let ratio = round_trip_peak as f64 / orig_peak as f64;
    assert!(
        (0.8..=1.05).contains(&ratio),
        "round-trip peak amplitude drifted too far: orig={orig_peak}, round_trip={round_trip_peak}, ratio={ratio}"
    );
}

#[test]
fn trim_silence_removes_leading_and_trailing_silence() {
    let sample_rate = 16_000;
    let silence = vec![0i16; sample_rate as usize / 2];
    let voice = sine_i16(440.0, sample_rate, sample_rate as usize / 2);
    let mut samples = silence.clone();
    samples.extend(&voice);
    samples.extend(&silence);

    let trimmed = trim_silence(&samples, sample_rate, double(1000.0));
    assert!(trimmed.len() < samples.len());
    assert!(trimmed.len() >= voice.len());
}

#[test]
fn trim_silence_all_silence_returns_empty() {
    let samples = vec![0i16; 16_000];
    assert!(trim_silence(&samples, 16_000, double(400.0)).is_empty());
}

#[test]
fn trim_silence_empty_input_returns_empty() {
    assert!(trim_silence(&[], 16_000, double(400.0)).is_empty());
}

/// The platform's sines of the angles of a tone.
fn sines(chime: Chime) -> Vec<Single> {
    chime_phases(chime).iter().map(|p| single(f32::from_bits(p.bits).sin())).collect()
}

#[test]
fn chime_tones_are_nonempty_and_within_i16_range() {
    for chime in [Chime::Start, Chime::Done, Chime::Error] {
        let tone = chime_tone(chime, &sines(chime));
        assert!(!tone.is_empty());
        assert!(tone.iter().all(|&s| s.unsigned_abs() <= i16::MAX as u16 / 4));
    }
}

/// A tone in hardware arithmetic.
fn tone_in_hardware(freq: f32, duration_ms: u32, sample_rate: u32) -> Vec<i16> {
    let n = (sample_rate as f32 * duration_ms as f32 / 1000.0) as usize;
    (0..n)
        .map(|i| {
            let t = i as f32 / sample_rate as f32;
            let envelope = ((n - i).min(i) as f32 / (sample_rate as f32 * 0.01)).min(1.0);
            (((t * freq * std::f32::consts::TAU).sin()) * 0.2 * envelope * i16::MAX as f32) as i16
        })
        .collect()
}

#[test]
fn chimes_match_hardware_arithmetic() {
    for (chime, freq, ms) in [(Chime::Start, 880.0, 120), (Chime::Done, 660.0, 150), (Chime::Error, 220.0, 300)] {
        assert_eq!(chime_tone(chime, &sines(chime)), tone_in_hardware(freq, ms, INPUT_SAMPLE_RATE));
    }
    assert_eq!(chime_phases(Chime::Start).len(), 1920);
    assert_eq!(chime_phases(Chime::Done).len(), 2400);
    assert_eq!(chime_phases(Chime::Error).len(), 4800);
}

#[test]
fn loudest_sine_gives_a_fifth_of_the_range() {
    let ones = vec![single(1.0); 1920];
    let tone = chime_tone(Chime::Start, &ones);
    assert_eq!(tone[0], 0);
    assert_eq!(tone[960], 6553);
    assert_eq!(tone[80], 3276);
    let minus = vec![single(-1.0); 1920];
    assert_eq!(chime_tone(Chime::Start, &minus)[960], -6553);
}

#[test]
fn resampling_matches_hardware_arithmetic() {
    let mut numbers = Numbers(1);
    let rates = [8_000u32, 11_025, 16_000, 22_050, 24_000, 44_100, 48_000, 96_000, 1, 7, 192_000, 12_345];
    for &from in &rates {
        for &to in &rates {
            let n = 1 + (numbers.next() % 400) as usize;
            if n as u64 * to as u64 / from as u64 > 100_000 {
                continue;
            }
            let input: Vec<i16> = (0..n).map(|_| numbers.sample()).collect();
            assert_eq!(
                resample_linear(&input, from, to),
                resample_in_hardware(&input, from, to),
                "{from} to {to}, {n} samples"
            );
        }
    }
}

#[test]
fn resampling_has_exact_values() {
    assert_eq!(resample_linear(&[0, 300], 1, 3), vec![0, 100, 200, 300, 300, 300]);
    assert_eq!(resample_linear(&[0, 100, 200, 300], 2, 1), vec![0, 200]);
    assert_eq!(resample_linear(&[1, 2, 3], 16_000, 0), Vec::<i16>::new());
    assert_eq!(resample_linear(&[i16::MIN, i16::MAX], 1, 2), vec![i16::MIN, -1, i16::MAX, i16::MAX]);
}

#[test]
fn resampling_keeps_duration_to_within_half_a_sample() {
    for (len, from, to) in [
        (1000usize, 44_100u32, 16_000u32),
        (999, 16_000, 48_000),
        (1, 8_000, 48_000),
        (3, 48_000, 24_000),
        (12_345, 11_025, 7_919),
    ] {
        let out = resample_linear(&vec![5i16; len], from, to);
        let gap = out.len() as i64 * from as i64 - len as i64 * to as i64;
        assert!(2 * gap.abs() <= from as i64);
    }
}

#[test]
fn resampling_never_grows_the_peak() {
    let mut numbers = Numbers(2);
    let input: Vec<i16> = (0..500).map(|_| numbers.sample() % 1000).collect();
    let peak = input.iter().map(|s| s.abs()).max().unwrap();
    for to in [8_000, 22_050, 44_100] {
        assert!(resample_linear(&input, 16_000, to).iter().all(|s| s.abs() <= peak));
    }
}

#[test]
fn resampling_holds_a_constant_to_the_very_end() {
    for to in [8_000, 22_050, 44_100, 48_000] {
        assert!(resample_linear(&[-77; 313], 16_000, to).iter().all(|&s| s == -77));
    }
}

#[test]
fn twice_the_rate_and_back_is_where_it_began() {
    let mut numbers = Numbers(11);
    for &rate in &[1u32, 8_000, 24_000, 44_100, 96_000] {
        for n in [0usize, 1, 2, 777] {
            let input: Vec<i16> = (0..n).map(|_| numbers.sample()).collect();
            let up = resample_linear(&input, rate, 2 * rate);
            assert_eq!(up.len(), 2 * input.len());
            assert!((0..n).all(|i| up[2 * i] == input[i]));
            assert_eq!(resample_linear(&up, 2 * rate, rate), input);
        }
    }
    assert_eq!(resample_linear(&[10, 20, -7], 24_000, 48_000), vec![10, 15, 20, 7, -7, -7]);
}

#[test]
fn resampling_is_linear_interpolation() {
    let mut numbers = Numbers(5);
    let input: Vec<i16> = (0..700).map(|_| numbers.sample()).collect();
    for (from, to) in [(44_100i64, 16_000i64), (16_000, 44_100), (24_000, 48_000), (7, 5)] {
        for (i, &s) in resample_linear(&input, from as u32, to as u32).iter().enumerate() {
            let (q, r) = ((i as i64 * from / to) as usize, i as i64 * from % to);
            let a = input[q] as i64;
            let b = *input.get(q + 1).unwrap_or(input.last().unwrap()) as i64;
            let exact = a * (to - r) + b * r;
            assert!((s as i64 * to - exact).abs() < to, "{from} to {to}, sample {i}");
        }
    }
}

#[test]
fn trimming_matches_hardware_arithmetic() {
    let mut numbers = Numbers(3);
    for &rate in &[16_000u32, 8_000, 1_000, 49, 0, 999] {
        for round in 0..6 {
            let n = (numbers.next() % 9_000) as usize;
            let loud = 1 + (numbers.next() % 2_000) as i16;
            let samples: Vec<i16> = (0..n)
                .map(|i| if (i / 700) % 4 == round % 4 { numbers.sample() % loud } else { numbers.sample() % 40 })
                .collect();
            for threshold in [0.0, 23.1, 400.0, -1.0, f64::NAN, f64::INFINITY, f64::NEG_INFINITY, 1e-310] {
                assert_eq!(
                    trim_silence(&samples, rate, double(threshold)),
                    trim_in_hardware(&samples, rate, threshold),
                    "{rate} Hz, threshold {threshold}"
                );
            }
        }
    }
}

#[test]
fn trimming_keeps_300_ms_around_speech() {
    let mut samples = vec![0i16; 16_000];
    for s in samples[8_000..8_320].iter_mut() {
        *s = 10_000;
    }
    let trimmed = trim_silence(&samples, 16_000, double(400.0));
    assert_eq!(trimmed, samples[3_200..13_120].to_vec());
}

#[test]
fn trimming_twice_is_trimming_once() {
    let mut numbers = Numbers(12);
    for &rate in &[0u32, 700, 1_000, 1_250, 16_000, 24_000, 48_000] {
        let window = (rate as usize / 50).max(1);
        for round in 0..6 {
            let samples: Vec<i16> = (0..window * 60 + 7)
                .map(|i| if (i / (7 * window)) % 5 == round % 5 { numbers.sample() % 3_000 } else { numbers.sample() % 40 })
                .collect();
            let once = trim_silence(&samples, rate, double(400.0));
            assert!(!once.is_empty());
            assert_eq!(trim_silence(&once, rate, double(400.0)), once);
        }
    }
}

#[test]
fn trimming_leaves_a_pause_in_the_middle() {
    let mut samples = vec![0i16; 48_000];
    samples[100] = 30_000;
    samples[47_000] = 30_000;
    let trimmed = trim_silence(&samples, 16_000, double(400.0));
    assert_eq!(trimmed.len(), 48_000);
}

#[test]
fn threshold_is_exceeded_only_strictly() {
    let samples = vec![400i16; 320];
    assert!(trim_silence(&samples, 16_000, double(400.0)).is_empty());
    assert_eq!(trim_silence(&samples, 16_000, double(399.999)).len(), 320);
}

#[test]
fn higher_threshold_trims_at_least_as_much() {
    let mut samples = vec![0i16; 32_000];
    for (i, s) in samples.iter_mut().enumerate() {
        *s = (i / 32) as i16 % 900;
    }
    let mut last = usize::MAX;
    for threshold in [0.0, 50.0, 300.0, 600.0, 850.0, 2_000.0] {
        let len = trim_silence(&samples, 16_000, double(threshold)).len();
        assert!(len <= last);
        last = len;
    }
    assert_eq!(last, 0);
}

#[test]
fn mixing_matches_hardware_arithmetic() {
    let mut numbers = Numbers(4);
    for &channels in &[0u16, 1, 2, 3, 6, 8] {
        let mut data: Vec<f32> = Vec::new();
        for _ in 0..4_000 {
            let x = numbers.next();
            let value = match x % 7 {
                0 => f32::from_bits(numbers.next() as u32),
                1 => (numbers.sample() as f32) / 32767.0,
                2 => -(numbers.sample() as f32) / 3e38,
                3 => f32::MIN_POSITIVE * (numbers.sample() as f32) / 65536.0,
                4 => (numbers.sample() as f32) * 1e-6,
                5 => f32::MAX * (numbers.sample() as f32) / 32768.0,
                _ => (numbers.sample() as f32) / 20000.0,
            };
            data.push(value);
        }
        data.extend([f32::NAN, 1.0, f32::INFINITY, f32::NEG_INFINITY, f32::INFINITY, 0.0, -0.0, 1.0]);
        let singles: Vec<Single> = data.iter().map(|&x| single(x)).collect();
        assert_eq!(downmix_to_mono_i16(&singles, channels), downmix_in_hardware(&data, channels), "{channels} channels");
    }
}

#[test]
fn mixing_has_exact_values() {
    let mix = |data: &[f32], channels| {
        downmix_to_mono_i16(&data.iter().map(|&x| single(x)).collect::<Vec<_>>(), channels)
    };
    assert_eq!(mix(&[1.0, -1.0, 0.5, 0.5], 2), vec![0, 16383]);
    assert_eq!(mix(&[2.0, -2.0], 1), vec![32767, -32767]);
    assert_eq!(mix(&[f32::NAN], 1), vec![0]);
    assert_eq!(mix(&[f32::INFINITY, f32::NEG_INFINITY], 1), vec![32767, -32767]);
    assert_eq!(mix(&[f32::MAX, f32::MAX], 2), vec![32767]);
    assert_eq!(mix(&[0.5, 0.5, 0.25], 2), vec![16383, 8191]);
    assert_eq!(mix(&[], 2), Vec::<i16>::new());
}

#[test]
fn rates_are_those_of_the_live_api() {
    assert_eq!((INPUT_SAMPLE_RATE, OUTPUT_SAMPLE_RATE), (16_000, 24_000));
}

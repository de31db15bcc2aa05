use amanuense::daemon::audio::device::{
    device_listing, negotiate_config, sample_format_rank, select_device, CaptureChoice,
    DeviceChoice, InputRange, SampleFormat,
};
use amanuense::daemon::audio::dsp::{mixdown, process_audio};
use amanuense::daemon::audio::stream::{accumulate_samples, drain_samples, open_ring};
use amanuense::daemon::audio::{
    poll_outcome, step_samples, AudioCapture, PollOutcome, Source, POLL_INTERVAL_MS,
};

fn named(names: &[Option<&str>]) -> Vec<Option<String>> {
    names.iter().map(|n| n.map(|s| s.to_string())).collect()
}

fn range(min: u32, max: u32, format: SampleFormat) -> InputRange {
    InputRange { min_sample_rate: min, max_sample_rate: max, format }
}

fn average(frame: &[f32]) -> f32 {
    frame.iter().sum::<f32>() / frame.len() as f32
}

fn mono(rate: u32) -> Source {
    Source { channels: 1, native_rate: rate, target_rate: rate }
}

fn no_resampler(_: &Vec<f32>, _: u32, _: u32) -> Option<Vec<f32>> {
    None
}

fn every_third(v: &Vec<f32>, _: u32, _: u32) -> Vec<f32> {
    v.iter().step_by(3).copied().collect()
}

#[test]
fn devices_are_chosen_by_name() {
    let names = named(&[Some("HDMI"), None, Some("USB Mic 2"), Some("USB Mic")]);
    assert_eq!(select_device(&names, "default"), DeviceChoice::Default);
    assert_eq!(select_device(&names, "USB Mic"), DeviceChoice::Numbered(3));
    assert_eq!(select_device(&names, "USB"), DeviceChoice::Numbered(2));
    assert_eq!(select_device(&names, "HDMI"), DeviceChoice::Numbered(0));
    assert_eq!(select_device(&names, "Webcam"), DeviceChoice::NotFound);
    assert_eq!(select_device(&named(&[]), "HDMI"), DeviceChoice::NotFound);
}

#[test]
fn devices_are_listed() {
    let names = AudioCapture::<f32>::list_devices(&named(&[Some("HDMI"), None, Some("USB")]));
    assert_eq!(names, vec!["HDMI".to_string(), "USB".to_string()]);
    assert_eq!(
        device_listing(&names),
        vec![
            "Dispositivos de entrada disponíveis:".to_string(),
            "  [0] HDMI".to_string(),
            "  [1] USB".to_string(),
            "\nUse o nome exato no campo [audio] device do config.toml.".to_string(),
        ]
    );
    assert_eq!(
        device_listing(&vec![]),
        vec!["Nenhum dispositivo de entrada encontrado.".to_string()]
    );
}

#[test]
fn the_wanted_rate_comes_first() {
    let ranges = vec![
        range(8000, 48000, SampleFormat::Other),
        range(8000, 48000, SampleFormat::I16),
        range(16000, 16000, SampleFormat::I16),
        range(44100, 48000, SampleFormat::F32),
    ];
    assert_eq!(
        negotiate_config(&ranges, 16000),
        Some(CaptureChoice { index: 1, sample_rate: 16000 })
    );
}

#[test]
fn the_best_format_is_the_fallback() {
    let ranges = vec![
        range(44100, 192000, SampleFormat::I16),
        range(44100, 48000, SampleFormat::F32),
        range(44100, 96000, SampleFormat::F32),
        range(48000, 96000, SampleFormat::F32),
    ];
    assert_eq!(
        negotiate_config(&ranges, 16000),
        Some(CaptureChoice { index: 3, sample_rate: 96000 })
    );
    assert_eq!(negotiate_config(&vec![], 16000), None);
}

#[test]
fn formats_are_ranked() {
    assert_eq!(sample_format_rank(SampleFormat::F32), 0);
    assert_eq!(sample_format_rank(SampleFormat::I16), 1);
    assert_eq!(sample_format_rank(SampleFormat::U16), 2);
    assert_eq!(sample_format_rank(SampleFormat::Other), 10);
}

#[test]
fn channels_are_mixed() {
    assert_eq!(mixdown(vec![1.0f32, 3.0, 2.0, 4.0, 9.0], 2, &average), vec![2.0, 3.0]);
    assert_eq!(mixdown(vec![1.0f32, 3.0], 1, &average), vec![1.0, 3.0]);
    assert_eq!(mixdown(vec![1.0f32], 2, &average), Vec::<f32>::new());
}

#[test]
fn rates_are_converted() {
    let raw = vec![0.0f32, 1.0, 2.0, 3.0, 4.0, 5.0];
    assert_eq!(
        process_audio(raw.clone(), 1, 16000, 16000, &average, no_resampler, every_third),
        raw
    );
    assert_eq!(
        process_audio(raw.clone(), 1, 48000, 16000, &average, no_resampler, every_third),
        vec![0.0, 3.0]
    );
    let resample = |v: &Vec<f32>, a: u32, b: u32| {
        assert_eq!((a, b), (48000, 16000));
        Some(vec![v.len() as f32])
    };
    assert_eq!(
        process_audio(raw, 2, 48000, 16000, &average, resample, every_third),
        vec![3.0]
    );
}

#[test]
fn chunks_have_the_length_of_a_step() {
    assert_eq!(step_samples(16000, 500), Some(8000));
    assert_eq!(step_samples(44100, 1), Some(44));
    assert_eq!(step_samples(16000, 0), Some(0));
    assert_eq!(step_samples(48000, 100_000), None);
}

#[test]
fn captured_audio_is_cut_into_chunks() {
    let mut c: AudioCapture<f32> = AudioCapture::new(mono(16000), 3);
    let chunks = c.record_stream(vec![1.0, 2.0], &average, no_resampler, every_third);
    assert!(chunks.is_empty());
    let chunks =
        c.record_stream(vec![3.0, 4.0, 5.0, 6.0, 7.0], &average, no_resampler, every_third);
    assert_eq!(chunks, vec![vec![1.0, 2.0, 3.0], vec![4.0, 5.0, 6.0]]);
    let chunks = c.record_stream(vec![], &average, no_resampler, every_third);
    assert!(chunks.is_empty());
    let last = c.finish(vec![8.0, 9.0, 10.0], &average, no_resampler, every_third);
    assert_eq!(last, Some(vec![7.0, 8.0, 9.0, 10.0]));
}

#[test]
fn a_capture_without_rest_ends_with_nothing() {
    let mut c: AudioCapture<f32> = AudioCapture::new(mono(16000), 2);
    let chunks = c.take_in(&vec![1.0, 2.0]);
    assert_eq!(chunks, vec![vec![1.0, 2.0]]);
    assert_eq!(c.finish(vec![], &average, no_resampler, every_third), None);
}

#[test]
fn portions_do_not_matter() {
    let samples: Vec<f32> = (0..20).map(|i| i as f32).collect();
    for cut in 0..=20 {
        let mut whole: AudioCapture<f32> = AudioCapture::new(mono(16000), 6);
        let mut split: AudioCapture<f32> = AudioCapture::new(mono(16000), 6);
        let expected = whole.take_in(&samples);
        let mut got = split.take_in(&samples[..cut].to_vec());
        got.extend(split.take_in(&samples[cut..].to_vec()));
        assert_eq!(got, expected);
        let rest = whole.finish(vec![], &average, no_resampler, every_third);
        assert_eq!(rest, Some(vec![18.0, 19.0]));
        assert_eq!(split.finish(vec![], &average, no_resampler, every_third), rest);
        assert_eq!([expected.concat(), rest.unwrap()].concat(), samples);
    }
}

#[test]
fn recordings_end_by_command_or_by_time() {
    assert_eq!(poll_outcome(false, false, 299_999_999_999, 300), PollOutcome::Continue);
    assert_eq!(poll_outcome(false, false, 300_000_000_000, 300), PollOutcome::TimedOut);
    assert_eq!(poll_outcome(true, false, 300_000_000_000, 300), PollOutcome::Stopped);
    assert_eq!(poll_outcome(true, false, 0, 300), PollOutcome::Stopped);
    assert_eq!(poll_outcome(false, false, 0, 0), PollOutcome::TimedOut);
    assert_eq!(poll_outcome(false, true, 0, 300), PollOutcome::Stopped);
    assert_eq!(poll_outcome(false, true, 300_000_000_000, 300), PollOutcome::Stopped);
    assert_eq!(POLL_INTERVAL_MS, 50);
}

#[test]
fn samples_pass_through_the_ring() {
    let (mut producer, mut consumer) = open_ring(2, 2).unwrap();
    assert_eq!(drain_samples(&mut consumer), Vec::<u32>::new());
    assert_eq!(accumulate_samples(&[1, 2, 3], &mut producer, false), 0);
    assert_eq!(drain_samples(&mut consumer), vec![1, 2, 3]);
    assert_eq!(accumulate_samples(&[4, 5], &mut producer, true), 0);
    assert_eq!(drain_samples(&mut consumer), Vec::<u32>::new());
}

#[test]
fn samples_come_out_as_they_went_in() {
    let (mut producer, mut consumer) = open_ring(8, 1).unwrap();
    let mut went_in: Vec<u32> = Vec::new();
    let mut came_out: Vec<u32> = Vec::new();
    for round in 0..20u32 {
        let data: Vec<u32> = (0..round % 7).map(|k| round * 10 + k).collect();
        assert_eq!(accumulate_samples(&data, &mut producer, false), 0);
        went_in.extend(&data);
        came_out.extend(drain_samples(&mut consumer));
    }
    assert_eq!(came_out, went_in);
}

#[test]
fn two_rings_are_apart() {
    let (mut producer, _) = open_ring(8, 1).unwrap();
    let (_, mut consumer) = open_ring(8, 1).unwrap();
    accumulate_samples(&[1, 2, 3], &mut producer, false);
    assert_eq!(drain_samples(&mut consumer), Vec::<u32>::new());
}

#[test]
fn a_full_ring_drops_the_excess() {
    let (mut producer, mut consumer) = open_ring(2, 2).unwrap();
    let data: Vec<u32> = (0..11).collect();
    assert_eq!(accumulate_samples(&data, &mut producer, false), 3);
    assert_eq!(accumulate_samples(&[99], &mut producer, false), 1);
    assert_eq!(drain_samples(&mut consumer), vec![0, 1, 2, 3, 4, 5, 6, 7]);
    assert_eq!(accumulate_samples(&[100], &mut producer, false), 0);
    assert_eq!(drain_samples(&mut consumer), vec![100]);
}

#[test]
fn rings_that_hold_nothing_are_not_made() {
    assert!(open_ring(0, 2).is_none());
    assert!(open_ring(48000, 0).is_none());
    assert!(open_ring(u32::MAX, 1).is_none());
    assert!(open_ring(48000, 2).is_some());
}

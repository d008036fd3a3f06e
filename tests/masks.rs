use ffsubsync_wasm::mask::{build_sub_mask, frame_energies, sub_mask_frames};
use ffsubsync_wasm::options::FfsubsyncOptions;
use ffsubsync_wasm::srt::parse_srt;

#[test]
fn sub_mask_marks_covered_frames() {
    let subs = parse_srt("1\n00:00:00,020 --> 00:00:00,045\na\n\n2\n00:00:00,040 --> 00:00:00,060\nb\n").unwrap();
    assert_eq!(sub_mask_frames(&subs, 10), 6);
    let m = build_sub_mask(&subs, 10);
    assert_eq!(m, vec![false, false, true, true, true, true]);
}

#[test]
fn sub_mask_has_one_frame_at_least() {
    let subs = parse_srt("1\n00:00:00,000 --> 00:00:00,000\na\n").unwrap();
    assert_eq!(build_sub_mask(&subs, 10), vec![false]);
}

#[test]
fn one_millisecond_frames() {
    let subs = parse_srt("1\n00:00:00,002 --> 00:00:00,004\na\n").unwrap();
    assert_eq!(build_sub_mask(&subs, 1), vec![false, false, true, true]);
    // 16000 Hz at 1 ms: 16 samples a frame.
    let f = frame_energies(&[1i16; 40], 16000, 1);
    assert_eq!(f.len(), 3);
    assert_eq!(f[0].samples, 16);
    assert_eq!(f[2].samples, 8);
}

#[test]
fn silent_audio_has_zero_energy() {
    let f = frame_energies(&[0i16; 500], 16000, 10);
    assert_eq!(f.len(), 4);
    assert!(f.iter().all(|e| e.sum_sq == 0));
    assert_eq!(f[3].samples, 20);
}

#[test]
fn energies_sum_squares_per_frame() {
    // 8000 Hz at 10 ms: 80 samples a frame; low rates are raised to 8000.
    let mut pcm = vec![0i16; 170];
    pcm[0] = 3;
    pcm[79] = -4;
    pcm[80] = 32767;
    pcm[169] = -32768;
    let f = frame_energies(&pcm, 4000, 10);
    assert_eq!(f.len(), 3);
    assert_eq!(f[0].sum_sq, 25);
    assert_eq!(f[1].sum_sq, 32767u128 * 32767);
    assert_eq!(f[2].sum_sq, 32768u128 * 32768);
    assert_eq!(f[2].samples, 10);
}

#[test]
fn defaults() {
    let o = FfsubsyncOptions::new();
    assert_eq!(o.frame_ms, 10);
    assert_eq!(o.max_offset_ms, 60000);
    assert!(!o.gss);
    assert_eq!(o.sample_rate, 16000);
    assert_eq!(o.vad_aggressiveness, 2);
    let mut o = o;
    o.max_offset_ms = 10;
    o.sample_rate = 0;
    o.frame_ms = 0;
    assert_eq!(o.effective_frame_ms(), 10);
    assert_eq!(o.effective_max_offset_ms(), 1000);
    assert_eq!(o.effective_sample_rate(), 16000);
}

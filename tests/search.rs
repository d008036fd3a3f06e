use ffsubsync_wasm::search::{coarse_ratios, correlate_masks, lag_offset_ms, lag_window, refine_ratios, AlignError};

fn pattern(len: usize, shift: usize) -> Vec<bool> {
    let mut m = vec![false; len];
    for (start, width) in [(100usize, 37usize), (300, 12), (420, 80), (700, 5), (900, 60)] {
        for f in start..start + width {
            if f + shift < len {
                m[f + shift] = true;
            }
        }
    }
    m
}

#[test]
fn shifted_subtitles_give_negative_offset() {
    let audio = pattern(1200, 0);
    let subs = pattern(1400, 200);
    let c = correlate_masks(&audio, &subs, 10, 60000).unwrap();
    assert_eq!(c.offset_ms, -2000);
    assert_eq!(c.best, 37 + 12 + 80 + 5 + 60);
}

#[test]
fn aligned_masks_give_zero_offset() {
    let audio = pattern(1000, 0);
    let c = correlate_masks(&audio, &audio.clone(), 10, 60000).unwrap();
    assert_eq!(c.offset_ms, 0);
}

#[test]
fn empty_mask_is_an_error() {
    assert_eq!(correlate_masks(&vec![], &vec![true], 10, 1000).unwrap_err(), AlignError::EmptyMask);
    assert_eq!(correlate_masks(&vec![true], &vec![], 10, 1000).unwrap_err(), AlignError::EmptyMask);
}

#[test]
fn ties_keep_the_first_lag() {
    let audio = vec![true, false, true, false, true];
    let subs = vec![true];
    let c = correlate_masks(&audio, &subs, 10, 1000).unwrap();
    assert_eq!(c.index, 0);
    assert_eq!(c.best, 1);
    assert_eq!(c.second, Some(1));
}

#[test]
fn single_lag_window_has_no_runner_up() {
    let c = correlate_masks(&vec![true], &vec![true], 10, 1000).unwrap();
    assert_eq!(c.index, 0);
    assert_eq!(c.second, None);
}

#[test]
fn window_bounds_the_offset() {
    // 1000 ms at 300 ms frames: ceil gives 4 frames either way.
    assert_eq!(lag_window(20, 20, 300, 1000), (15, 24));
    assert_eq!(lag_offset_ms(15, 20, 300), -1200);
    assert_eq!(lag_offset_ms(23, 20, 300), 1200);
    assert_eq!(lag_window(3, 2, 10, 1000), (0, 4));
    assert_eq!(lag_window(3, 2, 0, 1000), (0, 4));
    let audio = pattern(1200, 0);
    let subs = pattern(1400, 200);
    let c = correlate_masks(&audio, &subs, 10, 1000).unwrap();
    assert!(c.offset_ms.abs() <= 1000);
}

#[test]
fn drift_grid() {
    assert_eq!(coarse_ratios(), vec![970000, 985000, 1000000, 1015000, 1030000]);
    assert_eq!(refine_ratios(970000), vec![965000, 970000, 975000]);
    assert_eq!(refine_ratios(952000), vec![950000, 952000, 957000]);
    assert_eq!(refine_ratios(1048000), vec![1043000, 1048000, 1050000]);
}

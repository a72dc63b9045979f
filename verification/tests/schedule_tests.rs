use rust_dtw_algorithm::schedule::roc_points;
use rust_dtw_algorithm::schedule::reference_window;
use rust_dtw_algorithm::schedule::{
    check_window, plotted_threshold, signature_windows, thresholds, EvaluationMode, Selector,
    WindowError, MAX_THRESHOLD, NUM_SIGNATURES,
};

#[test]
fn thresholds_descend_from_max_to_zero() {
    let t = thresholds();
    assert_eq!(t.len(), 26);
    assert_eq!(t[0], 500);
    assert_eq!(t[1], 480);
    assert_eq!(t[25], 0);
    let expected: Vec<usize> = (0..=500).rev().step_by(20).collect();
    assert_eq!(t, expected);
}

#[test]
fn plotted_threshold_mirrors_threshold() {
    let t = thresholds();
    for (i, th) in t.iter().enumerate() {
        assert_eq!(plotted_threshold(i), i * 20);
        assert_eq!(plotted_threshold(i) + th, MAX_THRESHOLD);
    }
}

#[test]
fn windows_of_each_mode() {
    assert_eq!(signature_windows(EvaluationMode::Full), vec![(0, 20)]);
    assert_eq!(
        signature_windows(EvaluationMode::Reduced),
        vec![(0, 5), (5, 10), (10, 15), (15, 20)]
    );
    assert_eq!(EvaluationMode::Full.step(), 20);
    assert_eq!(EvaluationMode::Reduced.step(), 5);
    assert_eq!(EvaluationMode::Full.window_count(), 1);
    assert_eq!(EvaluationMode::Reduced.window_count(), 4);
}

#[test]
fn windows_pass_the_check_and_tile_references() {
    for mode in [EvaluationMode::Full, EvaluationMode::Reduced] {
        let w = signature_windows(mode);
        assert_eq!(w[0].0, 0);
        assert_eq!(w[w.len() - 1].1, NUM_SIGNATURES);
        for k in 0..w.len() {
            assert_eq!(check_window(w[k].0, w[k].1), Ok(()));
            if k + 1 < w.len() {
                assert_eq!(w[k].1, w[k + 1].0);
            }
        }
    }
}

#[test]
fn check_window_errors() {
    assert_eq!(check_window(20, 25), Err(WindowError::OffsetTooLarge));
    assert_eq!(check_window(5, 21), Err(WindowError::WindowTooLarge));
    assert_eq!(check_window(5, 5), Err(WindowError::EmptyWindow));
    assert_eq!(check_window(6, 5), Err(WindowError::EmptyWindow));
    assert_eq!(check_window(19, 20), Ok(()));
}

#[test]
fn mode_names() {
    assert_eq!(EvaluationMode::from_name("full"), Some(EvaluationMode::Full));
    assert_eq!(EvaluationMode::from_name("reduced"), Some(EvaluationMode::Reduced));
    assert_eq!(EvaluationMode::from_name("Full"), None);
    assert_eq!(EvaluationMode::from_name(""), None);
}

#[test]
fn selector_names() {
    assert_eq!(Selector::from_name("max"), Some(Selector::Max));
    assert_eq!(Selector::from_name("min"), Some(Selector::Min));
    assert_eq!(Selector::from_name("avg"), Some(Selector::Avg));
    assert_eq!(Selector::from_name("mean"), None);
}

#[test]
fn reference_window_slices() {
    let values: Vec<u32> = (0..20).collect();
    assert_eq!(reference_window(&values, 5, 10), &[5, 6, 7, 8, 9]);
    assert_eq!(reference_window(&values, 0, 20).len(), 20);
}

#[test]
fn roc_points_pair_ordinates() {
    let gar = [(0.0f32, 0.1f32), (0.5, 0.6), (1.0, 0.9)];
    let far = [(0.0f32, 0.7f32), (0.5, 0.2)];
    assert_eq!(roc_points(&gar, &far), vec![(0.1, 0.7), (0.6, 0.2)]);
    let empty: [(u8, u8); 0] = [];
    assert_eq!(roc_points(&empty, &[(1u8, 2u8)]), Vec::new());
}

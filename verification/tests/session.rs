use apilaaa::order::order_key;
use apilaaa::session::{
    admitted_foreground, check_reference, check_settings, choose_model, excluded, export_mode,
    implausible, judge, link_holds, median_level, needs_sky_chain, odd_window, predict_transform,
    recover, repair, representative, select_frames, session_halves, stack_levels, wanted_foreground,
    Basis, Exclusion, FrameInfo, LevelsFrom, Limits, Outcome, Refusal, Verdict, ALIGN_MAX_DEV_PX,
    CLOUD_FIT_FRAC, CLOUD_MAX_FRAC, EXPORT_MAX_LEVEL, RELAXED_FOREGROUND, WHOLE_FRAME,
};

fn key(x: f32) -> i64 {
    order_key(x.to_bits())
}

fn frame(idx: usize) -> FrameInfo {
    FrameInfo {
        idx,
        fraction: 0,
        foreground: false,
        cloud: 0,
        level: key(0.1),
        in_stack: true,
        in_model: true,
        aligned: true,
        export: true,
    }
}

#[test]
fn thresholds_are_the_keys_of_their_values() {
    assert_eq!(ALIGN_MAX_DEV_PX, key(6.0));
    assert_eq!(EXPORT_MAX_LEVEL, key(0.85));
    assert_eq!(CLOUD_MAX_FRAC, key(0.5));
    assert_eq!(CLOUD_FIT_FRAC, key(0.02));
    assert_eq!(RELAXED_FOREGROUND, key(0.6));
    assert_eq!(WHOLE_FRAME, key(1.0));
}

#[test]
fn settings_that_cannot_be_combined() {
    assert!(matches!(check_settings(true, false, true), Err(Refusal::NoStackWithoutExport)));
    assert!(matches!(check_settings(true, true, false), Err(Refusal::NoStackTracked)));
    assert!(matches!(check_settings(true, true, true), Ok(())));
    assert!(matches!(check_settings(false, false, false), Ok(())));
    assert_eq!(
        Refusal::TooFewStars(3).message(),
        "too few stars in the reference (3) — check exposure or max_stars"
    );
    assert_eq!(Refusal::StoppedByUser.message(), "stopped by the user");
    assert!(Refusal::ExportNeedsCorrection.message().starts_with("--export-clean requires"));
    assert!(Refusal::NoStackTracked.message().starts_with("--no-stack requires --fixed-tripod"));
    assert!(Refusal::NoStackWithoutExport.message().contains("--export-clean"));
    assert!(Refusal::NothingSelected.message().contains("--stack-sky-tolerance"));
}

#[test]
fn windows_are_odd() {
    assert_eq!(odd_window(0), 1);
    assert_eq!(odd_window(1), 1);
    assert_eq!(odd_window(6), 7);
    assert_eq!(odd_window(7), 7);
    assert!(!needs_sky_chain(true, true, 1));
    assert!(needs_sky_chain(true, true, 2));
    assert!(!needs_sky_chain(false, true, 7));
    assert!(!needs_sky_chain(true, false, 7));
}

#[test]
fn reference_and_frames_are_judged() {
    assert!(matches!(check_reference(5, false), Err(Refusal::TooFewStars(5))));
    assert!(matches!(check_reference(5, true), Ok(false)));
    assert!(matches!(check_reference(6, false), Ok(true)));
    assert!(matches!(judge(false, Outcome::LoadFailed), Verdict::Skipped));
    assert!(matches!(judge(true, Outcome::OtherDimensions), Verdict::Skipped));
    assert!(matches!(judge(false, Outcome::Measured(Some(6))), Verdict::Aligned));
    assert!(matches!(judge(false, Outcome::Measured(Some(5))), Verdict::Pending));
    assert!(matches!(judge(false, Outcome::Measured(None)), Verdict::Pending));
    assert!(matches!(judge(true, Outcome::Measured(None)), Verdict::Aligned));
    assert!(link_holds(3, 3, Some(6)));
    assert!(!link_holds(2, 3, Some(6)));
    assert!(!link_holds(3, 3, Some(5)));
    assert!(!link_holds(3, 3, None));
}

#[test]
fn alignment_is_predicted_from_the_nearest() {
    let mut f: Vec<FrameInfo> = (0..5).map(frame).collect();
    f[2].aligned = false;
    assert!(matches!(predict_transform(&f, 2, None), Basis::Line(1, 3)));
    assert!(matches!(predict_transform(&f, 1, Some(1)), Basis::Line(0, 3)));
    // At the end the line goes on from the last two.
    assert!(matches!(predict_transform(&f, 5, None), Basis::Line(3, 4)));
    let one = vec![frame(0)];
    assert!(matches!(predict_transform(&one, 3, None), Basis::Hold(0)));
    // Too far away.
    assert!(matches!(predict_transform(&one, 7, None), Basis::Nothing));
    assert!(matches!(predict_transform(&[], 0, None), Basis::Nothing));
}

#[test]
fn implausible_alignments_are_replaced() {
    let dev = [Some(key(0.0)), Some(key(6.0)), Some(key(6.5)), None];
    assert_eq!(implausible(&dev), vec![2]);
    let mut f: Vec<FrameInfo> = (0..4).map(frame).collect();
    let bases = repair(&mut f, &[2]);
    assert_eq!(bases.len(), 1);
    assert!(matches!(bases[0], Basis::Line(1, 3)));
    assert!(!f[2].aligned);
    assert!(f[1].aligned);
    let mut alone = vec![frame(0)];
    let bases = repair(&mut alone, &[0]);
    assert!(matches!(bases[0], Basis::Nothing));
    assert!(alone[0].aligned);
    let bases = recover(&f, &[4, 60]);
    assert!(matches!(bases[0], Basis::Line(1, 3)));
    assert!(matches!(bases[1], Basis::Nothing));
}

#[test]
fn frames_are_chosen_for_the_stack() {
    let l = Limits { max_fg: key(0.3), med: key(0.1), lo: key(0.0625), hi: key(0.16) };
    let mut f: Vec<FrameInfo> = (0..7).map(frame).collect();
    f[1].aligned = false;
    f[2].fraction = key(0.4);
    f[3].cloud = key(0.6);
    f[4].level = key(0.2);
    f[5].level = key(0.05);
    f[6].level = key(0.9);
    assert!(excluded(&f[0], &l).is_none());
    assert!(matches!(excluded(&f[1], &l), Some(Exclusion::NotAligned)));
    assert!(matches!(excluded(&f[2], &l), Some(Exclusion::Foreground)));
    assert!(matches!(excluded(&f[3], &l), Some(Exclusion::Cloud)));
    assert!(matches!(excluded(&f[4], &l), Some(Exclusion::BrightSky)));
    assert!(matches!(excluded(&f[5], &l), Some(Exclusion::DarkSky)));
    let s = match select_frames(&mut f, &l) {
        Ok(s) => s,
        Err(_) => panic!("one frame passes"),
    };
    assert_eq!(s.stacked, 1);
    assert_eq!((s.foreground, s.cloud, s.bright, s.dark, s.saturated), (1, 1, 2, 1, 1));
    // Only the saturated one is not exported.
    let exported: Vec<bool> = f.iter().map(|x| x.export).collect();
    assert_eq!(exported, vec![true, true, true, true, true, true, false]);
    // Selecting again changes nothing.
    assert!(select_frames(&mut f, &l).is_ok());
    assert_eq!(f.iter().filter(|x| x.in_stack).count(), 1);
    let mut none = vec![frame(0)];
    none[0].aligned = false;
    assert!(matches!(select_frames(&mut none, &l), Err(Refusal::NothingSelected)));
}

#[test]
fn foreground_limit_is_relaxed_when_few_frames_pass() {
    let mut f: Vec<FrameInfo> = (0..10).map(frame).collect();
    assert_eq!(admitted_foreground(&f, None, false), (0, 10));
    assert_eq!(wanted_foreground(None, false), 0);
    assert_eq!(wanted_foreground(None, true), WHOLE_FRAME);
    assert_eq!(wanted_foreground(Some(key(0.25)), true), key(0.25));
    assert_eq!(wanted_foreground(Some(key(-0.5)), true), 0);
    assert_eq!(admitted_foreground(&f, None, true), (WHOLE_FRAME, 10));
    for x in f.iter_mut() {
        x.fraction = key(0.2);
    }
    assert_eq!(admitted_foreground(&f, None, false), (RELAXED_FOREGROUND, 0));
    assert_eq!(admitted_foreground(&f, Some(key(0.25)), false), (key(0.25), 10));
    // One of nine aligned frames is less than a fifth, two of ten are not.
    f[0].fraction = 0;
    f[9].aligned = false;
    assert_eq!(admitted_foreground(&f, None, false), (RELAXED_FOREGROUND, 1));
    f[9].aligned = true;
    f[1].fraction = 0;
    assert_eq!(admitted_foreground(&f, None, false), (0, 2));
}

#[test]
fn landscape_drops_no_frame_of_an_untracked_sequence() {
    let mut f: Vec<FrameInfo> = (0..10).map(frame).collect();
    for (i, x) in f.iter_mut().enumerate() {
        x.fraction = key(0.1 * (i + 1) as f32).min(WHOLE_FRAME);
    }
    let (max_fg, n) = admitted_foreground(&f, None, true);
    assert_eq!((max_fg, n), (WHOLE_FRAME, 10));
    let l = Limits { max_fg, med: key(0.1), lo: key(0.05), hi: key(0.2) };
    assert!(f.iter().all(|x| excluded(x, &l).is_none()));
}

#[test]
fn median_level_of_the_session() {
    let mut f: Vec<FrameInfo> = (0..4).map(frame).collect();
    f[0].level = key(0.4);
    f[1].level = key(0.2);
    f[2].level = key(0.3);
    f[3].level = key(0.1);
    f[3].aligned = false;
    assert_eq!(median_level(&f, false), key(0.3));
    assert_eq!(median_level(&f, true), key(0.3));
    f[0].aligned = false;
    assert_eq!(median_level(&f, true), key(0.3));
    assert_eq!(median_level(&[], false), 0);
}

#[test]
fn model_takes_the_clearest_frames() {
    let mut f: Vec<FrameInfo> = (0..30).map(frame).collect();
    assert!(choose_model(&mut f).is_none());
    assert!(f.iter().all(|x| x.in_model));
    // With cloud in most frames the clearest are taken anyway.
    for (i, x) in f.iter_mut().enumerate() {
        x.cloud = key(0.1 + 0.01 * i as f32);
    }
    match choose_model(&mut f) {
        Some(v) => assert_eq!(v, (0..24).collect::<Vec<usize>>()),
        None => panic!("too much cloud"),
    }
    assert!(f[23].in_model && !f[24].in_model);
}

#[test]
fn representative_is_the_nearest_to_the_median() {
    let mut f: Vec<FrameInfo> = (0..4).map(frame).collect();
    f[1].in_stack = false;
    assert_eq!(representative(&f, &[5, 0, 3, 3]), Some(2));
    for x in f.iter_mut() {
        x.in_stack = false;
    }
    assert_eq!(representative(&f, &[5, 0, 3, 3]), None);
}

#[test]
fn what_is_exported_and_how_it_is_levelled() {
    assert_eq!(export_mode(false, false, false, 7), (true, 7));
    assert_eq!(export_mode(true, false, false, 7), (false, 1));
    assert_eq!(export_mode(false, true, true, 7), (false, 7));
    assert_eq!(export_mode(false, false, true, 7), (true, 7));
    assert_eq!(session_halves(true, 16, true), Some(8));
    assert_eq!(session_halves(true, 15, true), None);
    assert_eq!(session_halves(false, 40, true), None);
    assert_eq!(session_halves(true, 40, false), None);
    assert!(matches!(stack_levels(true, false, false, true), LevelsFrom::Nowhere));
    assert!(matches!(stack_levels(false, true, true, true), LevelsFrom::Nowhere));
    assert!(matches!(stack_levels(false, false, true, true), LevelsFrom::Representative));
    assert!(matches!(stack_levels(false, false, true, false), LevelsFrom::Stack));
    assert!(matches!(stack_levels(false, false, false, true), LevelsFrom::Stack));
}

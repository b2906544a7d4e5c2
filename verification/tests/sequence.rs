use apilaaa::fixed::{
    coarse_radius, drift_accepted, fine_radius, landscape_samples, measurable, refinable,
    shift_index, sky_between,
};
use apilaaa::flatten::CellMask;
use apilaaa::order::order_key;
use apilaaa::region::components;
use apilaaa::session::FrameInfo;
use apilaaa::timelapse::{
    blend, candidates, clear_blocks, combine_window, export_order, extent, preserve_transients,
    sample_pixels, window_members, Action, Blend, Combination, Export,
};

fn key(x: f32) -> i64 {
    order_key(x.to_bits())
}

fn frame(idx: usize) -> FrameInfo {
    FrameInfo {
        idx,
        fraction: 0,
        foreground: false,
        cloud: 0,
        level: key(0.1),
        in_stack: true,
        in_model: true,
        aligned: true,
        export: true,
    }
}

#[test]
fn window_combines_what_is_not_occluded() {
    let mut out = Vec::new();
    let c = combine_window(&[false, true, false, false, false], 2, &mut out);
    assert!(matches!(c, Combination::Trimmed));
    assert_eq!(out, vec![0, 2, 3, 4]);
    let c = combine_window(&[false, true, false], 0, &mut out);
    assert!(matches!(c, Combination::Mean));
    assert_eq!(out, vec![0, 2]);
}

#[test]
fn every_frame_of_a_long_window_enters() {
    let mut out = Vec::new();
    let c = combine_window(&[false; 66], 0, &mut out);
    assert!(matches!(c, Combination::Trimmed));
    assert_eq!(out, (0..66).collect::<Vec<usize>>());
    let values: Vec<f32> = (0..66).map(|i| if i < 64 { 0.0 } else { 64.0 }).collect();
    let taken: Vec<f32> = out.iter().map(|f| values[*f]).collect();
    let sum: f32 = taken.iter().sum();
    assert_eq!((sum - 64.0 - 0.0) / (taken.len() - 2) as f32, 1.0);
}

#[test]
fn foreground_of_a_frame_is_kept() {
    let mut out = vec![9];
    let c = combine_window(&[false, true, false], 1, &mut out);
    assert!(matches!(c, Combination::Own));
    assert!(out.is_empty());
}

#[test]
fn transients_are_long_thin_and_grown() {
    let (w, h) = (60usize, 9usize);
    let mut mask = vec![false; w * h];
    // A trail of fifty pixels and a blob of two.
    for x in 5..55 {
        mask[4 * w + x] = true;
    }
    mask[0] = true;
    mask[1] = true;
    let comps = components(&mask, w, h);
    assert_eq!(comps.len(), 2);
    let longest: Vec<usize> = comps.iter().map(|c| extent(c, w)).collect();
    assert!(longest.contains(&50) && longest.contains(&2));
    let (kept, n) = preserve_transients(&mask, &comps, &[true, true], w, h);
    assert!(!kept[0]);
    assert_eq!(n, 54 * 5);
    assert!(kept[2 * w + 3] && kept[6 * w + 56]);
    assert!(!kept[w + 10] && !kept[7 * w + 10]);
    let (none, n) = preserve_transients(&mask, &comps, &[false, false], w, h);
    assert_eq!(n, 0);
    assert!(none.iter().all(|x| !x));
}

#[test]
fn candidates_stand_out_in_enough_frames() {
    let d = [key(0.9), key(-0.9), key(0.1), key(0.9), key(0.9)];
    let l = [key(1.0), key(1.0), key(1.0), key(0.01), key(1.0)];
    let c = candidates(&d, &[4, 4, 4, 4, 3], &l, key(-0.5), key(0.5), key(0.1));
    assert_eq!(c, vec![true, true, false, false, false]);
    let c = candidates(&d, &[], &l, key(-0.5), key(0.5), key(0.1));
    assert_eq!(c, vec![true, true, false, false, true]);
}

#[test]
fn blocks_without_foreground() {
    let (w, h) = (8usize, 5usize);
    let mut fg = vec![false; w * h];
    fg[4 * w + 1] = true;
    assert_eq!(clear_blocks(&fg, w, h, 2, 2), vec![true, true, false, true]);
}

#[test]
fn statistics_skip_the_foreground() {
    assert_eq!(sample_pixels(4, &[]), vec![0, 1, 2, 3]);
    assert_eq!(sample_pixels(4, &[false, true, false, true]), vec![0, 2]);
}

#[test]
fn export_keeps_the_order_of_the_files() {
    let mut f: Vec<FrameInfo> = vec![frame(0), frame(1), frame(3)];
    f[1].export = false;
    let ratios = [key(1.0); 3];
    assert_eq!(export_order(4, &f, &ratios, key(0.85), key(0.1), true), vec![0, 3]);
    assert_eq!(export_order(4, &f, &ratios, key(0.85), key(0.1), false), vec![0, 2, 3]);
}

#[test]
fn export_loads_ahead_and_emits_every_frame() {
    let mut e = Export::start(10, 5, 3);
    let mut held: std::collections::BTreeSet<usize> = std::collections::BTreeSet::new();
    let mut emitted = Vec::new();
    let mut most = 0;
    loop {
        match e.step() {
            Action::Load(a, b) => {
                for i in a..b {
                    held.insert(i);
                }
            }
            Action::Emit(i, lo, hi) => {
                for k in lo..=hi {
                    assert!(held.contains(&k));
                }
                assert!(lo <= i && i <= hi);
                emitted.push(i);
                let front = e.front;
                held.retain(|k| *k >= front);
            }
            Action::Done => break,
        }
        most = most.max(held.len());
    }
    assert_eq!(emitted, (0..10).collect::<Vec<usize>>());
    assert!(most <= 2 * 2 + 2 * 3);
}

#[test]
fn window_members_follow_the_sky_chain() {
    let order = [0, 1, 2, 4];
    let all = window_members(&order, None, 1, 0, 3);
    assert_eq!(all.iter().map(|m| m.pos).collect::<Vec<usize>>(), vec![0, 1, 2, 3]);
    assert!(all.iter().all(|m| m.chain.is_none()));
    let links = [true, true, false, true];
    let some = window_members(&order, Some(&links[..]), 1, 0, 3);
    assert_eq!(some.iter().map(|m| m.pos).collect::<Vec<usize>>(), vec![0, 1, 2]);
    assert!(some[1].chain.is_none());
    match &some[0].chain {
        Some(c) => assert!(c.from == 0 && c.to == 1 && c.backwards),
        None => panic!("chained"),
    }
}

#[test]
fn chains_run_both_ways_and_join() {
    let links = [true, true, false, true];
    assert!(sky_between(&links, 0, 2).is_some());
    assert!(sky_between(&links, 2, 0).is_some());
    assert!(sky_between(&links, 1, 3).is_none());
    assert!(sky_between(&links, 3, 3).is_some());
    assert!(sky_between(&links, 0, 9).is_none());
    match (sky_between(&links, 0, 2), sky_between(&links, 2, 0)) {
        (Some(a), Some(b)) => {
            assert!(a.from == b.from && a.to == b.to);
            assert!(!a.backwards && b.backwards);
        }
        _ => panic!("chained"),
    }
}

#[test]
fn how_frames_are_blended() {
    assert!(matches!(blend(1, true, true, true), (Blend::Alone, false, false)));
    assert!(matches!(blend(3, true, true, false), (Blend::Warped, true, false)));
    assert!(matches!(blend(3, false, false, true), (Blend::Plain, false, true)));
}

#[test]
fn drift_is_measured_on_the_landscape() {
    let m = CellMask { gw: 2, gh: 1, block: 32, data: vec![false, true] };
    // Four columns of sixteen pixels each: the last two lie in the second cell.
    assert_eq!(landscape_samples(&m, 4, 2, 16), vec![2, 3, 6, 7]);
    let all = CellMask { gw: 1, gh: 1, block: 1, data: vec![true] };
    assert_eq!(landscape_samples(&all, 500, 300, 1).len(), 150_000);
    let many = landscape_samples(&all, 500, 301, 1);
    assert_eq!(many.len(), 75_250);
    assert_eq!(many[1], 2);
    assert!(measurable(key(0.02), 64, 64));
    assert!(!measurable(key(0.019), 64, 64));
    assert!(!measurable(key(0.5), 63, 64));
    assert!(!measurable(key(0.5), 64, 63));
    assert!(drift_accepted(key(0.25)));
    assert!(drift_accepted(key(0.9)));
    assert!(!drift_accepted(key(0.2499)));
    assert!(!drift_accepted(key(-0.8)));
    assert_eq!(coarse_radius(0), 1);
    assert_eq!(coarse_radius(8), 1);
    assert_eq!(coarse_radius(9), 2);
    assert_eq!(coarse_radius(64), 8);
    assert_eq!(fine_radius(), 5);
    assert_eq!(shift_index(5, 4, 3, 1, 1), Some(10));
    assert_eq!(shift_index(5, 4, 3, -2, 0), None);
    assert_eq!(shift_index(5, 4, 3, 0, -2), None);
    assert!(refinable(1, 3));
    assert!(!refinable(0, 3));
    assert!(!refinable(2, 3));
}

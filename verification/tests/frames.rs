use apilaaa::align::{best_draw, draws, find_opposite, next_rand, order_vertices, Votes};
use apilaaa::exif::Value;
use apilaaa::fit::{
    anomaly_mode, clipped_median, fill_nan, flat_measurable, flat_usable, median_window, nodes,
    replicated, sky_cells, slope_samples, surface_plan, within, AnomalyArg, AnomalyMode, Source,
};
use apilaaa::order::order_key;
use apilaaa::output::{dng_tags, stretch_samples, METADATA_ARGS};
use apilaaa::raw::{is_pattern, is_raw_file, size_matches, taps, Cfa, Colour, RAW_EXTENSIONS};
use apilaaa::resources::{compute_pipeline_params, total_ram_bytes};
use apilaaa::stars::{brightest, local_maxima};

fn key(x: f32) -> i64 {
    order_key(x.to_bits())
}

#[test]
fn every_accepted_extension_in_any_case() {
    for e in RAW_EXTENSIONS {
        assert!(is_raw_file(Some(e)));
        assert!(is_raw_file(Some(e.to_uppercase().as_str())));
    }
    assert!(is_raw_file(Some("ArW")));
    assert!(!is_raw_file(Some("jpg")));
    assert!(!is_raw_file(Some("")));
    assert!(!is_raw_file(Some("arw2")));
    assert!(!is_raw_file(None));
}

fn cfa(p: &str) -> Cfa {
    match Cfa::from(p) {
        Ok(c) => c,
        Err(e) => panic!("{}", e),
    }
}

#[test]
fn patterns_of_the_sensor() {
    assert!(matches!(cfa("RGGB"), Cfa::Rggb));
    assert!(matches!(cfa("BGGR"), Cfa::Bggr));
    assert!(matches!(cfa("GRBG"), Cfa::Grbg));
    assert!(matches!(cfa("GBRG"), Cfa::Gbrg));
    // A larger pattern is read by its first two rows and columns.
    let wide = "GRGBGRGBGRGBGRGB";
    assert!(is_pattern(wide));
    match Cfa::from("RGGE") {
        Err(t) => assert_eq!(t, "RGG?"),
        Ok(_) => panic!("not a Bayer pattern"),
    }
    assert!(!is_pattern("RGB"));
    assert!(!is_pattern("RGGX"));
}

#[test]
fn a_tile_holds_all_colours() {
    for p in ["RGGB", "BGGR", "GRBG", "GBRG"] {
        let c = cfa(p);
        let mut reds = 0;
        let mut blues = 0;
        for y in 6..8 {
            for x in 3..5 {
                reds += c.is_red(x, y) as usize;
                blues += c.is_blue(x, y) as usize;
            }
        }
        assert_eq!((reds, blues), (1, 1));
    }
    let c = cfa("RGGB");
    assert!(c.is_red(0, 0) && c.is_red(2, 4) && c.is_blue(1, 1));
    assert!(matches!(c.colour(1, 0), Colour::Green));
}

#[test]
fn taps_stay_inside_the_frame() {
    let c = cfa("RGGB");
    let mut out = Vec::new();
    taps(c, 0, 0, 4, 4, &mut out);
    assert_eq!(out.iter().map(|t| t.0).collect::<Vec<usize>>(), vec![0, 1, 4, 5]);
    taps(c, 2, 1, 4, 4, &mut out);
    assert_eq!(out.len(), 9);
    assert!(size_matches(12, 4, 3));
    assert!(!size_matches(11, 4, 3));
}

#[test]
fn memory_report_is_read() {
    let report = "MemTotal:       16303412 kB\nMemFree:  1234 kB\n";
    assert_eq!(total_ram_bytes(report), 16303412 * 1024);
    assert_eq!(total_ram_bytes("MemFree: 1 kB\nMemTotal: 2 kB"), 2048);
    assert_eq!(total_ram_bytes("nothing here"), 4 * 1024 * 1024 * 1024);
    assert_eq!(total_ram_bytes("MemTotal: many kB"), 4 * 1024 * 1024 * 1024);
}

#[test]
fn pipeline_stays_in_its_budget() {
    let p = compute_pipeline_params(16_000_000_000, 6000, 4000, 8, 100);
    assert_eq!(p.budget_bytes, 12_800_000_000);
    assert_eq!(p.frame_bytes, 24 * 24_000_000);
    assert_eq!(p.workers, 8);
    // Twenty-one frames fit beside the accumulator.
    assert_eq!(p.waiting, 21 - 9);
    let used = 20 * 24_000_000 + p.frame_bytes * (p.workers + p.waiting + 1) as u64;
    assert!(used <= p.budget_bytes);
    // Two frames fit: one for a worker, one for the consumer.
    let tight = compute_pipeline_params(100, 1, 1, 2, 10);
    assert_eq!((tight.workers, tight.waiting), (1, 0));
    assert!(20 + 24 * (tight.workers + tight.waiting + 1) <= 80);
    for total in 80..400u64 {
        for cpus in 1..6usize {
            for left in 0..6usize {
                let p = compute_pipeline_params(total, 1, 1, cpus, left);
                assert!(1 <= p.workers && p.workers <= cpus);
                if 20 + 2 * 24 <= p.budget_bytes {
                    let used = 20 + 24 * (p.workers + p.waiting + 1) as u64;
                    assert!(used <= p.budget_bytes);
                }
            }
        }
    }
    let small = compute_pipeline_params(1, 6000, 4000, 8, 100);
    assert_eq!((small.workers, small.waiting), (1, 0));
    let few = compute_pipeline_params(64_000_000_000, 100, 100, 8, 3);
    assert_eq!((few.workers, few.waiting), (3, 0));
}

#[test]
fn peaks_keep_apart() {
    let (w, h) = (9usize, 7usize);
    let mut img = vec![0i64; w * h];
    img[3 * w + 3] = 10;
    img[3 * w + 4] = 9;
    img[3 * w + 6] = 10;
    img[0] = 50;
    assert_eq!(local_maxima(&img, w, h, 5), vec![(3, 3), (6, 3)]);
    assert_eq!(local_maxima(&img, w, h, 11), vec![]);
    // Of two as bright the earlier one is taken.
    let mut tie = vec![0i64; w * h];
    tie[3 * w + 3] = 7;
    tie[3 * w + 4] = 7;
    assert_eq!(local_maxima(&tie, w, h, 5), vec![(3, 3)]);
    assert_eq!(brightest(&[3, 9, 9, 1], 3), vec![1, 2, 0]);
    assert_eq!(brightest(&[3, 9], 10), vec![1, 0]);
}

#[test]
fn fewer_stars_are_the_first_of_more() {
    let flux = [5, 1, 8, 8, 3, 9, 5];
    let all = brightest(&flux, 7);
    assert_eq!(all, vec![5, 2, 3, 0, 6, 4, 1]);
    for k in 0..9 {
        let few = brightest(&flux, k);
        assert_eq!(few[..], all[..k.min(7)]);
    }
    // Two pixels along every border hold no candidate.
    let (w, h) = (6, 5);
    for i in 0..w * h {
        let mut img = vec![0i64; w * h];
        img[i] = 9;
        let (x, y) = (i % w, i / w);
        let inside = (2..=3).contains(&x) && y == 2;
        assert_eq!(local_maxima(&img, w, h, 5), if inside { vec![(x, y)] } else { vec![] });
    }
}

#[test]
fn triangles_name_their_stars() {
    assert_eq!(find_opposite(&[4, 7, 9], 4, 9), 7);
    // Sides 10-20 (5), 20-30 (3), 10-30 (4): vertices across from the
    // shortest, the middle and the longest side.
    let (t, p) = order_vertices(10, 20, 30, 5, 3, 4);
    assert_eq!(p, vec![1, 2, 0]);
    assert_eq!(t, (10, 20, 30));
    let (t, _) = order_vertices(10, 20, 30, 3, 5, 4);
    assert_eq!(t, (30, 20, 10));
}

#[test]
fn votes_pair_the_stars() {
    let mut v = Votes::new(4, 5);
    for _ in 0..3 {
        v.tally((0, 1, 2), (4, 3, 0));
    }
    assert_eq!(v.counts[0][4], 3);
    assert_eq!(v.pairs(), Some(vec![(0, 4, 3), (1, 3, 3), (2, 0, 3)]));
    let mut few = Votes::new(4, 5);
    few.tally((0, 1, 2), (4, 3, 0));
    assert_eq!(few.pairs(), None);
}

#[test]
fn draws_repeat_from_run_to_run() {
    let mut s: u32 = 0x1234_5678;
    let r = next_rand(&mut s);
    assert_eq!(r, s);
    assert_eq!(r, 0x1234_5678u32.wrapping_mul(1664525).wrapping_add(1013904223));
    let d = draws(7);
    assert_eq!(d.len(), 200);
    assert!(d.iter().all(|(a, b)| a != b && *a < 7 && *b < 7));
    assert_eq!(d, draws(7));
    assert_eq!(best_draw(&[None, Some(2), Some(5), Some(5)]), Some(2));
    assert_eq!(best_draw(&[None, Some(2)]), None);
}

#[test]
fn anomaly_of_a_frame() {
    assert!(matches!(anomaly_mode(false, AnomalyArg::Off), AnomalyMode::Full));
    assert!(matches!(anomaly_mode(true, AnomalyArg::Off), AnomalyMode::Off));
    assert!(matches!(anomaly_mode(true, AnomalyArg::Coarse), AnomalyMode::Coarse));
    assert!(matches!(AnomalyMode::from(AnomalyArg::Full), AnomalyMode::Full));
    assert!(surface_plan(AnomalyMode::Off, key(1.0)).is_none());
    match surface_plan(AnomalyMode::Full, key(1.7)) {
        Some(p) => assert!(p.step_cells == 8 && p.lambda == 100 && p.bright),
        None => panic!("planned"),
    }
    match surface_plan(AnomalyMode::Coarse, key(1.6)) {
        Some(p) => assert!(p.step_cells == 32 && p.lambda == 1000 && !p.bright),
        None => panic!("planned"),
    }
}

#[test]
fn cells_that_enter_a_fit() {
    assert_eq!(sky_cells(&[], &[], &[], 2), vec![true, true]);
    assert_eq!(
        sky_cells(&[true, true, false], &[true, false, true], &[false, false, false], 3),
        vec![true, false, false]
    );
    assert_eq!(sky_cells(&[], &[], &[true, false], 2), vec![false, true]);
    assert_eq!(within(&[true, true, false], &[1, 9, 1], 0, 5), vec![true, false, false]);
    assert_eq!(clipped_median(&[1, 2, 3, 100], 50), Some(2));
    assert_eq!(clipped_median(&[100, 200, 300, 1], 50), None);
    assert_eq!(clipped_median(&[], 50), None);
}

#[test]
fn flat_field_needs_frames_and_leverage() {
    let usable = vec![true; 30];
    let levels = vec![key(0.1); 30];
    assert_eq!(slope_samples(&usable, &levels, 2, 1), Some((0..15).map(|i| 2 * i + 1).collect()));
    assert_eq!(slope_samples(&usable, &levels, 3, 0), None);
    assert!(flat_measurable(24, key(1.25)));
    assert!(!flat_measurable(23, key(1.25)));
    assert!(!flat_measurable(24, key(1.2)));
    assert!(flat_usable(25, 100, key(0.01), key(0.1)));
    assert!(!flat_usable(24, 100, key(0.01), key(0.1)));
    assert!(!flat_usable(25, 100, key(0.0), key(0.1)));
    assert!(!flat_usable(25, 100, key(0.01), key(0.3)));
}

#[test]
fn grids_and_their_edges() {
    assert_eq!(replicated(0, 2, 5), 0);
    assert_eq!(replicated(3, 2, 5), 1);
    assert_eq!(replicated(9, 2, 5), 4);
    let (k, d) = nodes(10, 9, 8, 4, 3);
    assert_eq!(k, [5, 6, 9, 10]);
    assert_eq!(d, (2, 1));
    let (k, d) = nodes(100, 0, 8, 4, 3);
    assert_eq!(k, [2, 3, 6, 7]);
    assert_eq!(d, (84, 0));
}

#[test]
fn gaps_are_closed_from_both_sides() {
    let s = fill_nan(&[false, true, false, false, true, false]);
    assert!(matches!(s[0], Source::Same(1)));
    assert!(matches!(s[1], Source::Known));
    assert!(matches!(s[2], Source::Between(1, 4)));
    assert!(matches!(s[3], Source::Between(1, 4)));
    assert!(matches!(s[5], Source::Same(4)));
    assert!(fill_nan(&[false, false]).iter().all(|x| matches!(x, Source::Zero)));
    let all = [true, true, true, true, true];
    assert_eq!(median_window(&all, 0, 3, false), vec![0, 1]);
    assert_eq!(median_window(&all, 0, 3, true), vec![4, 0, 1]);
    assert_eq!(median_window(&[true, false, true], 1, 3, false), vec![0, 2]);
}

#[test]
fn file_carries_its_own_tags() {
    let t = dng_tags(300, 200, b"ILCE-7\0".to_vec(), vec![(1, 2)]);
    let ids: Vec<u16> = t.iter().map(|x| x.0).collect();
    assert_eq!(
        ids,
        vec![
            254, 262, 50706, 50707, 50708, 50713, 50714, 50717, 50829, 50719, 50720, 50778, 50721,
            50727, 50728, 50730
        ]
    );
    assert!(matches!(&t[1].1, Value::Short(v) if *v == vec![34892]));
    assert!(matches!(&t[8].1, Value::Long(v) if *v == vec![0, 0, 200, 300]));
    assert!(matches!(&t[10].1, Value::Rational(v) if *v == vec![(300, 1), (200, 1)]));
    assert!(matches!(&t[12].1, Value::SRational(v) if *v == vec![(1, 2)]));
    // None of what is copied from a source touches them.
    assert!(METADATA_ARGS.contains(&"--WhiteLevel"));
    assert_eq!(METADATA_ARGS.len(), 41);
    assert_eq!(METADATA_ARGS[0], "-EXIF:all");
    assert_eq!(METADATA_ARGS[40], "-overwrite_original");
}

#[test]
fn stretch_looks_at_positive_finite_samples() {
    let k = [key(-1.0), key(0.0), key(0.5), key(f32::INFINITY), key(2.0)];
    assert_eq!(stretch_samples(&k), vec![key(0.5), key(2.0)]);
}

use apilaaa::flatten::{
    consensus_mask, dark_cells, fill_plan, foreground_mask, sky_level, temporal_median,
    temporal_median_masked, union_mask, BgMap, CellMask,
};
use apilaaa::order::order_key;
use apilaaa::region::{any_in, components, count_set, dilate, sift};

fn key(x: f32) -> i64 {
    order_key(x.to_bits())
}

fn bits(s: &str) -> Vec<bool> {
    s.chars().filter(|c| !c.is_whitespace()).map(|c| c == '#').collect()
}

#[test]
fn growth_reaches_all_around_and_keeps_what_is_set() {
    let m = bits("..... ..... ..#.. ..... .....");
    let g = dilate(&m, 5, 5, 1);
    assert_eq!(g, bits("..... .###. .###. .###. ....."));
    assert_eq!(dilate(&m, 5, 5, 0), m);
    assert_eq!(count_set(&g), 9);
}

#[test]
fn components_partition_the_mask() {
    let m = bits("##..# ....# #....");
    let comps = components(&m, 5, 3);
    assert_eq!(comps.len(), 3);
    let mut all: Vec<usize> = comps.concat();
    all.sort();
    assert_eq!(all, vec![0, 1, 4, 9, 10]);
    for c in &comps {
        let mut c = c.clone();
        c.sort();
        assert!(c == vec![0, 1] || c == vec![4, 9] || c == vec![10]);
    }
    let keep: Vec<bool> = comps.iter().map(|c| c.len() >= 2).collect();
    assert_eq!(sift(&m, &comps, &keep), bits("##..# ....# ....."));
}

#[test]
fn anything_set_in_a_window() {
    let m = bits("..... ...#. .....");
    assert!(any_in(&m, 5, 3, 2, 0, 4, 2));
    assert!(!any_in(&m, 5, 3, 0, 0, 3, 3));
}

#[test]
fn foreground_drops_lone_cells_and_grows() {
    let dark = bits("#.... ..... ...## .....");
    let m = foreground_mask(5, 4, 32, &dark);
    assert_eq!(m.data, bits("..... ..### ..### ..###"));
    assert_eq!((m.gw, m.gh, m.block), (5, 4, 32));
    assert_eq!(m.fraction(), (9, 20));
    assert!(m.any());
    assert!(m.at_cell(2, 1) && !m.at_cell(1, 1));
    assert!(m.at_px(64, 32) && !m.at_px(63, 32));
    // Pixels past the last cell belong to it.
    assert!(m.at_px(1000, 1000));
}

#[test]
fn dark_cells_fall_below_their_bound() {
    let d = dark_cells(
        &[key(1.0), key(1.0), key(-1.0)],
        &[key(0.3), key(0.7), key(0.0)],
        &[key(0.5), key(0.5), key(0.5)],
    );
    assert_eq!(d, vec![true, false, false]);
}

fn mask(data: Vec<bool>) -> CellMask {
    CellMask { gw: data.len(), gh: 1, block: 32, data }
}

#[test]
fn consensus_takes_more_than_half() {
    let a = mask(vec![true, true, false, false]);
    let b = mask(vec![true, false, false, true]);
    let c = mask(vec![true, true, false, false]);
    assert_eq!(consensus_mask(&[a, b, c]).data, vec![true, true, false, false]);
    let one = mask(vec![true, false, true, false]);
    assert_eq!(consensus_mask(&[one]).data, vec![true, false, true, false]);
    // Half is not more than half.
    let p = mask(vec![true]);
    let q = mask(vec![false]);
    assert_eq!(consensus_mask(&[p, q]).data, vec![false]);
}

#[test]
fn union_holds_what_either_holds() {
    let a = mask(vec![true, true, false, false]);
    let b = mask(vec![true, false, true, false]);
    assert_eq!(union_mask(&a, &b).data, vec![true, true, true, false]);
}

fn map(levels: &[f32]) -> BgMap {
    let mut data = Vec::new();
    for l in levels {
        data.push(key(*l));
        data.push(key(*l));
        data.push(key(*l));
    }
    BgMap { gw: levels.len(), gh: 1, block: 32, data, valid: Vec::new() }
}

#[test]
fn sky_level_is_the_median_over_the_sky() {
    let m = map(&[0.1, 0.9, 0.3, 0.2]);
    let none = mask(vec![false; 4]);
    let fg = mask(vec![false, true, false, false]);
    assert_eq!(sky_level(&m, &none), Some(key(0.3)));
    assert_eq!(sky_level(&m, &fg), Some(key(0.2)));
    let all = mask(vec![true; 4]);
    assert_eq!(sky_level(&m, &all), None);
}

#[test]
fn temporal_median_needs_five_samples() {
    let maps: Vec<BgMap> = (0..5).map(|i| map(&[0.1 * (i + 1) as f32, 0.5])).collect();
    let masks: Vec<CellMask> = (0..5).map(|i| mask(vec![false, i == 4])).collect();
    let m = temporal_median_masked(&maps, &masks);
    assert_eq!(m.data[0], Some(key(0.1 * 3.0)));
    assert_eq!(m.valid, vec![true, false]);
    assert_eq!(m.filled, 1);
}

#[test]
fn temporal_median_takes_every_frame() {
    let maps = [map(&[0.4, 0.1]), map(&[0.2, 0.9]), map(&[0.3, 0.5])];
    let m = temporal_median(&maps);
    assert_eq!(m.len(), maps[0].data.len());
    assert_eq!(m[0], key(0.3));
    assert_eq!(m[3], key(0.5));
    // Of an even number of frames the upper one in the middle.
    assert_eq!(temporal_median(&maps[..2])[0], key(0.4));
    assert_eq!(temporal_median(&maps[..1]), maps[0].data);
}

#[test]
fn nothing_measured_is_zero() {
    let m = temporal_median_masked(&[map(&[0.3])], &[mask(vec![false])]);
    assert_eq!(m.data, vec![Some(0), Some(0), Some(0)]);
    assert_eq!(m.valid, vec![false]);
    assert_eq!(m.filled, 1);
    assert!(fill_plan(&m.valid, 1, 1).is_empty());
}

#[test]
fn gaps_are_filled_from_the_edges_inwards() {
    let valid = bits("#....");
    let plan = fill_plan(&valid, 5, 1);
    assert_eq!(plan.len(), 4);
    for (k, round) in plan.iter().enumerate() {
        assert_eq!(round.len(), 1);
        assert_eq!(round[0].cell, k + 1);
        assert_eq!(round[0].from, vec![k]);
    }
    assert!(fill_plan(&bits("....."), 5, 1).is_empty());
    assert!(fill_plan(&bits("#####"), 5, 1).is_empty());
}

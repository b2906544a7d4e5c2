use apilaaa::stack::{largest_rect_in_histogram, Accumulator, Sample};

#[test]
fn rectangle_under_a_histogram() {
    assert_eq!(largest_rect_in_histogram(&[2, 1, 5, 6, 2, 3]), (10, 2, 4, 5));
    assert_eq!(largest_rect_in_histogram(&[3, 3, 3]), (9, 0, 3, 3));
    assert_eq!(largest_rect_in_histogram(&[]).0, 0);
    assert_eq!(largest_rect_in_histogram(&[0, 0]).0, 0);
}

fn all(n: usize, s: Sample) -> Vec<Sample> {
    (0..n).map(|_| s).collect()
}

#[test]
fn full_coverage_keeps_the_whole_frame() {
    let mut acc = Accumulator::new(4, 3);
    acc.add(&all(12, Sample::Seen));
    acc.add(&all(12, Sample::Seen));
    assert_eq!(acc.cover, vec![2u32; 12]);
    assert_eq!(acc.valid_bounds(), (0, 0, 4, 3));
    let (src, w, h) = acc.finalize_cropped();
    assert_eq!((w, h), (4, 3));
    assert_eq!(src, (0..12).collect::<Vec<usize>>());
}

#[test]
fn crop_is_the_largest_rectangle_every_frame_covers() {
    let mut acc = Accumulator::new(5, 4);
    acc.add(&all(20, Sample::Seen));
    // The second frame misses the first column and the last row.
    let second: Vec<Sample> = (0..20)
        .map(|i| if i % 5 == 0 || i / 5 == 3 { Sample::Outside } else { Sample::Seen })
        .collect();
    acc.add(&second);
    assert_eq!(acc.valid_bounds(), (1, 0, 5, 3));
    let (src, w, h) = acc.finalize_cropped();
    assert_eq!((w, h), (4, 3));
    assert_eq!(src, vec![1, 2, 3, 4, 6, 7, 8, 9, 11, 12, 13, 14]);
}

#[test]
fn foreground_counts_as_coverage() {
    let mut seen = Accumulator::new(3, 2);
    let mut occluded = Accumulator::new(3, 2);
    seen.add(&all(6, Sample::Seen));
    let mut mixed = all(6, Sample::Seen);
    mixed[2] = Sample::Occluded;
    mixed[4] = Sample::Occluded;
    occluded.add(&mixed);
    assert_eq!(seen.cover, occluded.cover);
    assert_eq!(seen.valid_bounds(), occluded.valid_bounds());
}

#[test]
fn nothing_covered_at_all() {
    let acc = Accumulator::new(3, 2);
    let (src, w, h) = acc.finalize_cropped();
    assert_eq!(src.len(), w * h);
}

use ccdm::segmented::plan_segments;

#[test]
fn even_split() {
    assert_eq!(plan_segments(100, 4), vec![(0, 24), (25, 49), (50, 74), (75, 99)]);
}

#[test]
fn remainder_goes_first() {
    // 10 bytes over 3 segments: 4, 3, 3.
    assert_eq!(plan_segments(10, 3), vec![(0, 3), (4, 6), (7, 9)]);
}

#[test]
fn never_more_segments_than_bytes() {
    let r = plan_segments(2, 8);
    assert_eq!(r, vec![(0, 0), (1, 1)]);
}

#[test]
fn covers_everything_exactly_once() {
    for total in [1u64, 7, 100, 1024, 9999] {
        for n in [1usize, 2, 8, 32] {
            let r = plan_segments(total, n);
            assert_eq!(r.first().unwrap().0, 0);
            assert_eq!(r.last().unwrap().1, total - 1);
            let covered: u64 = r.iter().map(|(s, e)| e - s + 1).sum();
            assert_eq!(covered, total);
        }
    }
}

#[test]
fn degenerate_inputs() {
    assert!(plan_segments(0, 8).is_empty());
    assert!(plan_segments(100, 0).is_empty());
}

#[test]
fn largest_file_is_covered() {
    let r = plan_segments(u64::MAX, 2);
    assert_eq!(r, vec![(0, u64::MAX / 2), (u64::MAX / 2 + 1, u64::MAX - 1)]);
}

#[test]
fn ranges_put_together_are_the_file() {
    let file: Vec<u8> = (0..101u8).collect();
    let mut whole: Vec<u8> = Vec::new();
    for (start, end) in plan_segments(file.len() as u64, 7) {
        whole.extend_from_slice(&file[start as usize..=end as usize]);
    }
    assert_eq!(whole, file);
}

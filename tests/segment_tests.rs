use wav_spectrum::segment::{largest_power_of_four_at_most, segment, Block};

#[test]
fn tail_length_for_remainder_ten() {
    assert_eq!(largest_power_of_four_at_most(10), 4);
}

#[test]
fn tail_length_for_remainder_three_hundred() {
    assert_eq!(largest_power_of_four_at_most(300), 256);
}

#[test]
fn tail_length_for_remainder_three() {
    assert_eq!(largest_power_of_four_at_most(3), 1);
}

#[test]
fn tail_length_for_exact_powers() {
    assert_eq!(largest_power_of_four_at_most(1), 1);
    assert_eq!(largest_power_of_four_at_most(4), 4);
    assert_eq!(largest_power_of_four_at_most(16), 16);
    assert_eq!(largest_power_of_four_at_most(63), 16);
    assert_eq!(largest_power_of_four_at_most(64), 64);
}

#[test]
fn empty_input_gives_no_blocks() {
    assert!(segment(0, 1024).is_empty());
}

#[test]
fn exact_multiple_has_no_tail_block() {
    let blocks = segment(2048, 1024);
    assert_eq!(
        blocks,
        vec![Block { start: 0, len: 1024 }, Block { start: 1024, len: 1024 }]
    );
}

#[test]
fn remainder_gets_power_of_four_block() {
    let blocks = segment(2058, 1024);
    assert_eq!(
        blocks,
        vec![
            Block { start: 0, len: 1024 },
            Block { start: 1024, len: 1024 },
            Block { start: 2048, len: 4 },
        ]
    );
}

#[test]
fn short_input_gets_only_a_tail_block() {
    assert_eq!(segment(300, 1024), vec![Block { start: 0, len: 256 }]);
    assert_eq!(segment(3, 1024), vec![Block { start: 0, len: 1 }]);
}

#[test]
fn blocks_are_disjoint_power_of_two_and_cover_all_but_a_short_tail() {
    let n: usize = 4096 + 5;
    let w: usize = 8;
    let blocks = segment(n, w);
    let mut next: usize = 0;
    for b in &blocks {
        assert_eq!(b.start, next);
        assert!(b.len.is_power_of_two());
        next = b.start + b.len;
    }
    assert!(next <= n);
    assert!(n - next < 4);
}

#[test]
fn window_that_is_not_a_power_of_two() {
    let blocks = segment(7, 3);
    assert_eq!(
        blocks,
        vec![
            Block { start: 0, len: 3 },
            Block { start: 3, len: 3 },
            Block { start: 6, len: 1 },
        ]
    );
}

#[test]
fn tail_length_for_zero_remainder_is_one() {
    assert_eq!(largest_power_of_four_at_most(0), 1);
}

#[test]
fn remainder_ten_leaves_six_untransformed() {
    assert_eq!(segment(10, 16), vec![Block { start: 0, len: 4 }]);
}

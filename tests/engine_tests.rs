use wav_spectrum::engine::{bit_reverse_block, butterfly, reverse_bits, transform_stages, Butterfly};
use wav_spectrum::error::SpectrumError;
use wav_spectrum::segment::{segment, Block};

#[test]
fn accepts_power_of_two_within_scratch() {
    assert_eq!(transform_stages(1024, 4096), Ok(10));
    assert_eq!(transform_stages(1, 4), Ok(0));
    assert_eq!(transform_stages(256, 4096), Ok(8));
}

#[test]
fn rejects_non_power_of_two() {
    assert_eq!(transform_stages(1000, 4096), Err(SpectrumError::InvalidLength));
    assert_eq!(transform_stages(12, 4096), Err(SpectrumError::InvalidLength));
    assert_eq!(transform_stages(0, 4096), Err(SpectrumError::InvalidLength));
}

#[test]
fn rejects_block_larger_than_scratch_allows() {
    assert_eq!(transform_stages(2048, 4096), Err(SpectrumError::InvalidLength));
    assert_eq!(transform_stages(4, 15), Err(SpectrumError::InvalidLength));
    assert_eq!(transform_stages(4, 16), Ok(2));
}

#[test]
fn every_segment_block_is_accepted() {
    for b in segment(5000, 1024) {
        assert!(transform_stages(b.len, 4096).is_ok());
    }
}

#[test]
fn reverses_low_bits() {
    assert_eq!(reverse_bits(1, 3), 4);
    assert_eq!(reverse_bits(6, 3), 3);
    assert_eq!(reverse_bits(5, 3), 5);
    assert_eq!(reverse_bits(1, 10), 512);
    assert_eq!(reverse_bits(0, 0), 0);
}

#[test]
fn reverse_bits_is_an_involution() {
    for i in 0..256usize {
        assert_eq!(reverse_bits(reverse_bits(i, 8), 8), i);
    }
}

#[test]
fn bit_reversal_touches_only_its_block() {
    let mut v: Vec<i32> = (0..12).collect();
    let mut scratch: Vec<i32> = vec![0; 32];
    bit_reverse_block(&mut v, Block { start: 2, len: 8 }, 3, &mut scratch);
    assert_eq!(v, vec![0, 1, 2, 6, 4, 8, 3, 7, 5, 9, 10, 11]);
}

#[test]
fn bit_reversal_of_zeros_stays_zero() {
    let mut re: Vec<i32> = vec![0; 16];
    let mut scratch: Vec<i32> = vec![7; 64];
    bit_reverse_block(&mut re, Block { start: 0, len: 16 }, 4, &mut scratch);
    assert_eq!(re, vec![0; 16]);
}

#[test]
fn first_stage_pairs_neighbours() {
    let block = Block { start: 4, len: 8 };
    let b = butterfly(block, 2, 0);
    assert_eq!(b, Butterfly { top: 4, bottom: 5, twiddle: 0 });
    let b = butterfly(block, 2, 3);
    assert_eq!(b, Butterfly { top: 10, bottom: 11, twiddle: 0 });
}

#[test]
fn last_stage_pairs_halves_with_all_twiddles() {
    let block = Block { start: 0, len: 8 };
    for idx in 0..4 {
        let b = butterfly(block, 8, idx);
        assert_eq!(b, Butterfly { top: idx, bottom: idx + 4, twiddle: idx });
    }
}

#[test]
fn middle_stage_groups_and_twiddles() {
    let block = Block { start: 0, len: 16 };
    assert_eq!(butterfly(block, 4, 0), Butterfly { top: 0, bottom: 2, twiddle: 0 });
    assert_eq!(butterfly(block, 4, 1), Butterfly { top: 1, bottom: 3, twiddle: 4 });
    assert_eq!(butterfly(block, 4, 2), Butterfly { top: 4, bottom: 6, twiddle: 0 });
    assert_eq!(butterfly(block, 4, 7), Butterfly { top: 13, bottom: 15, twiddle: 4 });
}

#[test]
fn each_stage_touches_every_position_once() {
    let block = Block { start: 3, len: 32 };
    let mut span = 2;
    while span <= 32 {
        let mut seen = vec![0u32; 32];
        for idx in 0..16 {
            let b = butterfly(block, span, idx);
            seen[b.top - 3] += 1;
            seen[b.bottom - 3] += 1;
        }
        assert!(seen.iter().all(|&c| c == 1));
        span *= 2;
    }
}

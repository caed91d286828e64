use stwo_cuda::fields::{SecureField, M31, QM31};
use stwo_cuda::simd_domain::{
    offset_bit_reversed_circle_domain_index, LaneFraction, SimdDomainEvaluator, INTERACTION_TRACE_IDX,
    N_VERY_PACKED_LANES,
};

fn bit_reverse_index(i: usize, log: u32) -> usize {
    if log == 0 {
        i
    } else {
        i.reverse_bits() >> (usize::BITS - log)
    }
}

/// The offset lookup written with signed Euclidean remainders.
fn reference_offset(i: usize, domain_log_size: u32, eval_log_size: u32, offset: isize) -> usize {
    let mut prev = bit_reverse_index(i, eval_log_size);
    let half = 1usize << (eval_log_size - 1);
    let step = offset * (1isize << (eval_log_size - domain_log_size - 1));
    if prev < half {
        prev = (prev as isize + step).rem_euclid(half as isize) as usize;
    } else {
        prev = ((prev as isize - step).rem_euclid(half as isize) as usize) + half;
    }
    bit_reverse_index(prev, eval_log_size)
}

#[test]
fn offset_index_matches_signed_reference() {
    for eval_log_size in 1..=7u32 {
        for domain_log_size in 0..eval_log_size {
            for i in 0..(1usize << eval_log_size) {
                for offset in -9isize..=9 {
                    assert_eq!(
                        offset_bit_reversed_circle_domain_index(i, domain_log_size, eval_log_size, offset),
                        reference_offset(i, domain_log_size, eval_log_size, offset)
                    );
                }
                assert_eq!(offset_bit_reversed_circle_domain_index(i, domain_log_size, eval_log_size, 0), i);
            }
        }
    }
    // A large offset wraps around.
    assert_eq!(
        offset_bit_reversed_circle_domain_index(5, 3, 5, isize::MIN + 1),
        reference_offset(5, 3, 5, isize::MIN + 1)
    );
}

fn base(v: u32) -> M31 {
    M31::from(v)
}

fn secure(v: u32) -> SecureField {
    QM31::from(base(v))
}

/// Three trace trees of columns of 64 values; column `c` of tree `t` holds
/// `1000 t + 100 c + j` at row `j`.
fn trace() -> Vec<Vec<Vec<M31>>> {
    (0..3u32)
        .map(|t| (0..8u32).map(|c| (0..64u32).map(|j| base(1000 * t + 100 * c + j)).collect()).collect())
        .collect()
}

fn evaluator(coeffs: Vec<SecureField>, claimed_sum: SecureField) -> SimdDomainEvaluator {
    SimdDomainEvaluator::new(trace(), 1, coeffs, 5, 6, 5, claimed_sum)
}

#[test]
fn new_evaluator_starts_empty() {
    let claimed = SecureField::from_u32_unchecked(64, 7, 0, 3);
    let e = evaluator(vec![secure(1)], claimed);
    assert_eq!(e.column_index_per_interaction, vec![0, 0, 0]);
    assert_eq!(e.constraint_index, 0);
    assert_eq!(e.row_res, vec![secure(0); N_VERY_PACKED_LANES]);
    assert_eq!(e.logup.interaction, INTERACTION_TRACE_IDX);
    assert!(e.logup.is_finalized);
    assert!(e.logup.fracs.is_empty());
    // The shift is the claimed sum divided by 2^5.
    assert_eq!(e.logup.cumsum_shift.times(secure(32)), claimed);
}

#[test]
fn interaction_mask_reads_offset_rows() {
    let mut e = evaluator(vec![secure(1)], secure(0));
    let masks = e.next_interaction_mask(1, &vec![0, 1, -1]);
    assert_eq!(e.column_index_per_interaction, vec![0, 1, 0]);
    for (k, offset) in [0isize, 1, -1].iter().enumerate() {
        for i in 0..N_VERY_PACKED_LANES {
            let row = reference_offset(32 + i, 5, 6, *offset);
            assert_eq!(masks[k][i], base(1000 + row as u32));
        }
    }
    // Offset 0 reads the row itself.
    assert_eq!(masks[0][0], base(1032));
    let next = e.next_interaction_mask(1, &vec![0]);
    assert_eq!(next[0][0], base(1132));
    assert_eq!(e.column_index_per_interaction, vec![0, 2, 0]);
}

#[test]
fn constraints_accumulate_with_coefficient_powers() {
    let mut e = evaluator(vec![secure(3), secure(5)], secure(0));
    e.add_constraint(&vec![secure(2); N_VERY_PACKED_LANES]);
    e.add_constraint(&vec![secure(7); N_VERY_PACKED_LANES]);
    assert_eq!(e.constraint_index, 2);
    assert_eq!(e.row_res, vec![secure(3 * 2 + 5 * 7); N_VERY_PACKED_LANES]);
}

#[test]
fn combine_ef_builds_secure_values_lane_by_lane() {
    let values: Vec<Vec<M31>> = (0..4u32).map(|k| (0..32u32).map(|l| base(10 * k + l)).collect()).collect();
    let r = SimdDomainEvaluator::combine_ef(&values);
    assert_eq!(r[3], SecureField::from_u32_unchecked(3, 13, 23, 33));
}

/// The secure value read from the four columns of the interaction tree at
/// row `32 + lane` moved by `offset`.
fn ext_value(lane: usize, first_col: u32, offset: isize) -> SecureField {
    let row = reference_offset(32 + lane, 5, 6, offset) as u32;
    SecureField::from_u32_unchecked(
        2000 + 100 * first_col + row,
        2000 + 100 * (first_col + 1) + row,
        2000 + 100 * (first_col + 2) + row,
        2000 + 100 * (first_col + 3) + row,
    )
}

#[test]
fn finalize_logup_single_fraction() {
    let claimed = SecureField::from_u32_unchecked(96, 0, 0, 0);
    let mut e = evaluator(vec![secure(7)], claimed);
    let num = vec![secure(4); N_VERY_PACKED_LANES];
    let den = vec![secure(9); N_VERY_PACKED_LANES];
    e.write_logup_frac(LaneFraction { numerator: num, denominator: den });
    assert!(!e.logup.is_finalized);
    e.finalize_logup();
    assert!(e.logup.is_finalized);
    assert_eq!(e.constraint_index, 1);
    assert_eq!(e.column_index_per_interaction, vec![0, 0, 4]);
    let shift = secure(3);
    for lane in 0..N_VERY_PACKED_LANES {
        let diff = ext_value(lane, 0, 0).minus(ext_value(lane, 0, -1));
        let value = diff.plus(shift).times(secure(9)).minus(secure(4));
        assert_eq!(e.row_res[lane], secure(7).times(value));
    }
}

#[test]
fn finalize_logup_batched_sums_each_batch() {
    let mut e = evaluator(vec![secure(1), secure(2)], secure(0));
    // Fractions 1/2, 3/5 in batch 1 and 7/11 in batch 0.
    for (n, d) in [(1u32, 2u32), (7, 11), (3, 5)] {
        e.write_logup_frac(LaneFraction {
            numerator: vec![secure(n); N_VERY_PACKED_LANES],
            denominator: vec![secure(d); N_VERY_PACKED_LANES],
        });
    }
    e.finalize_logup_batched(&vec![1, 0, 1]);
    assert_eq!(e.constraint_index, 2);
    assert_eq!(e.column_index_per_interaction, vec![0, 0, 8]);
    for lane in 0..N_VERY_PACKED_LANES {
        // Batch 0: its own cumulative-sum column.
        let s0 = ext_value(lane, 0, 0);
        let c0 = s0.times(secure(11)).minus(secure(7));
        // Batch 1: 1/2 + 3/5 = (1*5 + 3*2) / (2*5) = 11/10.
        let diff = ext_value(lane, 4, 0).minus(ext_value(lane, 4, -1)).minus(s0);
        let c1 = diff.times(secure(10)).minus(secure(11));
        assert_eq!(e.row_res[lane], secure(1).times(c0).plus(secure(2).times(c1)));
    }
}

#[test]
fn finalize_logup_in_pairs_batches_neighbours() {
    let mut e = evaluator(vec![secure(1), secure(1)], secure(0));
    for (n, d) in [(1u32, 3u32), (2, 3), (5, 1)] {
        e.write_logup_frac(LaneFraction {
            numerator: vec![secure(n); N_VERY_PACKED_LANES],
            denominator: vec![secure(d); N_VERY_PACKED_LANES],
        });
    }
    e.finalize_logup_in_pairs();
    assert_eq!(e.constraint_index, 2);
    assert_eq!(e.column_index_per_interaction, vec![0, 0, 8]);
    for lane in 0..N_VERY_PACKED_LANES {
        // Batch 0: 1/3 + 2/3 = 9/9.
        let s0 = ext_value(lane, 0, 0);
        let c0 = s0.times(secure(9)).minus(secure(9));
        let diff = ext_value(lane, 4, 0).minus(ext_value(lane, 4, -1)).minus(s0);
        let c1 = diff.times(secure(1)).minus(secure(5));
        assert_eq!(e.row_res[lane], c0.plus(c1));
    }
}

#[test]
fn new_evaluator_with_largest_trace_keeps_claimed_sum_as_shift() {
    // 2^31 is 1 modulo P, so the shift is the claimed sum itself.
    let claimed = SecureField::from_u32_unchecked(5, 6, 7, 8);
    let e = SimdDomainEvaluator::new(trace(), 1, vec![secure(1)], 5, 6, 31, claimed);
    assert_eq!(e.logup.cumsum_shift, claimed);
}

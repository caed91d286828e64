use stwo_cuda::assert_eval::{trace_offset_row, AssertEvaluator};
use stwo_cuda::fields::{SecureField, M31, QM31};
use stwo_cuda::simd_domain::INTERACTION_TRACE_IDX;

fn bit_reverse_index(i: usize, log: u32) -> usize {
    if log == 0 {
        i
    } else {
        i.reverse_bits() >> (usize::BITS - log)
    }
}

fn circle_domain_index_to_coset_index(circle_index: usize, log_domain_size: u32) -> usize {
    let n = 1 << log_domain_size;
    if circle_index < n / 2 {
        circle_index * 2
    } else {
        (n - 1 - circle_index) * 2 + 1
    }
}

fn coset_index_to_circle_domain_index(coset_index: usize, log_domain_size: u32) -> usize {
    if coset_index % 2 == 0 {
        coset_index / 2
    } else {
        ((2 << log_domain_size) - coset_index) / 2
    }
}

/// The offset lookup written with signed Euclidean remainders.
fn reference(row: usize, log_size: u32, off: isize) -> usize {
    let domain_size = 1isize << log_size;
    let coset_index = circle_domain_index_to_coset_index(bit_reverse_index(row, log_size), log_size);
    let next_coset_index = (coset_index as isize + off).rem_euclid(domain_size);
    bit_reverse_index(coset_index_to_circle_domain_index(next_coset_index as usize, log_size), log_size)
}

#[test]
fn trace_offset_row_matches_signed_reference() {
    for log_size in 0..=7u32 {
        for row in 0..(1usize << log_size) {
            for off in -20isize..=20 {
                assert_eq!(trace_offset_row(row, log_size, off), reference(row, log_size, off));
            }
            // Stepping forward and back returns to the row.
            let next = trace_offset_row(row, log_size, 1);
            assert_eq!(trace_offset_row(next, log_size, -1), row);
        }
    }
}

fn trace() -> Vec<Vec<Vec<M31>>> {
    (0..3u32).map(|t| (0..2u32).map(|c| (0..16u32).map(|j| M31::from(100 * t + 10 * c + j)).collect()).collect()).collect()
}

#[test]
fn assert_evaluator_reads_masks_and_counts_constraints() {
    let claimed = SecureField::from_u32_unchecked(32, 0, 16, 0);
    let mut e = AssertEvaluator::new(trace(), 5, 4, claimed);
    assert_eq!(e.col_index, vec![0, 0, 0]);
    assert_eq!(e.logup.interaction, INTERACTION_TRACE_IDX);
    assert_eq!(e.logup.cumsum_shift, SecureField::from_u32_unchecked(2, 0, 1, 0));
    let m = e.next_interaction_mask(1, &vec![0, -1, 1]);
    assert_eq!(m, vec![M31::from(105u32), M31::from(100 + reference(5, 4, -1) as u32), M31::from(100 + reference(5, 4, 1) as u32)]);
    let m2 = e.next_interaction_mask(1, &vec![0]);
    assert_eq!(m2, vec![M31::from(115u32)]);
    assert_eq!(e.col_index, vec![0, 2, 0]);
    e.add_constraint(QM31::from(M31::from(0u32)));
    e.add_constraint(QM31::from(M31::from(0u32)));
    assert_eq!(e.constraint_counter, 2);
    let v = AssertEvaluator::combine_ef([M31::from(1u32), M31::from(2u32), M31::from(3u32), M31::from(4u32)]);
    assert_eq!(v, SecureField::from_u32_unchecked(1, 2, 3, 4));
}

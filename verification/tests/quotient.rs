use stwo_cuda::bindings::{CirclePoint, CirclePointSecureField, CudaSecureField};
use stwo_cuda::fields::{SecureField, P};
use stwo_cuda::quotient::{numerator_batch_inputs, quotient_combine_inputs};

#[test]
fn numerator_batch_inputs_split_coefficients() {
    let s = |a, b, c, d| SecureField::from_u32_unchecked(a, b, c, d);
    let coeffs = vec![
        (s(1, 2, 3, 4), s(5, 6, 7, 8), s(9, 10, 11, 12)),
        (s(P - 1, 0, 1, 0), s(13, 14, 15, 16), s(17, 18, 19, 20)),
    ];
    let r = numerator_batch_inputs(&coeffs, &vec![3, 0, (1usize << 32) + 7]);
    assert_eq!(r.line_coeffs_b, vec![CudaSecureField::from(s(5, 6, 7, 8)), CudaSecureField::from(s(13, 14, 15, 16))]);
    assert_eq!(r.line_coeffs_c, vec![CudaSecureField::from(s(9, 10, 11, 12)), CudaSecureField::from(s(17, 18, 19, 20))]);
    // Indices are narrowed to 32 bits.
    assert_eq!(r.column_indices, vec![3, 0, 7]);
    assert_eq!(r.first_linear_term_acc, s(0, 2, 4, 4));
}

#[test]
fn numerator_batch_inputs_of_no_lines() {
    let r = numerator_batch_inputs(&vec![], &vec![]);
    assert!(r.line_coeffs_b.is_empty() && r.line_coeffs_c.is_empty() && r.column_indices.is_empty());
    assert_eq!(r.first_linear_term_acc, SecureField::from_u32_unchecked(0, 0, 0, 0));
}

#[test]
fn quotient_combine_inputs_take_largest_log_size() {
    let s = |a| SecureField::from_u32_unchecked(a, 0, 0, a + 1);
    let point = CirclePoint { x: s(3), y: s(4) };
    let r = quotient_combine_inputs(&vec![8, 32, 16], &vec![s(1), s(2), s(5)], &vec![point, point, point]);
    assert_eq!(r.max_log_size, 5);
    assert_eq!(r.max_size, 32);
    assert_eq!(r.acc_log_sizes, vec![3, 5, 4]);
    assert_eq!(r.first_linear_term_accs[2], CudaSecureField::from(s(5)));
    assert_eq!(r.sample_points[0], CirclePointSecureField::from(point));
}

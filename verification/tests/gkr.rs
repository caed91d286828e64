use stwo_cuda::column::CudaBackend;
use stwo_cuda::fields::{BaseField, SecureField, M31, P, QM31};

fn one() -> SecureField {
    QM31::from(M31::from(1u32))
}

/// `v * eq(x, y)` at every `x` of the hypercube, each as the product of `v`
/// with `y_i` or `1 - y_i` for the variables in order, the first variable
/// being the most significant bit of `x`.
fn eq_evals_by_product(y: &[SecureField], v: SecureField) -> Vec<SecureField> {
    let n = y.len();
    (0..1usize << n)
        .map(|x| {
            let mut acc = v;
            for (i, y_i) in y.iter().enumerate() {
                let bit = (x >> (n - 1 - i)) & 1;
                let factor = if bit == 1 { *y_i } else { one().minus(*y_i) };
                acc = acc.times(factor);
            }
            acc
        })
        .collect()
}

#[test]
fn gen_eq_evals_matches_cpu() {
    let two: SecureField = BaseField::from(2u32).into();

    let from_raw = [7, 3, 5, 6, 1, 1, 9].repeat(4);
    let y = from_raw
        .chunks(4)
        .map(|a| SecureField::from_u32_unchecked(a[0], a[1], a[2], a[3]))
        .collect::<Vec<_>>();

    let cpu_eq_evals = eq_evals_by_product(&y, two);
    let gpu_eq_evals = CudaBackend::gen_eq_evals(&y, two);

    assert_eq!(gpu_eq_evals.to_cpu(), cpu_eq_evals);
}

#[test]
fn eq_evals_of_no_variables_is_the_value() {
    let v = SecureField::from_u32_unchecked(1, 2, 3, 4);
    assert_eq!(CudaBackend::gen_eq_evals(&[], v).to_cpu(), vec![v]);
}

#[test]
fn eq_evals_of_one_variable() {
    let v: SecureField = BaseField::from(2u32).into();
    let y: SecureField = BaseField::from(3u32).into();
    let evals = CudaBackend::gen_eq_evals(&[y], v).to_cpu();
    // 2 * (1 - 3) = -4 and 2 * 3 = 6.
    assert_eq!(evals, vec![BaseField::from(P - 4).into(), BaseField::from(6u32).into()]);
}

#[test]
fn eq_evals_order_first_variable_most_significant() {
    let v = one();
    let y0: SecureField = BaseField::from(5u32).into();
    let y1: SecureField = BaseField::from(0u32).into();
    let evals = CudaBackend::gen_eq_evals(&[y0, y1], v).to_cpu();
    // With y1 = 0 only entries whose low bit is clear are non-zero.
    let zero: SecureField = BaseField::from(0u32).into();
    assert_eq!(evals[1], zero);
    assert_eq!(evals[3], zero);
    assert_eq!(evals[0], one().minus(y0));
    assert_eq!(evals[2], y0);
}

#[test]
fn field_products_follow_the_extension_rules() {
    // i^2 = -1 in the complex extension.
    let i = SecureField::from_u32_unchecked(0, 1, 0, 0);
    assert_eq!(i.times(i), SecureField::from_u32_unchecked(P - 1, 0, 0, 0));
    // u^2 = 2 + i in the degree-4 extension.
    let u = SecureField::from_u32_unchecked(0, 0, 1, 0);
    assert_eq!(u.times(u), SecureField::from_u32_unchecked(2, 1, 0, 0));
    // Sums and differences wrap around P.
    let a = SecureField::from_u32_unchecked(P - 1, 0, 5, 1);
    let b = SecureField::from_u32_unchecked(2, 1, 7, 0);
    assert_eq!(a.plus(b), SecureField::from_u32_unchecked(1, 1, 12, 1));
    assert_eq!(a.minus(b), SecureField::from_u32_unchecked(P - 3, P - 1, P - 2, 1));
}

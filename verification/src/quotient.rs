use vstd::prelude::*;
use crate::bindings::{CudaSecureField, CirclePoint, CirclePointSecureField};
use crate::utils::{ilog2, ilog2_usize, pow2, lemma_pow2_mono, lemma_ilog2_mono};
use crate::fields::{SecureField, CM31, M31, QM31};

verus! {

/// The device form of a secure field element.
pub open spec fn cuda_form(x: SecureField) -> CudaSecureField {
    CudaSecureField { a: x.0.0, b: x.0.1, c: x.1.0, d: x.1.1 }
}

/// The sum of `xs`, added from zero on.
pub open spec fn sum_from_zero(xs: Seq<SecureField>) -> SecureField
    decreases xs.len(),
{
    if xs.len() == 0 {
        QM31(CM31(M31(0), M31(0)), CM31(M31(0), M31(0)))
    } else {
        sum_from_zero(xs.drop_last()).plus_spec(xs.last())
    }
}

/// The host-side inputs of the numerator kernel for one sample batch.
pub struct NumeratorBatchInputs {
    /// The second coefficient of each line, in device form.
    pub line_coeffs_b: Vec<CudaSecureField>,
    /// The third coefficient of each line, in device form.
    pub line_coeffs_c: Vec<CudaSecureField>,
    /// The column of each sample, as the kernel's 32-bit index.
    pub column_indices: Vec<u32>,
    /// The sum of the first coefficients of the lines.
    pub first_linear_term_acc: SecureField,
}

/// Splits the line coefficients `(a, b, c)` of a sample batch into the
/// kernel's `b` and `c` lists, narrows the batch's column indices to 32 bits,
/// and sums the `a` coefficients.
pub fn numerator_batch_inputs(
    coeffs: &Vec<(SecureField, SecureField, SecureField)>,
    column_indices: &Vec<usize>,
) -> (r: NumeratorBatchInputs)
    requires
        forall|k: int| 0 <= k < coeffs@.len() ==> (#[trigger] coeffs@[k]).0.is_reduced(),
    ensures
        r.line_coeffs_b@ == coeffs@.map_values(|t: (SecureField, SecureField, SecureField)| cuda_form(t.1)),
        r.line_coeffs_c@ == coeffs@.map_values(|t: (SecureField, SecureField, SecureField)| cuda_form(t.2)),
        r.column_indices@ == column_indices@.map_values(|i: usize| i as u32),
        r.first_linear_term_acc == sum_from_zero(coeffs@.map_values(|t: (SecureField, SecureField, SecureField)| t.0)),
{
    let ghost firsts = coeffs@.map_values(|t: (SecureField, SecureField, SecureField)| t.0);
    let mut bs: Vec<CudaSecureField> = Vec::new();
    let mut cs: Vec<CudaSecureField> = Vec::new();
    let mut acc = QM31(CM31(M31(0), M31(0)), CM31(M31(0), M31(0)));
    let mut k: usize = 0;
    while k < coeffs.len()
        invariant
            k <= coeffs@.len(),
            forall|j: int| 0 <= j < coeffs@.len() ==> (#[trigger] coeffs@[j]).0.is_reduced(),
            firsts == coeffs@.map_values(|t: (SecureField, SecureField, SecureField)| t.0),
            bs@ == coeffs@.take(k as int).map_values(|t: (SecureField, SecureField, SecureField)| cuda_form(t.1)),
            cs@ == coeffs@.take(k as int).map_values(|t: (SecureField, SecureField, SecureField)| cuda_form(t.2)),
            acc == sum_from_zero(firsts.take(k as int)),
            acc.is_reduced(),
        decreases coeffs@.len() - k,
    {
        let (a, b, c) = coeffs[k];
        bs.push(CudaSecureField::from(b));
        cs.push(CudaSecureField::from(c));
        assert(coeffs@[k as int].0.is_reduced());
        acc = acc.plus(a);
        proof {
            assert(bs@ =~= coeffs@.take(k + 1).map_values(|t: (SecureField, SecureField, SecureField)| cuda_form(t.1)));
            assert(cs@ =~= coeffs@.take(k + 1).map_values(|t: (SecureField, SecureField, SecureField)| cuda_form(t.2)));
            assert(firsts.take(k + 1).drop_last() =~= firsts.take(k as int));
        }
        k = k + 1;
    }
    assert(coeffs@.take(k as int) =~= coeffs@);
    assert(firsts.take(k as int) =~= firsts);
    let mut idx: Vec<u32> = Vec::new();
    let mut j: usize = 0;
    while j < column_indices.len()
        invariant
            j <= column_indices@.len(),
            idx@ == column_indices@.take(j as int).map_values(|i: usize| i as u32),
        decreases column_indices@.len() - j,
    {
        idx.push(column_indices[j] as u32);
        assert(idx@ =~= column_indices@.take(j + 1).map_values(|i: usize| i as u32));
        j = j + 1;
    }
    assert(column_indices@.take(j as int) =~= column_indices@);
    NumeratorBatchInputs { line_coeffs_b: bs, line_coeffs_c: cs, column_indices: idx, first_linear_term_acc: acc }
}

/// The largest length in `lens` (0 for none).
pub open spec fn max_length(lens: Seq<usize>) -> nat
    decreases lens.len(),
{
    if lens.len() == 0 {
        0
    } else {
        let m = max_length(lens.drop_last());
        if lens.last() > m {
            lens.last() as nat
        } else {
            m
        }
    }
}

proof fn lemma_max_length(lens: Seq<usize>)
    ensures
        forall|i: int| 0 <= i < lens.len() ==> #[trigger] lens[i] <= max_length(lens),
        lens.len() > 0 ==> exists|i: int| 0 <= i < lens.len() && lens[i] == max_length(lens),
    decreases lens.len(),
{
    if lens.len() > 0 {
        let p = lens.drop_last();
        lemma_max_length(p);
        assert forall|i: int| 0 <= i < lens.len() implies #[trigger] lens[i] <= max_length(lens) by {
            if i < p.len() {
                assert(lens[i] == p[i]);
            }
        }
        if max_length(lens) != lens.last() {
            let k = choose|k: int| 0 <= k < p.len() && p[k] == max_length(p);
            assert(lens[k] == p[k]);
        }
    }
}

/// The host-side inputs of the kernel that combines the quotients.
pub struct QuotientCombineInputs {
    /// The base-2 logarithm of the longest accumulated column.
    pub max_log_size: u32,
    /// `2^max_log_size`.
    pub max_size: u32,
    /// The base-2 logarithm of each accumulated column's length.
    pub acc_log_sizes: Vec<i32>,
    /// Each accumulation's first linear term, in device form.
    pub first_linear_term_accs: Vec<CudaSecureField>,
    /// Each accumulation's sample point, in device form.
    pub sample_points: Vec<CirclePointSecureField>,
}

/// The device form of a secure field circle point.
pub open spec fn point_cuda_form(p: CirclePoint<SecureField>) -> CirclePointSecureField {
    CirclePointSecureField { x: cuda_form(p.x), y: cuda_form(p.y) }
}

/// Prepares the kernel inputs from the accumulations' column lengths, first
/// linear terms and sample points: the largest log size and its domain size,
/// each accumulation's log size, and the terms and points in device form.
pub fn quotient_combine_inputs(
    acc_lens: &Vec<usize>,
    first_linear_terms: &Vec<SecureField>,
    sample_points: &Vec<CirclePoint<SecureField>>,
) -> (r: QuotientCombineInputs)
    requires
        acc_lens@.len() > 0,
        forall|i: int| 0 <= i < acc_lens@.len() ==> #[trigger] acc_lens@[i] >= 1,
        ilog2(max_length(acc_lens@)) < 32,
        first_linear_terms@.len() == acc_lens@.len(),
        sample_points@.len() == acc_lens@.len(),
    ensures
        r.max_log_size == ilog2(max_length(acc_lens@)),
        r.max_size == pow2(r.max_log_size as nat),
        r.acc_log_sizes@ == acc_lens@.map_values(|n: usize| ilog2(n as nat) as i32),
        r.first_linear_term_accs@ == first_linear_terms@.map_values(|x: SecureField| cuda_form(x)),
        r.sample_points@ == sample_points@.map_values(|p: CirclePoint<SecureField>| point_cuda_form(p)),
{
    let mut longest: usize = 0;
    let mut i: usize = 0;
    while i < acc_lens.len()
        invariant
            i <= acc_lens@.len(),
            longest == max_length(acc_lens@.take(i as int)),
        decreases acc_lens@.len() - i,
    {
        assert(acc_lens@.take(i + 1).drop_last() =~= acc_lens@.take(i as int));
        if acc_lens[i] > longest {
            longest = acc_lens[i];
        }
        i = i + 1;
    }
    assert(acc_lens@.take(i as int) =~= acc_lens@);
    proof {
        lemma_max_length(acc_lens@);
    }
    assert(acc_lens@[0] <= longest);
    let max_log_size = ilog2_usize(longest);
    proof {
        crate::utils::lemma_pow2_64();
        lemma_pow2_mono(max_log_size as nat, 32);
        lemma_pow2_mono(32, 64);
        assert(pow2(32) == 0x1_0000_0000) by {
            crate::utils::lemma_pow2_adds(32, 32);
            assert(pow2(32) * pow2(32) == 0x1_0000_0000_0000_0000);
            assert(pow2(32) == 0x1_0000_0000) by (nonlinear_arith)
                requires
                    pow2(32) * pow2(32) == 0x1_0000_0000_0000_0000,
                    pow2(32) >= 0,
            ;
        }
        if max_log_size < 31 {
            lemma_pow2_mono(max_log_size as nat, 31);
        }
    }
    let mut size: u32 = 1;
    let mut k: u32 = 0;
    while k < max_log_size
        invariant
            k <= max_log_size < 32,
            size == pow2(k as nat),
            pow2(max_log_size as nat) < 0x1_0000_0000,
        decreases max_log_size - k,
    {
        proof {
            lemma_pow2_mono((k + 1) as nat, max_log_size as nat);
        }
        size = size * 2;
        k = k + 1;
    }
    let mut log_sizes: Vec<i32> = Vec::new();
    let mut firsts: Vec<CudaSecureField> = Vec::new();
    let mut points: Vec<CirclePointSecureField> = Vec::new();
    let mut j: usize = 0;
    while j < acc_lens.len()
        invariant
            j <= acc_lens@.len(),
            first_linear_terms@.len() == acc_lens@.len(),
            sample_points@.len() == acc_lens@.len(),
            forall|t: int| 0 <= t < acc_lens@.len() ==> #[trigger] acc_lens@[t] >= 1,
            log_sizes@ == acc_lens@.take(j as int).map_values(|n: usize| ilog2(n as nat) as i32),
            firsts@ == first_linear_terms@.take(j as int).map_values(|x: SecureField| cuda_form(x)),
            points@ == sample_points@.take(j as int).map_values(|p: CirclePoint<SecureField>| point_cuda_form(p)),
        decreases acc_lens@.len() - j,
    {
        let lg = ilog2_usize(acc_lens[j]);
        log_sizes.push(lg as i32);
        firsts.push(CudaSecureField::from(first_linear_terms[j]));
        points.push(CirclePointSecureField::from(sample_points[j]));
        assert(log_sizes@ =~= acc_lens@.take(j + 1).map_values(|n: usize| ilog2(n as nat) as i32));
        assert(firsts@ =~= first_linear_terms@.take(j + 1).map_values(|x: SecureField| cuda_form(x)));
        assert(points@ =~= sample_points@.take(j + 1).map_values(|p: CirclePoint<SecureField>| point_cuda_form(p)));
        j = j + 1;
    }
    assert(acc_lens@.take(j as int) =~= acc_lens@);
    assert(first_linear_terms@.take(j as int) =~= first_linear_terms@);
    assert(sample_points@.take(j as int) =~= sample_points@);
    QuotientCombineInputs {
        max_log_size,
        max_size: size,
        acc_log_sizes: log_sizes,
        first_linear_term_accs: firsts,
        sample_points: points,
    }
}

/// The largest log size prepared for the combining kernel is that of the
/// longest accumulated column: no accumulation has a larger log size, and
/// some accumulation has exactly that log size.
pub proof fn lemma_largest_log_size(acc_lens: Seq<usize>)
    requires
        acc_lens.len() > 0,
        forall|i: int| 0 <= i < acc_lens.len() ==> #[trigger] acc_lens[i] >= 1,
    ensures
        forall|i: int| 0 <= i < acc_lens.len() ==> ilog2(#[trigger] acc_lens[i] as nat) <= ilog2(max_length(acc_lens)),
        exists|i: int| 0 <= i < acc_lens.len() && acc_lens[i] == max_length(acc_lens),
{
    lemma_max_length(acc_lens);
    assert forall|i: int| 0 <= i < acc_lens.len() implies ilog2(#[trigger] acc_lens[i] as nat) <= ilog2(max_length(acc_lens)) by {
        lemma_ilog2_mono(acc_lens[i] as nat, max_length(acc_lens));
    }
}

} // verus!

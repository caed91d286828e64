use vstd::prelude::*;
use crate::fields::{M31, CM31, QM31, SecureField, P};
use crate::simd_domain::{inv_pow2, scale_base, lemma_inv_pow2, lemma_wrap, lemma_pow2_31, INTERACTION_TRACE_IDX};
use crate::utils::{pow2, rev_bits, bit_reverse_index, pow2_usize, lemma_pow2_mono, lemma_pow2_pos};

verus! {

/// The position in the coset order of the point at index `i` of a circle
/// domain of size `2^log`: the first half goes to the even positions, the
/// second half, backwards, to the odd ones.
pub open spec fn circle_to_coset(i: nat, log: nat) -> nat {
    let n = pow2(log);
    if i < n / 2 {
        2 * i
    } else {
        ((n - 1 - i) * 2 + 1) as nat
    }
}

/// The index in a circle domain of size `2^log` of the point at position `c`
/// of the coset order.
pub open spec fn coset_to_circle(c: nat, log: nat) -> nat {
    if c % 2 == 0 {
        c / 2
    } else {
        ((2 * pow2(log) - c) / 2) as nat
    }
}

/// The bit-reversed trace index of the row `offset` steps from the row at
/// bit-reversed index `row` of a trace of `2^log` rows, wrapping around.
pub open spec fn trace_offset_index(row: nat, log: nat, offset: int) -> nat {
    let n = pow2(log);
    let c = circle_to_coset(rev_bits(row, log), log);
    let moved = (c + offset) % (n as int);
    rev_bits(coset_to_circle(moved as nat, log), log)
}

/// The index of the row `offset` steps from row `row` of a trace of `2^log`
/// rows in bit-reversed circle-domain order.
pub fn trace_offset_row(row: usize, log: u32, offset: isize) -> (r: usize)
    requires
        row < pow2(log as nat),
        pow2(log as nat) <= usize::MAX,
    ensures
        r == trace_offset_index(row as nat, log as nat, offset as int),
        r < pow2(log as nat),
{
    proof {
        lemma_pow2_pos(log as nat);
    }
    let n = pow2_usize(log);
    let b = bit_reverse_index(row, log);
    let c: usize = if b < n / 2 { 2 * b } else { (n - 1 - b) * 2 + 1 };
    let nn = n as u128;
    let c0 = (c as u128) % nn;
    let mag: u128 = if offset >= 0 {
        offset as u128
    } else {
        (0i128 - offset as i128) as u128
    };
    let m = mag % nn;
    let moved: u128 = if offset >= 0 {
        (c0 + m) % nn
    } else {
        (c0 + nn - m) % nn
    };
    proof {
        lemma_wrap(c0 as int, mag as int, nn as int, m as int);
        let s = offset as int;
        vstd::arithmetic::div_mod::lemma_add_mod_noop(c as int, s, nn as int);
        vstd::arithmetic::div_mod::lemma_add_mod_noop(c0 as int, s, nn as int);
        vstd::arithmetic::div_mod::lemma_mod_twice(c as int, nn as int);
        if offset < 0 {
            assert(c0 as int + offset as int == c0 as int - mag as int);
        }
        assert((c as int + s) % (nn as int) == moved);
    }
    let mv = moved as usize;
    let circle: usize = if mv % 2 == 0 {
        mv / 2
    } else {
        ((2 * nn - moved) / 2) as usize
    };
    bit_reverse_index(circle, log)
}

/// The logup state of an asserting evaluator.
pub struct AssertLogup {
    /// The trace tree holding the cumulative-sum columns.
    pub interaction: usize,
    /// The claimed sum divided by the trace size.
    pub cumsum_shift: SecureField,
    /// The fractions written so far, as numerator and denominator.
    pub fracs: Vec<(SecureField, SecureField)>,
    /// Whether the fractions were turned into constraints.
    pub is_finalized: bool,
    /// The base-2 logarithm of the trace size.
    pub log_size: u32,
}

/// Evaluates expressions at a row of the trace domain and asserts that each
/// constraint vanishes there.
pub struct AssertEvaluator {
    /// The trace columns, in bit-reversed order, by tree.
    pub trace: Vec<Vec<Vec<M31>>>,
    /// The next column to read of each tree.
    pub col_index: Vec<usize>,
    /// The row evaluated.
    pub row: usize,
    /// The number of constraints checked so far.
    pub constraint_counter: usize,
    /// The logup state.
    pub logup: AssertLogup,
}

impl AssertEvaluator {
    /// The trace columns' values.
    pub open spec fn trace_view(&self) -> Seq<Seq<Seq<M31>>> {
        self.trace@.map_values(|t: Vec<Vec<M31>>| t@.map_values(|c: Vec<M31>| c@))
    }

    /// An evaluator for row `row` with no column read and no constraint
    /// checked, whose logup state reads the interaction trace and shifts by
    /// `claimed_sum / 2^log_size`.
    pub fn new(trace: Vec<Vec<Vec<M31>>>, row: usize, log_size: u32, claimed_sum: SecureField) -> (r: Self)
        requires
            log_size <= 31,
            claimed_sum.is_reduced(),
        ensures
            r.trace@ == trace@,
            r.col_index@ == Seq::new(trace@.len(), |i: int| 0usize),
            r.row == row,
            r.constraint_counter == 0,
            r.logup.interaction == INTERACTION_TRACE_IDX,
            r.logup.cumsum_shift == scale_base(claimed_sum, inv_pow2(log_size as nat)),
            r.logup.fracs@.len() == 0,
            r.logup.is_finalized,
            r.logup.log_size == log_size,
    {
        let mut idx: Vec<usize> = Vec::new();
        let mut k: usize = 0;
        while k < trace.len()
            invariant
                k <= trace@.len(),
                idx@ == Seq::new(k as nat, |i: int| 0usize),
            decreases trace@.len() - k,
        {
            idx.push(0);
            k = k + 1;
            assert(idx@ =~= Seq::new(k as nat, |i: int| 0usize));
        }
        proof {
            lemma_inv_pow2(log_size as nat);
            lemma_pow2_31();
            lemma_pow2_mono((31 - log_size) as nat, 31);
        }
        let inv: M31 = if log_size == 0 {
            M31(1)
        } else {
            M31(pow2_usize(31 - log_size) as u32)
        };
        let s = claimed_sum;
        let cumsum_shift = QM31(
            CM31(s.0.0.times(inv), s.0.1.times(inv)),
            CM31(s.1.0.times(inv), s.1.1.times(inv)),
        );
        AssertEvaluator {
            trace,
            col_index: idx,
            row,
            constraint_counter: 0,
            logup: AssertLogup {
                interaction: INTERACTION_TRACE_IDX,
                cumsum_shift,
                fracs: Vec::new(),
                is_finalized: true,
                log_size,
            },
        }
    }

    /// Reads the next column of tree `interaction` at the row moved by each of
    /// `offsets`: the row itself for offset 0, else the row at
    /// `trace_offset_index(row, log_size, offset)`.
    pub fn next_interaction_mask(&mut self, interaction: usize, offsets: &Vec<isize>) -> (r: Vec<M31>)
        requires
            interaction < old(self).trace@.len(),
            interaction < old(self).col_index@.len(),
            old(self).col_index@[interaction as int] < old(self).trace@[interaction as int]@.len(),
            old(self).row < pow2(old(self).logup.log_size as nat),
            pow2(old(self).logup.log_size as nat) <= usize::MAX,
            old(self).trace@[interaction as int]@[old(self).col_index@[interaction as int] as int]@.len() == pow2(
                old(self).logup.log_size as nat,
            ),
        ensures
            final(self).trace@ == old(self).trace@,
            final(self).row == old(self).row,
            final(self).constraint_counter == old(self).constraint_counter,
            final(self).logup == old(self).logup,
            final(self).col_index@.len() == old(self).col_index@.len(),
            final(self).col_index@[interaction as int] == old(self).col_index@[interaction as int] + 1,
            forall|j: int| 0 <= j < old(self).col_index@.len() && j != interaction ==> final(self).col_index@[j] == old(self).col_index@[j],
            r@.len() == offsets@.len(),
            forall|k: int|
                0 <= k < offsets@.len() ==> #[trigger] r@[k] == (if offsets@[k] == 0 {
                    old(self).trace_view()[interaction as int][old(self).col_index@[interaction as int] as int][old(self).row as int]
                } else {
                    old(self).trace_view()[interaction as int][old(self).col_index@[interaction as int] as int][trace_offset_index(
                        old(self).row as nat,
                        old(self).logup.log_size as nat,
                        offsets@[k] as int,
                    ) as int]
                }),
    {
        let col_index = self.col_index[interaction];
        let n_cols = self.trace[interaction].len();
        assert(col_index < n_cols);
        let ghost col = self.trace@[interaction as int]@[col_index as int]@;
        assert(old(self).trace_view()[interaction as int][col_index as int] == col);
        let mut out: Vec<M31> = Vec::new();
        let mut k: usize = 0;
        while k < offsets.len()
            invariant
                *self == *old(self),
                interaction < self.trace@.len(),
                col_index < self.trace@[interaction as int]@.len(),
                col == self.trace@[interaction as int]@[col_index as int]@,
                col.len() == pow2(self.logup.log_size as nat),
                self.row < pow2(self.logup.log_size as nat),
                pow2(self.logup.log_size as nat) <= usize::MAX,
                k <= offsets@.len(),
                out@.len() == k,
                forall|j: int|
                    0 <= j < k ==> #[trigger] out@[j] == (if offsets@[j] == 0 {
                        col[self.row as int]
                    } else {
                        col[trace_offset_index(self.row as nat, self.logup.log_size as nat, offsets@[j] as int) as int]
                    }),
            decreases offsets@.len() - k,
        {
            let off = offsets[k];
            let v = if off == 0 {
                self.trace[interaction][col_index][self.row]
            } else {
                let idx = trace_offset_row(self.row, self.logup.log_size, off);
                self.trace[interaction][col_index][idx]
            };
            out.push(v);
            k = k + 1;
        }
        self.col_index.set(interaction, col_index + 1);
        out
    }

    /// Checks that `constraint` vanishes at the row and counts it.
    pub fn add_constraint(&mut self, constraint: SecureField)
        requires
            constraint == QM31(CM31(M31(0), M31(0)), CM31(M31(0), M31(0))),
            old(self).constraint_counter < usize::MAX,
        ensures
            final(self).trace@ == old(self).trace@,
            final(self).col_index@ == old(self).col_index@,
            final(self).row == old(self).row,
            final(self).logup == old(self).logup,
            final(self).constraint_counter == old(self).constraint_counter + 1,
    {
        self.constraint_counter = self.constraint_counter + 1;
    }

    /// The secure value whose coordinates are `values`, in order.
    pub fn combine_ef(values: [M31; 4]) -> (r: SecureField)
        ensures
            r == QM31(CM31(values@[0], values@[1]), CM31(values@[2], values@[3])),
    {
        QM31::from_m31_array(values)
    }
}

proof fn lemma_coset_roundtrips(x: nat, log: nat)
    requires
        log >= 1,
        x < pow2(log),
    ensures
        circle_to_coset(x, log) < pow2(log),
        coset_to_circle(circle_to_coset(x, log), log) == x,
        coset_to_circle(x, log) < pow2(log),
        circle_to_coset(coset_to_circle(x, log), log) == x,
{
    let h = pow2((log - 1) as nat);
    lemma_pow2_pos((log - 1) as nat);
    crate::utils::lemma_pow2_adds((log - 1) as nat, 1);
    reveal_with_fuel(pow2, 2);
    assert(pow2(log) == 2 * h);
}

/// Moving by no rows stays at the row, and moving `offset` rows and then
/// `-offset` rows comes back: offsets walk around the trace domain in its
/// coset order, wrapping around.
pub proof fn lemma_trace_offset_walk(row: nat, log: nat, offset: int)
    requires
        row < pow2(log),
    ensures
        trace_offset_index(row, log, 0) == row,
        trace_offset_index(row, log, offset) < pow2(log),
        trace_offset_index(trace_offset_index(row, log, offset), log, -offset) == row,
{
    let n = pow2(log);
    lemma_pow2_pos(log);
    if log == 0 {
        assert(n == 1);
        assert(row == 0);
        assert((1 + offset) % 1int == 0);
        assert((1 + (-offset)) % 1int == 0);
        assert((1 + 0int) % 1int == 0);
        assert(rev_bits(0, 0) == 0);
        assert(coset_to_circle(0, 0) == 0);
    } else {
        let b = rev_bits(row, log);
        crate::utils::lemma_rev_bits_bound(row, log);
        crate::utils::lemma_rev_bits_involution(row, log);
        lemma_coset_roundtrips(b, log);
        let c = circle_to_coset(b, log);
        vstd::arithmetic::div_mod::lemma_small_mod(c, n);
        assert((c + 0int) % (n as int) == c);
        let moved = (c + offset) % (n as int);
        assert(0 <= moved < n);
        lemma_coset_roundtrips(moved as nat, log);
        let x = coset_to_circle(moved as nat, log);
        crate::utils::lemma_rev_bits_bound(x, log);
        crate::utils::lemma_rev_bits_involution(x, log);
        let j = rev_bits(x, log);
        assert(rev_bits(j, log) == x);
        assert(circle_to_coset(x, log) == moved);
        vstd::arithmetic::div_mod::lemma_add_mod_noop(c as int, offset, n as int);
        vstd::arithmetic::div_mod::lemma_add_mod_noop(moved, -offset, n as int);
        vstd::arithmetic::div_mod::lemma_mod_twice(c + offset, n as int);
        vstd::arithmetic::div_mod::lemma_add_mod_noop(c + offset, -offset, n as int);
        assert((c + offset) + (-offset) == c);
        assert((moved + (-offset)) % (n as int) == c);
    }
}

} // verus!

use vstd::prelude::*;
use crate::column::{CudaBackend, SecureFieldVec};
use crate::fields::{SecureField, QM31, qm31_zero, qm31_one, lemma_qm31_ring};
use crate::utils::{pow2, lemma_pow2_pos, lemma_pow2_mono};

verus! {

/// Entry `x` of the evaluations of `eq(., y) * v` over the boolean hypercube,
/// the first variable being the most significant bit of `x`: starting from
/// `v`, each variable from the last to the first multiplies the running value
/// `a` by `y_i` where its bit of `x` is set, and turns it into `a - a y_i`
/// (that is, `a (1 - y_i)`) where the bit is clear.
pub open spec fn eq_eval(y: Seq<SecureField>, v: SecureField, x: nat) -> SecureField
    decreases y.len(),
{
    if y.len() == 0 {
        v
    } else {
        let half = pow2((y.len() - 1) as nat);
        let a = eq_eval(y.drop_first(), v, x % half);
        if x >= half {
            a.times_spec(y[0])
        } else {
            a.minus_spec(a.times_spec(y[0]))
        }
    }
}

/// Every element of `s` is reduced.
pub open spec fn all_reduced(s: Seq<SecureField>) -> bool {
    forall|i: int| 0 <= i < s.len() ==> (#[trigger] s[i]).is_reduced()
}

/// The values of `eq_eval` are reduced.
proof fn lemma_eq_eval_reduced(y: Seq<SecureField>, v: SecureField, x: nat)
    requires
        all_reduced(y),
        v.is_reduced(),
    ensures
        eq_eval(y, v, x).is_reduced(),
    decreases y.len(),
{
    if y.len() > 0 {
        let half = pow2((y.len() - 1) as nat);
        lemma_pow2_pos((y.len() - 1) as nat);
        lemma_eq_eval_reduced(y.drop_first(), v, x % half);
        assert(y[0].is_reduced());
    }
}

impl CudaBackend {
    /// The evaluations of `eq(x, y) * v` at every point `x` of the boolean
    /// hypercube of dimension `y.len()`, the first variable being the most
    /// significant bit of the index.
    pub fn gen_eq_evals(y: &[SecureField], v: SecureField) -> (r: SecureFieldVec)
        requires
            pow2(y@.len()) <= usize::MAX,
            all_reduced(y@),
            v.is_reduced(),
        ensures
            r@.len() == pow2(y@.len()),
            forall|x: int| 0 <= x < r@.len() ==> #[trigger] r@[x] == eq_eval(y@, v, x as nat),
    {
        let n = y.len();
        let mut evals: Vec<SecureField> = Vec::new();
        evals.push(v);
        let mut k: usize = n;
        proof {
            assert(y@.subrange(n as int, n as int) =~= Seq::<SecureField>::empty());
        }
        while k > 0
            invariant
                k <= n == y@.len(),
                pow2(n as nat) <= usize::MAX,
                all_reduced(y@),
                v.is_reduced(),
                evals@.len() == pow2((n - k) as nat),
                all_reduced(evals@),
                forall|x: int| 0 <= x < evals@.len() ==> #[trigger] evals@[x] == eq_eval(y@.subrange(k as int, n as int), v, x as nat),
            decreases k,
        {
            let t = y[k - 1];
            let ghost old_evals = evals@;
            let ghost suffix = y@.subrange(k as int, n as int);
            let len = evals.len();
            proof {
                lemma_pow2_mono((n - k + 1) as nat, n as nat);
                assert(t.is_reduced());
            }
            let mut j: usize = 0;
            while j < len
                invariant
                    j <= len,
                    len == old_evals.len(),
                    2 * len <= usize::MAX,
                    t.is_reduced(),
                    all_reduced(old_evals),
                    evals@.len() == len + j,
                    all_reduced(evals@),
                    forall|i: int| 0 <= i < j ==> #[trigger] evals@[i] == old_evals[i].minus_spec(old_evals[i].times_spec(t)),
                    forall|i: int| j <= i < len ==> #[trigger] evals@[i] == old_evals[i],
                    forall|i: int| 0 <= i < j ==> #[trigger] evals@[len + i] == old_evals[i].times_spec(t),
                decreases len - j,
            {
                let e = evals[j];
                let tmp = e.times(t);
                evals.push(tmp);
                let d = e.minus(tmp);
                evals.set(j, d);
                j = j + 1;
            }
            proof {
                let ns = y@.subrange(k - 1, n as int);
                assert(ns.drop_first() =~= suffix);
                assert(ns[0] == t);
                assert(ns.len() - 1 == n - k);
                assert forall|x: int| 0 <= x < evals@.len() implies #[trigger] evals@[x] == eq_eval(ns, v, x as nat) by {
                    lemma_pow2_pos((n - k) as nat);
                    if x < len {
                        vstd::arithmetic::div_mod::lemma_small_mod(x as nat, len as nat);
                        assert(evals@[x] == old_evals[x].minus_spec(old_evals[x].times_spec(t)));
                    } else {
                        vstd::arithmetic::div_mod::lemma_mod_add_multiples_vanish(x - len, len as int);
                        vstd::arithmetic::div_mod::lemma_small_mod((x - len) as nat, len as nat);
                        assert(evals@[len + (x - len)] == old_evals[x - len].times_spec(t));
                    }
                }
                assert(pow2((n - (k - 1)) as nat) == 2 * pow2((n - k) as nat));
            }
            k = k - 1;
        }
        proof {
            assert(y@.subrange(0, n as int) =~= y@);
        }
        SecureFieldVec::from_vec(evals)
    }
}

/// The two evaluations that differ only in the first variable add up to the
/// evaluation over the remaining variables, `eq` splitting `a` into
/// `a (1 - y_0)` and `a y_0`; when `y_0` is 0 all of `a` goes to the entry
/// whose first bit is clear, and when `y_0` is 1 all of it goes to the entry
/// whose first bit is set.
pub proof fn lemma_eq_evals_split_first_variable(y: Seq<SecureField>, v: SecureField, x: nat)
    requires
        y.len() > 0,
        all_reduced(y),
        v.is_reduced(),
        x < pow2((y.len() - 1) as nat),
    ensures
        eq_eval(y, v, x).plus_spec(eq_eval(y, v, x + pow2((y.len() - 1) as nat))) == eq_eval(y.drop_first(), v, x),
        y[0] == qm31_zero() ==> eq_eval(y, v, x + pow2((y.len() - 1) as nat)) == qm31_zero() && eq_eval(y, v, x)
            == eq_eval(y.drop_first(), v, x),
        y[0] == qm31_one() ==> eq_eval(y, v, x) == qm31_zero() && eq_eval(y, v, x + pow2((y.len() - 1) as nat))
            == eq_eval(y.drop_first(), v, x),
{
    let half = pow2((y.len() - 1) as nat);
    lemma_pow2_pos((y.len() - 1) as nat);
    vstd::arithmetic::div_mod::lemma_small_mod(x, half);
    vstd::arithmetic::div_mod::lemma_mod_add_multiples_vanish(x as int, half as int);
    assert((x + half) % half == x);
    let t = y.drop_first();
    assert(all_reduced(t)) by {
        assert forall|i: int| 0 <= i < t.len() implies (#[trigger] t[i]).is_reduced() by {
            assert(t[i] == y[i + 1]);
        }
    }
    lemma_eq_eval_reduced(t, v, x);
    let a = eq_eval(t, v, x);
    assert(y[0].is_reduced());
    let m = a.times_spec(y[0]);
    lemma_qm31_ring(a, m);
    lemma_qm31_ring(a, a);
    assert(eq_eval(y, v, x) == a.minus_spec(m));
    assert(eq_eval(y, v, x + half) == m);
}

} // verus!

use vstd::prelude::*;

verus! {

/// `2^n`.
pub open spec fn pow2(n: nat) -> nat
    decreases n,
{
    if n == 0 {
        1
    } else {
        2 * pow2((n - 1) as nat)
    }
}

/// The base-2 logarithm of `n`, rounded down (0 for `n <= 1`).
pub open spec fn ilog2(n: nat) -> nat
    decreases n,
{
    if n <= 1 {
        0
    } else {
        1 + ilog2(n / 2)
    }
}

/// The low `log` bits of `i`, in reverse order.
pub open spec fn rev_bits(i: nat, log: nat) -> nat
    decreases log,
{
    if log == 0 {
        0
    } else {
        rev_bits(i / 2, (log - 1) as nat) + (i % 2) * pow2((log - 1) as nat)
    }
}

pub proof fn lemma_pow2_pos(n: nat)
    ensures
        pow2(n) >= 1,
    decreases n,
{
    if n > 0 {
        lemma_pow2_pos((n - 1) as nat);
    }
}

pub proof fn lemma_pow2_mono(a: nat, b: nat)
    requires
        a <= b,
    ensures
        pow2(a) <= pow2(b),
        a < b ==> pow2(a) < pow2(b),
    decreases b,
{
    lemma_pow2_pos(a);
    if a < b {
        lemma_pow2_mono(a, (b - 1) as nat);
    }
}

pub proof fn lemma_pow2_adds(a: nat, b: nat)
    ensures
        pow2(a + b) == pow2(a) * pow2(b),
    decreases b,
{
    if b > 0 {
        lemma_pow2_adds(a, (b - 1) as nat);
        let x = pow2(a);
        let y = pow2((b - 1) as nat);
        assert(pow2(a + b) == 2 * pow2((a + b - 1) as nat));
        assert((a + b - 1) as nat == a + (b - 1) as nat);
        assert(pow2(b) == 2 * y);
        assert(x * (2 * y) == 2 * (x * y)) by (nonlinear_arith);
        assert(pow2(a + (b - 1) as nat) == x * y);
        assert(pow2(a + b) == x * pow2(b));
    } else {
        assert(pow2(b) == 1);
        assert(a + b == a);
        assert(pow2(a) * 1 == pow2(a));
    }
}

/// `ilog2(n)` is the exponent of the largest power of two at most `n`.
pub proof fn lemma_ilog2_bounds(n: nat)
    requires
        n >= 1,
    ensures
        pow2(ilog2(n)) <= n < pow2(ilog2(n) + 1),
    decreases n,
{
    if n > 1 {
        lemma_ilog2_bounds(n / 2);
    }
}

/// The logarithm is monotonic.
pub proof fn lemma_ilog2_mono(y: nat, x: nat)
    requires
        1 <= y <= x,
    ensures
        ilog2(y) <= ilog2(x),
{
    lemma_ilog2_bounds(y);
    lemma_ilog2_bounds(x);
    if ilog2(y) > ilog2(x) {
        lemma_pow2_mono(ilog2(x) + 1, ilog2(y));
    }
}

/// The logarithm of a power of two is its exponent.
pub proof fn lemma_ilog2_pow2(k: nat)
    ensures
        ilog2(pow2(k)) == k,
    decreases k,
{
    if k > 0 {
        lemma_pow2_pos((k - 1) as nat);
        lemma_ilog2_pow2((k - 1) as nat);
        assert(pow2(k) / 2 == pow2((k - 1) as nat));
    }
}

/// The reversal of `log` bits stays below `2^log`.
pub proof fn lemma_rev_bits_bound(i: nat, log: nat)
    ensures
        rev_bits(i, log) < pow2(log),
    decreases log,
{
    if log > 0 {
        lemma_rev_bits_bound(i / 2, (log - 1) as nat);
        let p = pow2((log - 1) as nat);
        assert((i % 2) * p <= p) by (nonlinear_arith)
            requires
                i % 2 <= 1,
        ;
    }
}

/// `2^64` exceeds every machine word.
pub proof fn lemma_pow2_64()
    ensures
        pow2(64) == 0x1_0000_0000_0000_0000,
{
    reveal_with_fuel(pow2, 65);
}

/// `2^k` as a machine word.
pub fn pow2_usize(k: u32) -> (r: usize)
    requires
        pow2(k as nat) <= usize::MAX,
    ensures
        r == pow2(k as nat),
{
    let mut r: usize = 1;
    let mut j: u32 = 0;
    while j < k
        invariant
            j <= k,
            r == pow2(j as nat),
            pow2(k as nat) <= usize::MAX,
        decreases k - j,
    {
        proof {
            lemma_pow2_mono((j + 1) as nat, k as nat);
        }
        r = r * 2;
        j = j + 1;
    }
    r
}

/// The base-2 logarithm of `n`, rounded down; `n` must be positive.
pub fn ilog2_usize(n: usize) -> (r: u32)
    requires
        n >= 1,
    ensures
        r == ilog2(n as nat),
        r < 64,
{
    let mut m: usize = n;
    let mut k: u32 = 0;
    proof {
        lemma_ilog2_bounds(n as nat);
        lemma_pow2_64();
        if ilog2(n as nat) >= 64 {
            lemma_pow2_mono(64, ilog2(n as nat));
        }
    }
    while m > 1
        invariant
            m >= 1,
            ilog2(n as nat) == k + ilog2(m as nat),
            pow2(64) > usize::MAX,
            ilog2(n as nat) < 64 || pow2(64) <= pow2(ilog2(n as nat)),
            pow2(ilog2(n as nat)) <= n,
        decreases m,
    {
        m = m / 2;
        k = k + 1;
    }
    proof {
        if ilog2(n as nat) >= 64 {
            lemma_pow2_mono(64, ilog2(n as nat));
        }
    }
    k
}

/// Reverses the low `log` bits of `i`; `i` must be below `2^log`.
pub fn bit_reverse_index(i: usize, log: u32) -> (r: usize)
    requires
        i < pow2(log as nat),
        pow2(log as nat) <= usize::MAX,
    ensures
        r == rev_bits(i as nat, log as nat),
        r < pow2(log as nat),
{
    let mut r: usize = 0;
    let mut x: usize = i;
    let mut k: u32 = 0;
    proof {
        lemma_rev_bits_bound(i as nat, log as nat);
    }
    while k < log
        invariant
            k <= log,
            rev_bits(i as nat, log as nat) == r * pow2((log - k) as nat) + rev_bits(x as nat, (log - k) as nat),
            rev_bits(i as nat, log as nat) < pow2(log as nat),
            i < pow2(log as nat),
            r < pow2(k as nat),
            pow2(log as nat) <= usize::MAX,
        decreases log - k,
    {
        let ghost m: nat = (log - k) as nat;
        let ghost rr = r;
        proof {
            assert(pow2(m) == 2 * pow2((m - 1) as nat));
            assert(rev_bits(x as nat, m) == rev_bits((x / 2) as nat, (m - 1) as nat) + (x % 2) as nat * pow2((m - 1) as nat));
            assert(r * pow2(m) == (2 * r) * pow2((m - 1) as nat)) by (nonlinear_arith)
                requires
                    pow2(m) == 2 * pow2((m - 1) as nat),
            ;
            assert((2 * r + x % 2) * pow2((m - 1) as nat) == (2 * r) * pow2((m - 1) as nat) + (x % 2) as nat * pow2((m - 1) as nat))
                by (nonlinear_arith);
            lemma_pow2_mono((k + 1) as nat, log as nat);
        }
        r = 2 * r + x % 2;
        x = x / 2;
        k = k + 1;
    }
    assert(pow2(0) == 1);
    assert(rev_bits(x as nat, 0) == 0);
    assert(r * pow2(0) == r);
    r
}

} // verus!

verus! {

/// Reversing `log` bits can also peel off the top bit: the top bit of `j`
/// becomes the low bit of the result.
proof fn lemma_rev_bits_top(j: nat, log: nat)
    requires
        log >= 1,
        j < pow2(log),
    ensures
        rev_bits(j, log) == 2 * rev_bits(j % pow2((log - 1) as nat), (log - 1) as nat) + j / pow2((log - 1) as nat),
    decreases log,
{
    if log == 1 {
        assert(pow2(0) == 1);
        assert(j % 1 == 0);
        assert(j / 1 == j);
        assert(rev_bits(0, 0) == 0);
        assert(rev_bits(j / 2, 0) == 0);
    } else {
        let h = pow2((log - 2) as nat);
        lemma_pow2_pos((log - 2) as nat);
        assert(pow2((log - 1) as nat) == 2 * h);
        assert(pow2(log) == 2 * pow2((log - 1) as nat));
        assert(j / 2 < pow2((log - 1) as nat));
        lemma_rev_bits_top(j / 2, (log - 1) as nat);
        vstd::arithmetic::div_mod::lemma_mod_breakdown(j as int, 2, h as int);
        vstd::arithmetic::div_mod::lemma_div_denominator(j as int, 2, h as int);
        let m = j % (2 * h);
        assert(m == 2 * ((j / 2) % h) + j % 2);
        assert(m / 2 == (j / 2) % h);
        assert(m % 2 == j % 2);
        assert(rev_bits(m, (log - 1) as nat) == rev_bits(m / 2, (log - 2) as nat) + (m % 2) * h);
        assert((j % 2) * (2 * h) == 2 * ((j % 2) * h)) by (nonlinear_arith);
    }
}

/// Reversing `log` bits twice gives back any number below `2^log`.
pub proof fn lemma_rev_bits_involution(i: nat, log: nat)
    requires
        i < pow2(log),
    ensures
        rev_bits(rev_bits(i, log), log) == i,
    decreases log,
{
    if log == 0 {
        assert(i == 0);
    } else {
        let d = pow2((log - 1) as nat);
        lemma_pow2_pos((log - 1) as nat);
        let b = i % 2;
        let r = rev_bits(i / 2, (log - 1) as nat);
        assert(i / 2 < d);
        lemma_rev_bits_bound(i / 2, (log - 1) as nat);
        let j = rev_bits(i, log);
        assert(j == r + b * d);
        assert(b * d == d * b) by (nonlinear_arith);
        vstd::arithmetic::div_mod::lemma_div_multiples_vanish_fancy(b as int, r as int, d as int);
        vstd::arithmetic::div_mod::lemma_mod_multiples_vanish(b as int, r as int, d as int);
        vstd::arithmetic::div_mod::lemma_small_mod(r, d);
        assert(j / d == b);
        assert(j % d == r);
        lemma_rev_bits_bound(i, log);
        lemma_rev_bits_top(j, log);
        lemma_rev_bits_involution(i / 2, (log - 1) as nat);
    }
}

} // verus!

use vstd::prelude::*;

verus! {

/// The Mersenne prime `2^31 - 1`, modulus of the base field.
pub const P: u32 = 2147483647;

/// An element of the base field `M31`, stored as its representative.
#[derive(Clone, Copy, Debug, PartialEq, Eq, Structural)]
pub struct M31(pub u32);

/// The base field of the STARK.
pub type BaseField = M31;

impl M31 {
    /// Wraps a representative without reducing it.
    pub fn from_u32_unchecked(value: u32) -> (r: M31)
        ensures
            r.0 == value,
    {
        M31(value)
    }

    /// The element congruent to `value` modulo `P`.
    pub fn reduce(value: u64) -> (r: M31)
        ensures
            r.0 == value % (P as u64),
            r.0 < P,
    {
        M31((value % (P as u64)) as u32)
    }

    /// The representative lies below `P`.
    pub open spec fn is_reduced(self) -> bool {
        self.0 < P
    }

    /// The sum, reduced.
    pub open spec fn plus_spec(self, rhs: M31) -> M31 {
        M31(((self.0 + rhs.0) % (P as int)) as u32)
    }

    /// The difference, reduced.
    pub open spec fn minus_spec(self, rhs: M31) -> M31 {
        M31(((self.0 + P - rhs.0) % (P as int)) as u32)
    }

    /// The product, reduced.
    pub open spec fn times_spec(self, rhs: M31) -> M31 {
        M31(((self.0 * rhs.0) % (P as int)) as u32)
    }

    /// The sum in the field.
    pub fn plus(self, rhs: M31) -> (r: M31)
        requires
            self.is_reduced(),
            rhs.is_reduced(),
        ensures
            r == self.plus_spec(rhs),
            r.is_reduced(),
    {
        let s = self.0 + rhs.0;
        if s >= P {
            M31(s - P)
        } else {
            M31(s)
        }
    }

    /// The difference in the field.
    pub fn minus(self, rhs: M31) -> (r: M31)
        requires
            self.is_reduced(),
            rhs.is_reduced(),
        ensures
            r == self.minus_spec(rhs),
            r.is_reduced(),
    {
        let s = self.0 + (P - rhs.0);
        if s >= P {
            M31(s - P)
        } else {
            M31(s)
        }
    }

    /// The product in the field.
    pub fn times(self, rhs: M31) -> (r: M31)
        requires
            self.is_reduced(),
            rhs.is_reduced(),
        ensures
            r == self.times_spec(rhs),
            r.is_reduced(),
    {
        let a = self.0 as u64;
        let b = rhs.0 as u64;
        assert(a * b < 0x4000_0000_0000_0000) by (nonlinear_arith)
            requires
                a < 0x8000_0000,
                b < 0x8000_0000,
        ;
        M31::reduce(a * b)
    }
}

impl From<u32> for M31 {
    fn from(value: u32) -> (r: M31) {
        M31::reduce(value as u64)
    }
}

impl vstd::std_specs::convert::FromSpecImpl<u32> for M31 {
    open spec fn obeys_from_spec() -> bool {
        true
    }

    open spec fn from_spec(v: u32) -> M31 {
        M31((v % P) as u32)
    }
}

impl From<usize> for M31 {
    fn from(value: usize) -> (r: M31) {
        M31::reduce(value as u64)
    }
}

impl vstd::std_specs::convert::FromSpecImpl<usize> for M31 {
    open spec fn obeys_from_spec() -> bool {
        true
    }

    open spec fn from_spec(v: usize) -> M31 {
        M31((v % (P as usize)) as u32)
    }
}

/// An element of the complex extension `M31[i] / (i^2 + 1)`.
#[derive(Clone, Copy, Debug, PartialEq, Eq, Structural)]
pub struct CM31(pub M31, pub M31);

/// An element of the degree-4 extension `CM31[u] / (u^2 - 2 - i)`.
#[derive(Clone, Copy, Debug, PartialEq, Eq, Structural)]
pub struct QM31(pub CM31, pub CM31);

impl CM31 {
    /// Both coordinates are reduced.
    pub open spec fn is_reduced(self) -> bool {
        self.0.is_reduced() && self.1.is_reduced()
    }

    /// The sum, coordinate by coordinate.
    pub open spec fn plus_spec(self, rhs: CM31) -> CM31 {
        CM31(self.0.plus_spec(rhs.0), self.1.plus_spec(rhs.1))
    }

    /// The difference, coordinate by coordinate.
    pub open spec fn minus_spec(self, rhs: CM31) -> CM31 {
        CM31(self.0.minus_spec(rhs.0), self.1.minus_spec(rhs.1))
    }

    /// The product `(a + b i)(c + d i) = ac - bd + (ad + bc) i`.
    pub open spec fn times_spec(self, rhs: CM31) -> CM31 {
        CM31(
            self.0.times_spec(rhs.0).minus_spec(self.1.times_spec(rhs.1)),
            self.0.times_spec(rhs.1).plus_spec(self.1.times_spec(rhs.0)),
        )
    }

    /// The sum in the field.
    pub fn plus(self, rhs: CM31) -> (r: CM31)
        requires
            self.is_reduced(),
            rhs.is_reduced(),
        ensures
            r == self.plus_spec(rhs),
            r.is_reduced(),
    {
        CM31(self.0.plus(rhs.0), self.1.plus(rhs.1))
    }

    /// The difference in the field.
    pub fn minus(self, rhs: CM31) -> (r: CM31)
        requires
            self.is_reduced(),
            rhs.is_reduced(),
        ensures
            r == self.minus_spec(rhs),
            r.is_reduced(),
    {
        CM31(self.0.minus(rhs.0), self.1.minus(rhs.1))
    }

    /// The product in the field.
    pub fn times(self, rhs: CM31) -> (r: CM31)
        requires
            self.is_reduced(),
            rhs.is_reduced(),
        ensures
            r == self.times_spec(rhs),
            r.is_reduced(),
    {
        let re = self.0.times(rhs.0).minus(self.1.times(rhs.1));
        let im = self.0.times(rhs.1).plus(self.1.times(rhs.0));
        CM31(re, im)
    }
}

/// The element `2 + i`, the square of `u` in the degree-4 extension.
pub open spec fn qm31_r() -> CM31 {
    CM31(M31(2), M31(1))
}

/// The secure (extension) field of the STARK.
pub type SecureField = QM31;

/// The number of base field coordinates of a secure field element.
pub const SECURE_EXTENSION_DEGREE: usize = 4;

impl QM31 {
    /// The element `a + b i + (c + d i) u`.
    pub fn from_m31(a: M31, b: M31, c: M31, d: M31) -> (r: QM31)
        ensures
            r == QM31(CM31(a, b), CM31(c, d)),
    {
        QM31(CM31(a, b), CM31(c, d))
    }

    /// The element whose coordinates are `values`, in order.
    pub fn from_m31_array(values: [M31; 4]) -> (r: QM31)
        ensures
            r == QM31(CM31(values@[0], values@[1]), CM31(values@[2], values@[3])),
    {
        QM31(CM31(values[0], values[1]), CM31(values[2], values[3]))
    }

    /// The element whose coordinates have the given representatives, unreduced.
    pub fn from_u32_unchecked(a: u32, b: u32, c: u32, d: u32) -> (r: QM31)
        ensures
            r == QM31(CM31(M31(a), M31(b)), CM31(M31(c), M31(d))),
    {
        QM31(CM31(M31(a), M31(b)), CM31(M31(c), M31(d)))
    }

    /// All four coordinates are reduced.
    pub open spec fn is_reduced(self) -> bool {
        self.0.is_reduced() && self.1.is_reduced()
    }

    /// The sum, coordinate by coordinate.
    pub open spec fn plus_spec(self, rhs: QM31) -> QM31 {
        QM31(self.0.plus_spec(rhs.0), self.1.plus_spec(rhs.1))
    }

    /// The difference, coordinate by coordinate.
    pub open spec fn minus_spec(self, rhs: QM31) -> QM31 {
        QM31(self.0.minus_spec(rhs.0), self.1.minus_spec(rhs.1))
    }

    /// The product `(a + b u)(c + d u) = ac + (2 + i) bd + (ad + bc) u`.
    pub open spec fn times_spec(self, rhs: QM31) -> QM31 {
        QM31(
            self.0.times_spec(rhs.0).plus_spec(qm31_r().times_spec(self.1).times_spec(rhs.1)),
            self.0.times_spec(rhs.1).plus_spec(self.1.times_spec(rhs.0)),
        )
    }

    /// The sum in the field.
    pub fn plus(self, rhs: QM31) -> (r: QM31)
        requires
            self.is_reduced(),
            rhs.is_reduced(),
        ensures
            r == self.plus_spec(rhs),
            r.is_reduced(),
    {
        QM31(self.0.plus(rhs.0), self.1.plus(rhs.1))
    }

    /// The difference in the field.
    pub fn minus(self, rhs: QM31) -> (r: QM31)
        requires
            self.is_reduced(),
            rhs.is_reduced(),
        ensures
            r == self.minus_spec(rhs),
            r.is_reduced(),
    {
        QM31(self.0.minus(rhs.0), self.1.minus(rhs.1))
    }

    /// The product in the field.
    pub fn times(self, rhs: QM31) -> (r: QM31)
        requires
            self.is_reduced(),
            rhs.is_reduced(),
        ensures
            r == self.times_spec(rhs),
            r.is_reduced(),
    {
        let r = CM31(M31(2), M31(1));
        let a = self.0.times(rhs.0).plus(r.times(self.1).times(rhs.1));
        let b = self.0.times(rhs.1).plus(self.1.times(rhs.0));
        QM31(a, b)
    }

    /// The coordinates of the element, in order.
    pub fn to_m31_array(self) -> (r: [M31; 4])
        ensures
            r@ == seq![self.0.0, self.0.1, self.1.0, self.1.1],
    {
        let r = [self.0.0, self.0.1, self.1.0, self.1.1];
        assert(r@ =~= seq![self.0.0, self.0.1, self.1.0, self.1.1]);
        r
    }
}

impl From<M31> for QM31 {
    fn from(value: M31) -> (r: QM31) {
        QM31(CM31(value, M31(0)), CM31(M31(0), M31(0)))
    }
}

impl vstd::std_specs::convert::FromSpecImpl<M31> for QM31 {
    open spec fn obeys_from_spec() -> bool {
        true
    }

    open spec fn from_spec(v: M31) -> QM31 {
        QM31(CM31(v, M31(0)), CM31(M31(0), M31(0)))
    }
}

/// The zero of the secure field.
pub open spec fn qm31_zero() -> QM31 {
    QM31(CM31(M31(0), M31(0)), CM31(M31(0), M31(0)))
}

/// The one of the secure field.
pub open spec fn qm31_one() -> QM31 {
    QM31(CM31(M31(1), M31(0)), CM31(M31(0), M31(0)))
}

/// Base field arithmetic on reduced elements: sums and products commute,
/// subtracting undoes adding and adding undoes subtracting, `x - x` is zero,
/// and zero and one act as the identities do.
pub proof fn lemma_m31_ring(a: M31, b: M31)
    requires
        a.is_reduced(),
        b.is_reduced(),
    ensures
        a.plus_spec(b) == b.plus_spec(a),
        a.times_spec(b) == b.times_spec(a),
        a.minus_spec(b).plus_spec(b) == a,
        a.plus_spec(b).minus_spec(b) == a,
        a.minus_spec(a) == M31(0),
        a.plus_spec(M31(0)) == a,
        M31(0).plus_spec(a) == a,
        a.minus_spec(M31(0)) == a,
        a.times_spec(M31(1)) == a,
        a.times_spec(M31(0)) == M31(0),
        M31(0).times_spec(a) == M31(0),
{
    let p = P as int;
    vstd::arithmetic::div_mod::lemma_small_mod(a.0 as nat, p as nat);
    vstd::arithmetic::div_mod::lemma_small_mod(b.0 as nat, p as nat);
    assert(a.0 * b.0 == b.0 * a.0) by (nonlinear_arith);
    // (a - b) + b
    let d = (a.0 + p - b.0) % p;
    vstd::arithmetic::div_mod::lemma_add_mod_noop(a.0 + p - b.0, b.0 as int, p);
    vstd::arithmetic::div_mod::lemma_mod_twice(a.0 + p - b.0, p);
    vstd::arithmetic::div_mod::lemma_mod_add_multiples_vanish(a.0 as int, p);
    assert((d + b.0) % p == (a.0 + p - b.0 + b.0) % p);
    // (a + b) - b
    let s = (a.0 + b.0) % p;
    vstd::arithmetic::div_mod::lemma_sub_mod_noop(a.0 + b.0 + p, b.0 as int, p);
    vstd::arithmetic::div_mod::lemma_mod_add_multiples_vanish(a.0 + b.0, p);
    vstd::arithmetic::div_mod::lemma_mod_twice(a.0 + b.0, p);
    assert((s + p - b.0) % p == (a.0 + b.0 + p - b.0) % p) by {
        vstd::arithmetic::div_mod::lemma_add_mod_noop(a.0 + b.0, p - b.0, p);
        vstd::arithmetic::div_mod::lemma_add_mod_noop(s, p - b.0, p);
    }
    assert(a.0 + b.0 + p - b.0 == a.0 + p);
    assert(a.0 * 1 == a.0);
    assert(a.0 * 0 == 0);
}

/// Secure field arithmetic on reduced elements: subtracting undoes adding
/// and adding undoes subtracting, `x - x` is zero, zero is neutral for sums
/// and absorbing for products, and one is neutral for products.
pub proof fn lemma_qm31_ring(x: QM31, y: QM31)
    requires
        x.is_reduced(),
        y.is_reduced(),
    ensures
        x.minus_spec(y).plus_spec(y) == x,
        x.plus_spec(y).minus_spec(y) == x,
        x.minus_spec(x) == qm31_zero(),
        x.plus_spec(qm31_zero()) == x,
        x.minus_spec(qm31_zero()) == x,
        x.times_spec(qm31_one()) == x,
        x.times_spec(qm31_zero()) == qm31_zero(),
{
    lemma_m31_ring(x.0.0, y.0.0);
    lemma_m31_ring(x.0.1, y.0.1);
    lemma_m31_ring(x.1.0, y.1.0);
    lemma_m31_ring(x.1.1, y.1.1);
    let z = M31(0);
    let o = M31(1);
    lemma_m31_ring(z, z);
    lemma_m31_ring(o, z);
    lemma_m31_ring(M31(2), z);
    // Products with one and zero, coordinate by coordinate.
    lemma_m31_ring(x.0.0, o);
    lemma_m31_ring(x.0.1, o);
    lemma_m31_ring(x.1.0, o);
    lemma_m31_ring(x.1.1, o);
    lemma_m31_ring(x.0.0, z);
    lemma_m31_ring(x.0.1, z);
    lemma_m31_ring(x.1.0, z);
    lemma_m31_ring(x.1.1, z);
    let one_c = CM31(o, z);
    let zero_c = CM31(z, z);
    assert(x.0.times_spec(one_c) == x.0);
    assert(x.1.times_spec(one_c) == x.1);
    assert(x.0.times_spec(zero_c) == zero_c);
    assert(x.1.times_spec(zero_c) == zero_c);
    let rb = qm31_r().times_spec(x.1);
    lemma_m31_ring(rb.0, z);
    lemma_m31_ring(rb.1, z);
    assert(rb.0.is_reduced() && rb.1.is_reduced());
    assert(rb.times_spec(zero_c) == zero_c);
    assert(x.0.plus_spec(zero_c) == x.0);
    assert(zero_c.plus_spec(x.1) == x.1);
    assert(zero_c.plus_spec(zero_c) == zero_c);
}

} // verus!

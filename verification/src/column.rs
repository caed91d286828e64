use vstd::prelude::*;
use crate::fields::{BaseField, SecureField, M31, CM31, QM31};
use crate::hash::Blake2sHash;
use crate::utils::{pow2, ilog2, rev_bits, lemma_ilog2_bounds, bit_reverse_index, ilog2_usize};

verus! {

/// The backend whose columns live on the device and whose heavy operations
/// run as device kernels.
#[derive(Clone, Copy, Debug)]
pub struct CudaBackend;

/// The sequence whose element `i` is element `rev_bits(i)` of `s`, for `s` of
/// power-of-two length.
pub open spec fn bit_reversed_seq<T>(s: Seq<T>) -> Seq<T> {
    Seq::new(s.len(), |i: int| s[rev_bits(i as nat, ilog2(s.len())) as int])
}

/// A length is a power of two.
pub open spec fn is_pow2_len(n: nat) -> bool {
    n >= 1 && pow2(ilog2(n)) == n
}

/// A copy of `data` in bit-reversed order.
fn bit_reversed<T: Copy>(data: &Vec<T>) -> (r: Vec<T>)
    requires
        is_pow2_len(data@.len()),
    ensures
        r@ == bit_reversed_seq(data@),
{
    let n = data.len();
    let log = ilog2_usize(n);
    let mut out: Vec<T> = Vec::new();
    let mut i: usize = 0;
    while i < n
        invariant
            n == data@.len(),
            is_pow2_len(n as nat),
            log == ilog2(n as nat),
            i <= n,
            out@.len() == i,
            forall|k: int| 0 <= k < i ==> #[trigger] out@[k] == bit_reversed_seq(data@)[k],
        decreases n - i,
    {
        let j = bit_reverse_index(i, log);
        out.push(data[j]);
        i = i + 1;
    }
    assert(out@ =~= bit_reversed_seq(data@));
    out
}

/// The operations on columns of `T` values that a backend provides.
pub trait ColumnOps<T> {
    /// The backend's column type.
    type Column;

    /// The values of a column.
    spec fn values(column: &Self::Column) -> Seq<T>;

    /// Puts a column of power-of-two length into bit-reversed order.
    fn bit_reverse_column(column: &mut Self::Column)
        requires
            is_pow2_len(Self::values(old(column)).len()),
            Self::values(old(column)).len() < u32::MAX,
        ensures
            Self::values(final(column)) == bit_reversed_seq(Self::values(old(column))),
    ;
}

/// A column of base field values.
pub struct BaseFieldVec {
    data: Vec<BaseField>,
}

impl View for BaseFieldVec {
    type V = Seq<BaseField>;

    closed spec fn view(&self) -> Seq<BaseField> {
        self.data@
    }
}

impl BaseFieldVec {
    /// A column holding `values`.
    pub fn from_vec(values: Vec<BaseField>) -> (r: Self)
        ensures
            r@ == values@,
    {
        BaseFieldVec { data: values }
    }

    /// A column of `len` zeros.
    pub fn new_zeroes(len: usize) -> (r: Self)
        ensures
            r@.len() == len,
            forall|i: int| 0 <= i < len ==> #[trigger] r@[i] == M31(0),
    {
        let mut data: Vec<BaseField> = Vec::new();
        let mut i: usize = 0;
        while i < len
            invariant
                i <= len,
                data@.len() == i,
                forall|k: int| 0 <= k < i ==> #[trigger] data@[k] == M31(0),
            decreases len - i,
        {
            data.push(M31(0));
            i = i + 1;
        }
        BaseFieldVec { data }
    }

    /// A column of `len` zeros.
    pub fn zeros(len: usize) -> (r: Self)
        ensures
            r@.len() == len,
            forall|i: int| 0 <= i < len ==> #[trigger] r@[i] == M31(0),
    {
        Self::new_zeroes(len)
    }

    /// The column's values.
    pub fn to_cpu(&self) -> (r: Vec<BaseField>)
        ensures
            r@ == self@,
    {
        self.data.clone()
    }

    /// The number of values.
    pub fn len(&self) -> (r: usize)
        ensures
            r == self@.len(),
    {
        self.data.len()
    }

    /// The value at `index`.
    pub fn at(&self, index: usize) -> (r: BaseField)
        requires
            index < self@.len(),
        ensures
            r == self@[index as int],
    {
        self.data[index]
    }

    /// Replaces the value at `index`.
    pub fn set(&mut self, index: usize, value: BaseField)
        requires
            index < old(self)@.len(),
        ensures
            final(self)@ == old(self)@.update(index as int, value),
    {
        self.data.set(index, value);
    }
}

/// A column of secure field values.
pub struct SecureFieldVec {
    data: Vec<SecureField>,
}

impl View for SecureFieldVec {
    type V = Seq<SecureField>;

    closed spec fn view(&self) -> Seq<SecureField> {
        self.data@
    }
}

impl SecureFieldVec {
    /// A column holding `values`.
    pub fn from_vec(values: Vec<SecureField>) -> (r: Self)
        ensures
            r@ == values@,
    {
        SecureFieldVec { data: values }
    }

    /// A column of `len` zeros.
    pub fn new_zeroes(len: usize) -> (r: Self)
        ensures
            r@.len() == len,
            forall|i: int| 0 <= i < len ==> #[trigger] r@[i] == QM31(CM31(M31(0), M31(0)), CM31(M31(0), M31(0))),
    {
        let mut data: Vec<SecureField> = Vec::new();
        let mut i: usize = 0;
        while i < len
            invariant
                i <= len,
                data@.len() == i,
                forall|k: int| 0 <= k < i ==> #[trigger] data@[k] == QM31(CM31(M31(0), M31(0)), CM31(M31(0), M31(0))),
            decreases len - i,
        {
            data.push(QM31(CM31(M31(0), M31(0)), CM31(M31(0), M31(0))));
            i = i + 1;
        }
        SecureFieldVec { data }
    }

    /// A column of `len` zeros.
    pub fn zeros(len: usize) -> (r: Self)
        ensures
            r@.len() == len,
            forall|i: int| 0 <= i < len ==> #[trigger] r@[i] == QM31(CM31(M31(0), M31(0)), CM31(M31(0), M31(0))),
    {
        Self::new_zeroes(len)
    }

    /// The column's values.
    pub fn to_cpu(&self) -> (r: Vec<SecureField>)
        ensures
            r@ == self@,
    {
        self.data.clone()
    }

    /// The number of values.
    pub fn len(&self) -> (r: usize)
        ensures
            r == self@.len(),
    {
        self.data.len()
    }

    /// The value at `index`.
    pub fn at(&self, index: usize) -> (r: SecureField)
        requires
            index < self@.len(),
        ensures
            r == self@[index as int],
    {
        self.data[index]
    }
}

/// A column of Blake2s hashes, such as a layer of a Merkle tree.
pub struct Blake2sHashVec {
    data: Vec<Blake2sHash>,
}

impl View for Blake2sHashVec {
    type V = Seq<Seq<u8>>;

    closed spec fn view(&self) -> Seq<Seq<u8>> {
        self.data@.map_values(|h: Blake2sHash| h@)
    }
}

impl Blake2sHashVec {
    /// A column holding `values`.
    pub fn from_vec(values: Vec<Blake2sHash>) -> (r: Self)
        ensures
            r@ == values@.map_values(|h: Blake2sHash| h@),
    {
        Blake2sHashVec { data: values }
    }

    /// The column's hashes.
    pub fn to_cpu(&self) -> (r: Vec<Blake2sHash>)
        ensures
            r@.map_values(|h: Blake2sHash| h@) == self@,
    {
        let mut out: Vec<Blake2sHash> = Vec::new();
        let mut i: usize = 0;
        while i < self.data.len()
            invariant
                i <= self.data@.len(),
                out@.len() == i,
                forall|k: int| 0 <= k < i ==> #[trigger] out@[k]@ == self.data@[k]@,
            decreases self.data@.len() - i,
        {
            out.push(self.data[i]);
            i = i + 1;
        }
        assert(out@.map_values(|h: Blake2sHash| h@) =~= self@);
        out
    }

    /// The number of hashes.
    pub fn len(&self) -> (r: usize)
        ensures
            r == self@.len(),
    {
        self.data.len()
    }

    /// The hash at `index`.
    pub fn at(&self, index: usize) -> (r: Blake2sHash)
        requires
            index < self@.len(),
        ensures
            r@ == self@[index as int],
    {
        self.data[index]
    }

    /// The hashes at `indices`, in order.
    pub fn batch_at(&self, indices: &[usize]) -> (r: Vec<Blake2sHash>)
        requires
            forall|k: int| 0 <= k < indices@.len() ==> #[trigger] indices@[k] < self@.len(),
        ensures
            r@.len() == indices@.len(),
            forall|k: int| 0 <= k < indices@.len() ==> #[trigger] r@[k]@ == self@[indices@[k] as int],
    {
        let mut out: Vec<Blake2sHash> = Vec::new();
        let mut k: usize = 0;
        while k < indices.len()
            invariant
                k <= indices@.len(),
                out@.len() == k,
                forall|j: int| 0 <= j < indices@.len() ==> #[trigger] indices@[j] < self@.len(),
                forall|j: int| 0 <= j < k ==> #[trigger] out@[j]@ == self@[indices@[j] as int],
            decreases indices@.len() - k,
        {
            out.push(self.data[indices[k]]);
            k = k + 1;
        }
        out
    }
}

impl ColumnOps<BaseField> for CudaBackend {
    type Column = BaseFieldVec;

    open spec fn values(column: &BaseFieldVec) -> Seq<BaseField> {
        column@
    }

    fn bit_reverse_column(column: &mut BaseFieldVec) {
        let r = bit_reversed(&column.data);
        column.data = r;
    }
}

impl ColumnOps<SecureField> for CudaBackend {
    type Column = SecureFieldVec;

    open spec fn values(column: &SecureFieldVec) -> Seq<SecureField> {
        column@
    }

    fn bit_reverse_column(column: &mut SecureFieldVec) {
        let r = bit_reversed(&column.data);
        column.data = r;
    }
}

/// A column of secure field values stored as four columns of base field
/// coordinates.
pub struct SecureColumnByCoords {
    pub columns: [BaseFieldVec; 4],
}

/// The secure field values of four coordinate columns, as far as the shortest reaches.
pub open spec fn coords_to_values(c0: Seq<M31>, c1: Seq<M31>, c2: Seq<M31>, c3: Seq<M31>) -> Seq<SecureField> {
    let n = vstd::math::min(vstd::math::min(c0.len() as int, c1.len() as int), vstd::math::min(c2.len() as int, c3.len() as int));
    Seq::new(n as nat, |i: int| QM31(CM31(c0[i], c1[i]), CM31(c2[i], c3[i])))
}

impl SecureColumnByCoords {
    /// The secure field values of the column.
    pub fn to_vec(&self) -> (r: Vec<SecureField>)
        ensures
            r@ == coords_to_values(self.columns[0]@, self.columns[1]@, self.columns[2]@, self.columns[3]@),
    {
        let a = self.columns[0].to_cpu();
        let b = self.columns[1].to_cpu();
        let c = self.columns[2].to_cpu();
        let d = self.columns[3].to_cpu();
        let mut n = a.len();
        if b.len() < n {
            n = b.len();
        }
        if c.len() < n {
            n = c.len();
        }
        if d.len() < n {
            n = d.len();
        }
        let mut out: Vec<SecureField> = Vec::new();
        let mut i: usize = 0;
        while i < n
            invariant
                i <= n,
                n <= a@.len() && n <= b@.len() && n <= c@.len() && n <= d@.len(),
                out@.len() == i,
                forall|k: int| 0 <= k < i ==> #[trigger] out@[k] == QM31(CM31(a@[k], b@[k]), CM31(c@[k], d@[k])),
            decreases n - i,
        {
            out.push(QM31::from_m31_array([a[i], b[i], c[i], d[i]]));
            i = i + 1;
        }
        assert(out@ =~= coords_to_values(self.columns[0]@, self.columns[1]@, self.columns[2]@, self.columns[3]@));
        out
    }
}

} // verus!

verus! {

/// Putting a column of power-of-two length into bit-reversed order twice gives
/// back the column: bit reversal is an involution.
pub proof fn lemma_bit_reverse_involution<T>(s: Seq<T>)
    requires
        is_pow2_len(s.len()),
    ensures
        bit_reversed_seq(bit_reversed_seq(s)) == s,
{
    let n = s.len();
    let log = ilog2(n);
    let b = bit_reversed_seq(s);
    assert forall|i: int| 0 <= i < n implies #[trigger] bit_reversed_seq(b)[i] == s[i] by {
        crate::utils::lemma_rev_bits_bound(i as nat, log);
        crate::utils::lemma_rev_bits_involution(i as nat, log);
    }
    assert(bit_reversed_seq(b) =~= s);
}

} // verus!

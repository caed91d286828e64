use vstd::prelude::*;
use blake2::Digest;
use crate::fields::{M31, P};

verus! {

/// A 32-byte Blake2s digest, possibly with each 4-byte word reduced modulo `P`.
#[derive(Clone, Copy, Debug, PartialEq, Eq, Default)]
pub struct Blake2sHash(pub [u8; 32]);

impl View for Blake2sHash {
    type V = Seq<u8>;

    open spec fn view(&self) -> Seq<u8> {
        self.0@
    }
}

/// The Blake2s-256 digest of a byte string, as computed by the `blake2` crate.
pub uninterp spec fn blake2s_256(data: Seq<u8>) -> Seq<u8>;

/// Calls `blake2::Blake2s256::digest` on `data`. The contract claims that the
/// digest depends on the bytes of `data` alone, which is what the name
/// `blake2s_256` stands for; the digest function itself is not stated.
#[verifier::external_body]
fn blake2s_digest(data: &[u8]) -> (out: [u8; 32])
    ensures
        out@ == blake2s_256(data@),
{
    blake2::Blake2s256::digest(data).into()
}

/// The little-endian bytes of a 32-bit word.
pub open spec fn u32_le_bytes(v: u32) -> Seq<u8> {
    seq![(v % 256) as u8, ((v / 256) % 256) as u8, ((v / 65536) % 256) as u8, (v / 16777216) as u8]
}

/// The concatenated little-endian bytes of the representatives of `values`.
pub open spec fn values_le_bytes(values: Seq<M31>) -> Seq<u8>
    decreases values.len(),
{
    if values.len() == 0 {
        Seq::empty()
    } else {
        values_le_bytes(values.drop_last()) + u32_le_bytes(values.last().0)
    }
}

/// The word stored little-endian at bytes `4k .. 4k + 4` of `b`.
pub open spec fn le_word(b: Seq<u8>, k: int) -> int {
    b[4 * k] + 256 * b[4 * k + 1] + 65536 * b[4 * k + 2] + 16777216 * b[4 * k + 3]
}

/// Byte `j` (little-endian) of the word `w`.
pub open spec fn word_byte(w: int, j: int) -> u8 {
    if j == 0 {
        (w % 256) as u8
    } else if j == 1 {
        ((w / 256) % 256) as u8
    } else if j == 2 {
        ((w / 65536) % 256) as u8
    } else {
        ((w / 16777216) % 256) as u8
    }
}

/// A 32-byte hash with each of its eight little-endian words reduced modulo `P`.
pub open spec fn reduce_to_m31_spec(b: Seq<u8>) -> Seq<u8> {
    Seq::new(32, |i: int| word_byte(le_word(b, i / 4) % (P as int), i % 4))
}

/// The bytes hashed for a Merkle node: the two children's hashes (if any),
/// then the little-endian bytes of the node's column values.
pub open spec fn node_preimage(children: Option<(Seq<u8>, Seq<u8>)>, values: Seq<M31>) -> Seq<u8> {
    match children {
        Some((l, r)) => l + r + values_le_bytes(values),
        None => values_le_bytes(values),
    }
}

/// The output of a Blake2s hash of `data`, reduced to M31 words when `m31` holds.
pub open spec fn hash_output(data: Seq<u8>, m31: bool) -> Seq<u8> {
    if m31 {
        reduce_to_m31_spec(blake2s_256(data))
    } else {
        blake2s_256(data)
    }
}

/// The hash of a Merkle node with the given children and column values.
pub open spec fn hash_node_spec(children: Option<(Seq<u8>, Seq<u8>)>, values: Seq<M31>, m31: bool) -> Seq<u8> {
    hash_output(node_preimage(children, values), m31)
}

/// Reduces each little-endian 4-byte word of `value` modulo `P`.
pub fn reduce_to_m31(value: [u8; 32]) -> (r: [u8; 32])
    ensures
        r@ == reduce_to_m31_spec(value@),
{
    let mut r = [0u8; 32];
    let mut k: usize = 0;
    while k < 8
        invariant
            k <= 8,
            forall|i: int| 0 <= i < 4 * k ==> r@[i] == #[trigger] reduce_to_m31_spec(value@)[i],
        decreases 8 - k,
    {
        let w: u32 = value[4 * k] as u32 + 256 * (value[4 * k + 1] as u32) + 65536 * (value[4 * k + 2] as u32)
            + 16777216 * (value[4 * k + 3] as u32);
        assert(w as int == le_word(value@, k as int));
        let m: u32 = w % P;
        r[4 * k] = (m % 256) as u8;
        r[4 * k + 1] = ((m / 256) % 256) as u8;
        r[4 * k + 2] = ((m / 65536) % 256) as u8;
        r[4 * k + 3] = ((m / 16777216) % 256) as u8;
        proof {
            assert forall|i: int| 0 <= i < 4 * (k + 1) implies r@[i] == #[trigger] reduce_to_m31_spec(value@)[i] by {
                if i >= 4 * k {
                    assert(i / 4 == k as int);
                }
            }
        }
        k = k + 1;
    }
    assert(r@ =~= reduce_to_m31_spec(value@));
    r
}

/// Appends the little-endian bytes of `v` to `out`.
pub(crate) fn push_u32_le(out: &mut Vec<u8>, v: u32)
    ensures
        final(out)@ == old(out)@ + u32_le_bytes(v),
{
    out.push((v % 256) as u8);
    out.push(((v / 256) % 256) as u8);
    out.push(((v / 65536) % 256) as u8);
    out.push((v / 16777216) as u8);
    assert(out@ =~= old(out)@ + u32_le_bytes(v));
}

/// Appends the 32 bytes of `h` to `out`.
pub(crate) fn push_hash(out: &mut Vec<u8>, h: &Blake2sHash)
    ensures
        final(out)@ == old(out)@ + h@,
{
    let mut i: usize = 0;
    while i < 32
        invariant
            i <= 32,
            out@ == old(out)@ + h@.subrange(0, i as int),
        decreases 32 - i,
    {
        out.push(h.0[i]);
        assert(h@.subrange(0, i + 1) =~= h@.subrange(0, i as int).push(h.0[i as int]));
        i = i + 1;
    }
    assert(h@.subrange(0, 32) =~= h@);
}

/// Appends the little-endian bytes of `values` to `out`.
fn push_values_le(out: &mut Vec<u8>, values: &[M31])
    ensures
        final(out)@ == old(out)@ + values_le_bytes(values@),
{
    let mut i: usize = 0;
    while i < values.len()
        invariant
            i <= values.len(),
            out@ == old(out)@ + values_le_bytes(values@.subrange(0, i as int)),
        decreases values.len() - i,
    {
        let ghost before = out@;
        push_u32_le(out, values[i].0);
        let ghost s = values@.subrange(0, i + 1);
        assert(s.drop_last() =~= values@.subrange(0, i as int));
        assert(out@ =~= old(out)@ + values_le_bytes(s));
        i = i + 1;
    }
    assert(values@.subrange(0, values.len() as int) =~= values@);
}

/// Hashes `data` with Blake2s, reducing the output words modulo `P` when `m31` holds.
pub(crate) fn hash_bytes(data: &[u8], m31: bool) -> (r: Blake2sHash)
    ensures
        r@ == hash_output(data@, m31),
{
    let d = blake2s_digest(data);
    if m31 {
        Blake2sHash(reduce_to_m31(d))
    } else {
        Blake2sHash(d)
    }
}

/// The Blake2s Merkle hasher, producing plain digests, or digests whose words
/// are reduced modulo `P` when `IS_M31_OUTPUT` holds.
pub struct Blake2sMerkleHasherGeneric<const IS_M31_OUTPUT: bool>;

/// The Blake2s Merkle hasher with plain digests.
pub type Blake2sMerkleHasher = Blake2sMerkleHasherGeneric<false>;

/// The Blake2s Merkle hasher whose digests are taken modulo `P` word by word.
pub type Blake2sM31MerkleHasher = Blake2sMerkleHasherGeneric<true>;

/// The view of an optional pair of child hashes.
pub open spec fn children_view(c: Option<(Blake2sHash, Blake2sHash)>) -> Option<(Seq<u8>, Seq<u8>)> {
    match c {
        Some((l, r)) => Some((l@, r@)),
        None => None,
    }
}

/// A hasher for the nodes of a Merkle tree over base field columns.
pub trait MerkleHasher {
    /// The hash of a node with the given children's hashes and column values.
    spec fn node_hash(children: Option<(Seq<u8>, Seq<u8>)>, values: Seq<M31>) -> Seq<u8>;

    /// Hashes a Merkle node from its children's hashes (if any) and the values of
    /// the columns at the node.
    fn hash_node(children_hashes: Option<(Blake2sHash, Blake2sHash)>, column_values: &[M31]) -> (r: Blake2sHash)
        ensures
            r@ == Self::node_hash(children_view(children_hashes), column_values@),
    ;
}

impl<const IS_M31_OUTPUT: bool> MerkleHasher for Blake2sMerkleHasherGeneric<IS_M31_OUTPUT> {
    open spec fn node_hash(children: Option<(Seq<u8>, Seq<u8>)>, values: Seq<M31>) -> Seq<u8> {
        hash_node_spec(children, values, IS_M31_OUTPUT)
    }

    fn hash_node(children_hashes: Option<(Blake2sHash, Blake2sHash)>, column_values: &[M31]) -> (r: Blake2sHash) {
        let capacity: usize = if column_values.len() < 1048576 { 64 + 4 * column_values.len() } else { 64 };
        let mut data: Vec<u8> = Vec::with_capacity(capacity);
        match children_hashes {
            Some((left, right)) => {
                push_hash(&mut data, &left);
                push_hash(&mut data, &right);
            },
            None => {},
        }
        push_values_le(&mut data, column_values);
        proof {
            assert(data@ =~= node_preimage(children_view(children_hashes), column_values@));
        }
        hash_bytes(data.as_slice(), IS_M31_OUTPUT)
    }
}

impl<const IS_M31_OUTPUT: bool> Blake2sMerkleHasherGeneric<IS_M31_OUTPUT> {
    /// Hashes a node of a lifted Merkle tree from its two children.
    pub fn hash_children(children_hashes: (Blake2sHash, Blake2sHash)) -> (r: Blake2sHash)
        ensures
            r@ == hash_output(children_hashes.0@ + children_hashes.1@, IS_M31_OUTPUT),
    {
        let (left, right) = children_hashes;
        let mut data: Vec<u8> = Vec::new();
        push_hash(&mut data, &left);
        push_hash(&mut data, &right);
        hash_bytes(data.as_slice(), IS_M31_OUTPUT)
    }

    /// Hashes the concatenation of two hashes.
    pub fn concat_and_hash(v1: &Blake2sHash, v2: &Blake2sHash) -> (r: Blake2sHash)
        ensures
            r@ == hash_output(v1@ + v2@, IS_M31_OUTPUT),
    {
        Self::hash_children((*v1, *v2))
    }
}

} // verus!

verus! {

/// A Fiat-Shamir channel whose state is a Blake2s digest.
pub struct Blake2sChannelGeneric<const IS_M31_OUTPUT: bool> {
    digest: Blake2sHash,
}

/// The channel with plain Blake2s digests.
pub type Blake2sChannel = Blake2sChannelGeneric<false>;

/// The channel whose digests are reduced modulo `P` word by word.
pub type Blake2sM31Channel = Blake2sChannelGeneric<true>;

impl<const IS_M31_OUTPUT: bool> Blake2sChannelGeneric<IS_M31_OUTPUT> {
    /// The channel's current digest.
    pub closed spec fn digest_spec(&self) -> Seq<u8> {
        self.digest@
    }

    /// A channel whose digest is all zeros.
    pub fn new() -> (r: Self)
        ensures
            r.digest_spec() == Seq::new(32, |i: int| 0u8),
    {
        let r = Blake2sChannelGeneric { digest: Blake2sHash([0u8; 32]) };
        assert(r.digest_spec() =~= Seq::new(32, |i: int| 0u8));
        r
    }

    /// The channel's current digest.
    pub fn digest(&self) -> (r: Blake2sHash)
        ensures
            r@ == self.digest_spec(),
    {
        self.digest
    }

    /// Replaces the channel's digest.
    pub fn update_digest(&mut self, new_digest: Blake2sHash)
        ensures
            final(self).digest_spec() == new_digest@,
    {
        self.digest = new_digest;
    }
}

/// The Merkle channel that pairs the Blake2s Merkle hasher with the Blake2s
/// channel of the same output kind.
pub struct Blake2sMerkleChannelGeneric<const IS_M31_OUTPUT: bool>;

/// The Merkle channel with plain Blake2s digests.
pub type Blake2sMerkleChannel = Blake2sMerkleChannelGeneric<false>;

/// The Merkle channel whose digests are reduced modulo `P` word by word.
pub type Blake2sM31MerkleChannel = Blake2sMerkleChannelGeneric<true>;

impl<const IS_M31_OUTPUT: bool> Blake2sMerkleChannelGeneric<IS_M31_OUTPUT> {
    /// Mixes a Merkle root into the channel: the new digest is the hash of the
    /// old digest followed by the root.
    pub fn mix_root(channel: &mut Blake2sChannelGeneric<IS_M31_OUTPUT>, root: Blake2sHash)
        ensures
            final(channel).digest_spec() == hash_output(old(channel).digest_spec() + root@, IS_M31_OUTPUT),
    {
        let d = channel.digest();
        let h = Blake2sMerkleHasherGeneric::<IS_M31_OUTPUT>::concat_and_hash(&d, &root);
        channel.update_digest(h);
    }
}

} // verus!

verus! {

/// A 32-bit word is the sum of its little-endian bytes.
proof fn lemma_word_bytes(w: u32)
    ensures
        w as int == (w % 256) as int + 256 * ((w / 256) % 256) + 65536 * ((w / 65536) % 256) + 16777216 * ((w / 16777216)
            % 256),
{
    assert(w == (w % 256) + 256 * ((w / 256) % 256) + 65536 * ((w / 65536) % 256) + 16777216 * ((w / 16777216) % 256))
        by (bit_vector);
}

/// Every word of a reduced hash is below `P`, and reducing a reduced hash
/// changes nothing.
pub proof fn lemma_reduce_to_m31_idempotent(b: Seq<u8>)
    requires
        b.len() == 32,
    ensures
        forall|k: int| 0 <= k < 8 ==> #[trigger] le_word(reduce_to_m31_spec(b), k) < P,
        reduce_to_m31_spec(reduce_to_m31_spec(b)) == reduce_to_m31_spec(b),
{
    let r = reduce_to_m31_spec(b);
    assert forall|k: int| 0 <= k < 8 implies #[trigger] le_word(r, k) == le_word(b, k) % (P as int) by {
        let w = (le_word(b, k) % (P as int)) as u32;
        lemma_word_bytes(w);
        assert((4 * k) / 4 == k && (4 * k) % 4 == 0);
        assert((4 * k + 1) / 4 == k && (4 * k + 1) % 4 == 1);
        assert((4 * k + 2) / 4 == k && (4 * k + 2) % 4 == 2);
        assert((4 * k + 3) / 4 == k && (4 * k + 3) % 4 == 3);
        assert(r[4 * k] == word_byte(w as int, 0));
        assert(r[4 * k + 1] == word_byte(w as int, 1));
        assert(r[4 * k + 2] == word_byte(w as int, 2));
        assert(r[4 * k + 3] == word_byte(w as int, 3));
    }
    assert forall|i: int| 0 <= i < 32 implies #[trigger] reduce_to_m31_spec(r)[i] == r[i] by {
        let k = i / 4;
        assert(le_word(r, k) == le_word(b, k) % (P as int));
        assert(le_word(r, k) % (P as int) == le_word(b, k) % (P as int));
    }
    assert(reduce_to_m31_spec(r) =~= r);
}

/// The bytes hashed for column values hold each value as a little-endian
/// word, in order: four bytes per value, and the word at bytes `4k .. 4k + 4`
/// reads back as the representative of value `k`.
pub proof fn lemma_values_bytes_read_back(values: Seq<M31>)
    ensures
        values_le_bytes(values).len() == 4 * values.len(),
        forall|k: int| 0 <= k < values.len() ==> #[trigger] le_word(values_le_bytes(values), k) == values[k].0,
    decreases values.len(),
{
    if values.len() > 0 {
        let p = values.drop_last();
        lemma_values_bytes_read_back(p);
        let bp = values_le_bytes(p);
        let w = values.last().0;
        let bs = values_le_bytes(values);
        assert(bs == bp + u32_le_bytes(w));
        lemma_word_bytes(w);
        assert(w / 16777216 < 256);
        assert((w / 16777216) % 256 == w / 16777216);
        assert forall|k: int| 0 <= k < values.len() implies #[trigger] le_word(bs, k) == values[k].0 by {
            if k < p.len() {
                assert(bs[4 * k] == bp[4 * k]);
                assert(bs[4 * k + 1] == bp[4 * k + 1]);
                assert(bs[4 * k + 2] == bp[4 * k + 2]);
                assert(bs[4 * k + 3] == bp[4 * k + 3]);
                assert(le_word(bs, k) == le_word(bp, k));
                assert(p[k] == values[k]);
            } else {
                assert(4 * k == bp.len());
            }
        }
    }
}

/// A node with children and no column values hashes the same bytes as
/// `hash_children`: the left child's hash followed by the right child's.
pub proof fn lemma_node_without_values_hashes_children(l: Seq<u8>, r: Seq<u8>, m31: bool)
    ensures
        hash_node_spec(Some((l, r)), Seq::empty(), m31) == hash_output(l + r, m31),
        node_preimage(Some((l, r)), Seq::empty()).subrange(0, l.len() as int) == l,
        node_preimage(Some((l, r)), Seq::empty()).subrange(l.len() as int, (l.len() + r.len()) as int) == r,
{
    assert(values_le_bytes(Seq::<M31>::empty()) =~= Seq::<u8>::empty());
    assert(l + r + Seq::<u8>::empty() =~= l + r);
    assert((l + r).subrange(0, l.len() as int) =~= l);
    assert((l + r).subrange(l.len() as int, (l.len() + r.len()) as int) =~= r);
}

} // verus!

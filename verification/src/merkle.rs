use vstd::prelude::*;
use crate::fields::{BaseField, M31};
use crate::hash::{Blake2sHash, Blake2sMerkleHasherGeneric, MerkleHasher, children_view, push_hash, push_u32_le, hash_bytes, node_preimage, values_le_bytes};
use crate::column::{BaseFieldVec, Blake2sHashVec, CudaBackend};
use crate::utils::{pow2, pow2_usize, ilog2_usize};
use crate::sort::sorted_by_key_desc;

verus! {

/// The values of `columns` at row `i`.
pub open spec fn row(columns: Seq<Seq<M31>>, i: int) -> Seq<M31> {
    Seq::new(columns.len(), |c: int| columns[c][i])
}

/// The children of node `i` in the previous (twice as large) layer, if any.
pub open spec fn children_at(prev: Option<Seq<Seq<u8>>>, i: int) -> Option<(Seq<u8>, Seq<u8>)> {
    match prev {
        Some(p) => Some((p[2 * i], p[2 * i + 1])),
        None => None,
    }
}

/// The Merkle layer of `2^log_size` nodes over the previous layer (if any) and
/// the columns of that size.
pub open spec fn commit_layer_spec<H: MerkleHasher>(
    log_size: nat,
    prev: Option<Seq<Seq<u8>>>,
    columns: Seq<Seq<M31>>,
) -> Seq<Seq<u8>> {
    Seq::new(pow2(log_size), |i: int| H::node_hash(children_at(prev, i), row(columns, i)))
}

/// The views of a list of columns.
pub open spec fn columns_view(columns: Seq<&BaseFieldVec>) -> Seq<Seq<M31>> {
    columns.map_values(|c: &BaseFieldVec| c@)
}

/// The view of an optional layer.
pub open spec fn layer_view(layer: Option<&Blake2sHashVec>) -> Option<Seq<Seq<u8>>> {
    match layer {
        Some(l) => Some(l@),
        None => None,
    }
}

/// The Merkle operations a backend provides for a hasher.
pub trait MerkleOps<H: MerkleHasher> {
    /// Computes the Merkle layer of `2^log_size` nodes: node `i` hashes the
    /// previous layer's nodes `2i` and `2i + 1` (if there is a previous layer)
    /// and row `i` of `columns`.
    fn commit_on_layer(log_size: u32, prev_layer: Option<&Blake2sHashVec>, columns: &[&BaseFieldVec]) -> (r:
        Blake2sHashVec)
        requires
            pow2(log_size as nat) <= usize::MAX,
            match prev_layer {
                Some(p) => p@.len() >= 2 * pow2(log_size as nat),
                None => true,
            },
            forall|c: int| 0 <= c < columns@.len() ==> #[trigger] columns@[c]@.len() >= pow2(log_size as nat),
        ensures
            r@ == commit_layer_spec::<H>(log_size as nat, layer_view(prev_layer), columns_view(columns@)),
    ;
}

impl<const IS_M31_OUTPUT: bool> MerkleOps<Blake2sMerkleHasherGeneric<IS_M31_OUTPUT>> for CudaBackend {
    fn commit_on_layer(log_size: u32, prev_layer: Option<&Blake2sHashVec>, columns: &[&BaseFieldVec]) -> (r:
        Blake2sHashVec) {
        let size = pow2_usize(log_size);
        let mut out: Vec<Blake2sHash> = Vec::with_capacity(size);
        let capacity: usize = if columns.len() < 1048576 { 64 + 4 * columns.len() } else { 64 };
        let mut buf: Vec<u8> = Vec::with_capacity(capacity);
        let ghost spec = commit_layer_spec::<Blake2sMerkleHasherGeneric<IS_M31_OUTPUT>>(
            log_size as nat,
            layer_view(prev_layer),
            columns_view(columns@),
        );
        let mut i: usize = 0;
        while i < size
            invariant
                size == pow2(log_size as nat),
                i <= size,
                out@.len() == i,
                match prev_layer {
                    Some(p) => p@.len() >= 2 * pow2(log_size as nat),
                    None => true,
                },
                forall|c: int| 0 <= c < columns@.len() ==> #[trigger] columns@[c]@.len() >= pow2(log_size as nat),
                spec == commit_layer_spec::<Blake2sMerkleHasherGeneric<IS_M31_OUTPUT>>(
                    log_size as nat,
                    layer_view(prev_layer),
                    columns_view(columns@),
                ),
                forall|k: int| 0 <= k < i ==> #[trigger] out@[k]@ == spec[k],
            decreases size - i,
        {
            buf.clear();
            match prev_layer {
                Some(p) => {
                    let _n = p.len();
                    push_hash(&mut buf, &p.at(2 * i));
                    push_hash(&mut buf, &p.at(2 * i + 1));
                },
                None => {},
            }
            let ghost start = buf@;
            let mut c: usize = 0;
            while c < columns.len()
                invariant
                    c <= columns@.len(),
                    i < size,
                    size == pow2(log_size as nat),
                    forall|k: int| 0 <= k < columns@.len() ==> #[trigger] columns@[k]@.len() >= pow2(log_size as nat),
                    buf@ == start + values_le_bytes(row(columns_view(columns@), i as int).subrange(0, c as int)),
                decreases columns@.len() - c,
            {
                push_u32_le(&mut buf, columns[c].at(i).0);
                proof {
                    let rw = row(columns_view(columns@), i as int);
                    assert(rw.subrange(0, c + 1).drop_last() =~= rw.subrange(0, c as int));
                    assert(rw.subrange(0, c + 1).last() == columns@[c as int]@[i as int]);
                }
                c = c + 1;
            }
            proof {
                let rw = row(columns_view(columns@), i as int);
                assert(rw.subrange(0, c as int) =~= rw);
                assert(buf@ =~= node_preimage(children_at(layer_view(prev_layer), i as int), rw));
            }
            let h = hash_bytes(buf.as_slice(), IS_M31_OUTPUT);
            out.push(h);
            i = i + 1;
        }
        let r = Blake2sHashVec::from_vec(out);
        assert(r@ =~= spec);
        r
    }
}

} // verus!

verus! {

/// `s` is strictly increasing.
pub open spec fn strictly_increasing(s: Seq<int>) -> bool {
    forall|i: int, j: int| 0 <= i < j < s.len() ==> #[trigger] s[i] < #[trigger] s[j]
}

/// Two strictly increasing sequences with the same elements are equal.
pub proof fn lemma_sorted_unique(a: Seq<int>, b: Seq<int>)
    requires
        strictly_increasing(a),
        strictly_increasing(b),
        forall|x: int| a.contains(x) <==> b.contains(x),
    ensures
        a == b,
    decreases a.len() + b.len(),
{
    if a.len() == 0 {
        if b.len() > 0 {
            assert(b.contains(b[0]));
        }
        assert(a =~= b);
    } else if b.len() == 0 {
        assert(a.contains(a[0]));
    } else {
        assert(a.contains(a[0]));
        assert(b.contains(b[0]));
        let i = choose|i: int| 0 <= i < b.len() && b[i] == a[0];
        let j = choose|j: int| 0 <= j < a.len() && a[j] == b[0];
        if i > 0 {
            assert(b[0] < b[i]);
        }
        if j > 0 {
            assert(a[0] < a[j]);
        }
        assert(a[0] == b[0]);
        let a1 = a.drop_first();
        let b1 = b.drop_first();
        assert forall|x: int| a1.contains(x) <==> b1.contains(x) by {
            if a1.contains(x) {
                let k = choose|k: int| 0 <= k < a1.len() && a1[k] == x;
                assert(a[k + 1] == x);
                assert(a.contains(x));
                assert(a[0] < a[k + 1]);
                let m = choose|m: int| 0 <= m < b.len() && b[m] == x;
                assert(m != 0);
                assert(b1[m - 1] == x);
            }
            if b1.contains(x) {
                let k = choose|k: int| 0 <= k < b1.len() && b1[k] == x;
                assert(b[k + 1] == x);
                assert(b.contains(x));
                assert(b[0] < b[k + 1]);
                let m = choose|m: int| 0 <= m < a.len() && a[m] == x;
                assert(m != 0);
                assert(a1[m - 1] == x);
            }
        }
        lemma_sorted_unique(a1, b1);
        assert(a =~= seq![a[0]] + a1);
        assert(b =~= seq![b[0]] + b1);
    }
}

/// The lengths of a list of columns.
pub open spec fn lens_of(columns: Seq<Seq<M31>>) -> Seq<nat> {
    columns.map_values(|c: Seq<M31>| c.len())
}

/// The positions of the lengths whose logarithm is `l`, in increasing order.
pub open spec fn log_indices(lens: Seq<nat>, l: nat) -> Seq<int>
    decreases lens.len(),
{
    if lens.len() == 0 {
        Seq::empty()
    } else if crate::utils::ilog2(lens.last()) == l {
        log_indices(lens.drop_last(), l).push(lens.len() - 1)
    } else {
        log_indices(lens.drop_last(), l)
    }
}

/// The columns of length `2^l` (for power-of-two lengths), in input order.
pub open spec fn layer_columns(columns: Seq<Seq<M31>>, l: nat) -> Seq<Seq<M31>> {
    log_indices(lens_of(columns), l).map_values(|i: int| columns[i])
}

/// The largest length (0 for none).
pub open spec fn max_len(lens: Seq<nat>) -> nat
    decreases lens.len(),
{
    if lens.len() == 0 {
        0
    } else {
        vstd::math::max(max_len(lens.drop_last()) as int, lens.last() as int) as nat
    }
}

/// Layer `top - d` of the Merkle tree over `columns` whose largest layer has
/// `2^top` nodes: the largest layer hashes the largest columns, and each
/// smaller layer hashes the layer above it and the columns of its size.
pub open spec fn tree_layer<H: MerkleHasher>(columns: Seq<Seq<M31>>, top: nat, d: nat) -> Seq<Seq<u8>>
    decreases d,
{
    if d == 0 {
        commit_layer_spec::<H>(top, None, layer_columns(columns, top))
    } else {
        commit_layer_spec::<H>(
            (top - d) as nat,
            Some(tree_layer::<H>(columns, top, (d - 1) as nat)),
            layer_columns(columns, (top - d) as nat),
        )
    }
}

/// The number of layers below the root of the tree over columns of the given lengths.
pub open spec fn tree_height(lens: Seq<nat>) -> nat {
    crate::utils::ilog2(max_len(lens))
}

proof fn lemma_log_indices(lens: Seq<nat>, l: nat)
    ensures
        strictly_increasing(log_indices(lens, l)),
        forall|x: int| log_indices(lens, l).contains(x) <==> (0 <= x < lens.len() && crate::utils::ilog2(lens[x]) == l),
        forall|k: int| 0 <= k < log_indices(lens, l).len() ==> 0 <= #[trigger] log_indices(lens, l)[k] < lens.len(),
    decreases lens.len(),
{
    if lens.len() > 0 {
        let p = lens.drop_last();
        lemma_log_indices(p, l);
        let q = log_indices(p, l);
        if crate::utils::ilog2(lens.last()) == l {
            let r = q.push(lens.len() - 1);
            assert forall|x: int| r.contains(x) <==> (0 <= x < lens.len() && crate::utils::ilog2(lens[x]) == l) by {
                if r.contains(x) {
                    let k = choose|k: int| 0 <= k < r.len() && r[k] == x;
                    if k < q.len() {
                        assert(q.contains(x));
                        assert(lens[x] == p[x]);
                    }
                }
                if 0 <= x < lens.len() && crate::utils::ilog2(lens[x]) == l {
                    if x < lens.len() - 1 {
                        assert(p[x] == lens[x]);
                        assert(q.contains(x));
                        let k = choose|k: int| 0 <= k < q.len() && q[k] == x;
                        assert(r[k] == x);
                    } else {
                        assert(r[q.len() as int] == x);
                    }
                }
            }
        } else {
            assert forall|x: int| q.contains(x) <==> (0 <= x < lens.len() && crate::utils::ilog2(lens[x]) == l) by {
                if 0 <= x < lens.len() - 1 {
                    assert(p[x] == lens[x]);
                }
            }
        }
    }
}

proof fn lemma_max_len(lens: Seq<nat>)
    ensures
        forall|i: int| 0 <= i < lens.len() ==> #[trigger] lens[i] <= max_len(lens),
        lens.len() > 0 ==> lens.contains(max_len(lens)),
    decreases lens.len(),
{
    if lens.len() > 0 {
        let p = lens.drop_last();
        lemma_max_len(p);
        assert forall|i: int| 0 <= i < lens.len() implies #[trigger] lens[i] <= max_len(lens) by {
            if i < lens.len() - 1 {
                assert(lens[i] == p[i]);
            }
        }
        if max_len(lens) == lens.last() {
            assert(lens[lens.len() - 1] == lens.last());
        } else {
            let k = choose|k: int| 0 <= k < p.len() && p[k] == max_len(p);
            assert(lens[k] == p[k]);
        }
    }
}

} // verus!

verus! {

/// A pair is in a permutation of a sequence exactly when it is in the sequence.
proof fn lemma_perm_contains(s: Seq<(usize, usize)>, items: Seq<(usize, usize)>)
    requires
        s.to_multiset() == items.to_multiset(),
    ensures
        forall|p: (usize, usize)| s.contains(p) <==> items.contains(p),
        s.len() == items.len(),
{
    s.to_multiset_ensures();
    items.to_multiset_ensures();
    assert forall|p: (usize, usize)| s.contains(p) <==> items.contains(p) by {
        assert(s.contains(p) <==> s.to_multiset().count(p) > 0);
        assert(items.contains(p) <==> items.to_multiset().count(p) > 0);
    }
}

/// In the stably sorted list of `(length, index)` pairs, the indices of the
/// run of lengths with logarithm `log` are the indices of those lengths, in
/// increasing order.
proof fn lemma_run_is_log_indices(
    lens: Seq<nat>,
    items: Seq<(usize, usize)>,
    s: Seq<(usize, usize)>,
    c0: int,
    c1: int,
    log: nat,
)
    requires
        items.len() == lens.len(),
        forall|i: int| 0 <= i < items.len() ==> #[trigger] items[i].0 == lens[i] && items[i].1 == i,
        forall|i: int| 0 <= i < lens.len() ==> #[trigger] lens[i] >= 1 && pow2(crate::utils::ilog2(lens[i])) == lens[i],
        forall|p: (usize, usize)| s.contains(p) <==> items.contains(p),
        forall|i: int, j: int| 0 <= i < j < s.len() && #[trigger] s[i].0 == #[trigger] s[j].0 ==> s[i].1 < s[j].1,
        0 <= c0 <= c1 <= s.len(),
        forall|k: int| 0 <= k < c0 ==> crate::utils::ilog2(#[trigger] s[k].0 as nat) > log,
        forall|k: int| c0 <= k < c1 ==> crate::utils::ilog2(#[trigger] s[k].0 as nat) == log,
        forall|k: int| c1 <= k < s.len() ==> crate::utils::ilog2(#[trigger] s[k].0 as nat) < log,
    ensures
        Seq::new((c1 - c0) as nat, |t: int| s[c0 + t].1 as int) == log_indices(lens, log),
{
    let r = Seq::new((c1 - c0) as nat, |t: int| s[c0 + t].1 as int);
    assert forall|k: int| 0 <= k < s.len() implies (#[trigger] s[k]).0 == lens[s[k].1 as int] && s[k].1 < lens.len() by {
        assert(s.contains(s[k]));
        assert(items.contains(s[k]));
        let i = choose|i: int| 0 <= i < items.len() && items[i] == s[k];
    }
    assert forall|t: int, u: int| 0 <= t < u < r.len() implies #[trigger] r[t] < #[trigger] r[u] by {
        let a = s[c0 + t];
        let b = s[c0 + u];
        assert(crate::utils::ilog2(a.0 as nat) == log);
        assert(crate::utils::ilog2(b.0 as nat) == log);
        assert(a.0 == lens[a.1 as int]);
        assert(b.0 == lens[b.1 as int]);
        assert(a.0 == b.0);
    }
    lemma_log_indices(lens, log);
    assert forall|x: int| r.contains(x) <==> log_indices(lens, log).contains(x) by {
        if r.contains(x) {
            let t = choose|t: int| 0 <= t < r.len() && r[t] == x;
            let p = s[c0 + t];
            assert(p.0 == lens[p.1 as int]);
        }
        if log_indices(lens, log).contains(x) {
            assert(0 <= x < lens.len() && crate::utils::ilog2(lens[x]) == log);
            assert(items[x].0 == lens[x]);
            assert(items.contains(items[x]));
            assert(s.contains(items[x]));
            let k = choose|k: int| 0 <= k < s.len() && s[k] == items[x];
            assert(c0 <= k < c1);
            assert(r[k - c0] == x);
        }
    }
    lemma_sorted_unique(r, log_indices(lens, log));
}

} // verus!

verus! {

/// Layer `top - d` of the tree has `2^(top - d)` nodes.
pub proof fn lemma_tree_layer_len<H: MerkleHasher>(columns: Seq<Seq<M31>>, top: nat, d: nat)
    requires
        d <= top,
    ensures
        tree_layer::<H>(columns, top, d).len() == pow2((top - d) as nat),
{
}

/// The columns of a layer of the tree over power-of-two lengths have exactly the layer's size.
pub proof fn lemma_layer_columns_lengths(columns: Seq<Seq<M31>>, l: nat)
    requires
        pow2_lengths(lens_of(columns)),
    ensures
        forall|c: int| 0 <= c < layer_columns(columns, l).len() ==> #[trigger] layer_columns(columns, l)[c].len() == pow2(l),
{
    lemma_log_indices(lens_of(columns), l);
    assert forall|c: int| 0 <= c < layer_columns(columns, l).len() implies #[trigger] layer_columns(columns, l)[c].len()
        == pow2(l) by {
        let x = log_indices(lens_of(columns), l)[c];
        assert(log_indices(lens_of(columns), l).contains(x));
        assert(lens_of(columns)[x] == columns[x].len());
    }
}

/// Groups power-of-two-length columns by size, from size `2^top` down to size 1:
/// group `d` holds the columns of length `2^(top - d)`, in input order. The
/// grouping sorts the columns by decreasing length (stably) and splits the
/// sorted list into runs.
pub(crate) fn group_columns<'a>(columns: &Vec<&'a BaseFieldVec>, top: u32) -> (r: Vec<Vec<&'a BaseFieldVec>>)
    requires
        pow2_lengths(lens_of(columns_view(columns@))),
        top < 64,
        forall|c: int| 0 <= c < columns@.len() ==> crate::utils::ilog2(#[trigger] columns@[c]@.len()) <= top,
    ensures
        r@.len() == top + 1,
        forall|e: int| 0 <= e <= top ==> #[trigger] columns_view(r@[e]@) == layer_columns(columns_view(columns@), (top - e) as nat),
{
    let ghost cv = columns_view(columns@);
    let ghost lens = lens_of(cv);
    let n = columns.len();
    let mut items: Vec<(usize, usize)> = Vec::new();
    let mut i: usize = 0;
    while i < n
        invariant
            n == columns@.len(),
            i <= n,
            items@.len() == i,
            forall|j: int| 0 <= j < i ==> #[trigger] items@[j].0 as nat == columns@[j]@.len() && items@[j].1 == j,
        decreases n - i,
    {
        items.push((columns[i].len(), i));
        i = i + 1;
    }
    let ghost items_v = items@;
    assert forall|j: int| 0 <= j < items_v.len() implies #[trigger] items_v[j].0 == lens[j] && items_v[j].1 == j by {
        assert(lens[j] == cv[j].len());
    }
    assert forall|a: int, b: int| 0 <= a < b < items@.len() implies #[trigger] items@[a].1 < #[trigger] items@[b].1 by {
        assert(items@[a].0 as nat == columns@[a]@.len());
        assert(items@[b].0 as nat == columns@[b]@.len());
    }
    let s = sorted_by_key_desc(items);
    proof {
        lemma_perm_contains(s@, items_v);
        assert forall|k: int| 0 <= k < s@.len() implies crate::utils::ilog2(#[trigger] s@[k].0 as nat) <= top by {
            assert(s@.contains(s@[k]));
            let j = choose|j: int| 0 <= j < items_v.len() && items_v[j] == s@[k];
            assert(cv[j] == columns@[j]@);
        }
    }
    let mut groups: Vec<Vec<&'a BaseFieldVec>> = Vec::new();
    let mut cursor: usize = 0;
    let mut d: u32 = 0;
    let ghost sv = s@;
    while d <= top
        invariant
            sv == s@,
            n == columns@.len(),
            cv == columns_view(columns@),
            lens == lens_of(cv),
            pow2_lengths(lens),
            top < 64,
            items_v.len() == lens.len(),
            forall|j: int| 0 <= j < items_v.len() ==> #[trigger] items_v[j].0 == lens[j] && items_v[j].1 == j,
            forall|p: (usize, usize)| sv.contains(p) <==> items_v.contains(p),
            sv.len() == items_v.len(),
            forall|a: int, b: int| 0 <= a < b < sv.len() ==> #[trigger] sv[a].0 >= #[trigger] sv[b].0,
            forall|a: int, b: int| 0 <= a < b < sv.len() && #[trigger] sv[a].0 == #[trigger] sv[b].0 ==> sv[a].1 < sv[b].1,
            d <= top + 1,
            groups@.len() == d,
            forall|e: int| 0 <= e < d ==> #[trigger] columns_view(groups@[e]@) == layer_columns(cv, (top - e) as nat),
            cursor <= sv.len(),
            forall|k: int| 0 <= k < cursor ==> crate::utils::ilog2(#[trigger] sv[k].0 as nat) > top - d,
            forall|k: int| cursor <= k < sv.len() ==> crate::utils::ilog2(#[trigger] sv[k].0 as nat) <= top - d,
        decreases top + 1 - d,
    {
        let log: u32 = top - d;
        let c0 = cursor;
        let mut layer_cols: Vec<&'a BaseFieldVec> = Vec::new();
        proof {
            assert forall|k: int| 0 <= k < sv.len() implies (#[trigger] sv[k]).0 == lens[sv[k].1 as int] && sv[k].1 < n
                && sv[k].0 >= 1 by {
                assert(sv.contains(sv[k]));
                let j = choose|j: int| 0 <= j < items_v.len() && items_v[j] == sv[k];
            }
        }
        while cursor < s.len() && ilog2_usize(s[cursor].0) == log
            invariant
                sv == s@,
                n == columns@.len(),
                cv == columns_view(columns@),
                lens == lens_of(cv),
                c0 <= cursor <= sv.len(),
                layer_cols@.len() == cursor - c0,
                forall|t: int| 0 <= t < layer_cols@.len() ==> #[trigger] layer_cols@[t] == columns@[sv[c0 + t].1 as int],
                forall|k: int| c0 <= k < cursor ==> crate::utils::ilog2(#[trigger] sv[k].0 as nat) == log,
                forall|k: int| 0 <= k < sv.len() ==> (#[trigger] sv[k]).0 == lens[sv[k].1 as int] && sv[k].1 < n
                    && sv[k].0 >= 1,
            decreases sv.len() - cursor,
        {
            layer_cols.push(columns[s[cursor].1]);
            cursor = cursor + 1;
        }
        proof {
            assert forall|k: int| cursor <= k < sv.len() implies crate::utils::ilog2(#[trigger] sv[k].0 as nat) < log by {
                let x = sv[cursor as int].0 as nat;
                assert(crate::utils::ilog2(x) < log);
                crate::utils::lemma_ilog2_bounds(x);
                crate::utils::lemma_pow2_mono(crate::utils::ilog2(x) + 1, log as nat);
                let y = sv[k].0 as nat;
                assert(y <= x);
                crate::utils::lemma_ilog2_bounds(y);
                if crate::utils::ilog2(y) >= log {
                    crate::utils::lemma_pow2_mono(log as nat, crate::utils::ilog2(y));
                }
            }
            lemma_run_is_log_indices(lens, items_v, sv, c0 as int, cursor as int, log as nat);
            let run = Seq::new((cursor - c0) as nat, |t: int| sv[c0 + t].1 as int);
            assert(run == log_indices(lens, log as nat));
            assert(columns_view(layer_cols@) =~= layer_columns(cv, log as nat)) by {
                assert forall|t: int| 0 <= t < layer_cols@.len() implies #[trigger] columns_view(layer_cols@)[t]
                    == layer_columns(cv, log as nat)[t] by {
                    assert(run[t] == sv[c0 + t].1);
                }
            }
        }
        groups.push(layer_cols);
        d = d + 1;
    }
    groups
}

/// The prover side of a Merkle commitment to base field columns.
pub struct MerkleProver<H> {
    /// The layers of the tree: the first is the root layer, and layer `k` has
    /// `2^k` nodes.
    pub layers: Vec<Blake2sHashVec>,
    /// The hasher the tree is built with.
    pub hasher: core::marker::PhantomData<H>,
}

/// Every length is a positive power of two.
pub open spec fn pow2_lengths(lens: Seq<nat>) -> bool {
    forall|i: int| 0 <= i < lens.len() ==> #[trigger] lens[i] >= 1 && pow2(crate::utils::ilog2(lens[i])) == lens[i]
}

impl<H> MerkleProver<H> {
    /// Layer `k` has `2^k` nodes, and there is at least the root layer.
    pub open spec fn wf(&self) -> bool {
        &&& self.layers@.len() >= 1
        &&& forall|k: int| 0 <= k < self.layers@.len() ==> #[trigger] self.layers@[k]@.len() == pow2(k as nat)
    }
}

impl<const IS_M31_OUTPUT: bool> MerkleProver<Blake2sMerkleHasherGeneric<IS_M31_OUTPUT>> {
    /// Commits to columns of power-of-two lengths. The tree has one layer per
    /// size from the largest column's length down to a single root node; each
    /// layer hashes the layer above it and the columns of its size, in input
    /// order. Without columns the tree is a single root node over nothing.
    pub fn commit(columns: Vec<&BaseFieldVec>) -> (r: Self)
        requires
            pow2_lengths(lens_of(columns_view(columns@))),
        ensures
            r.wf(),
            r.layers@.len() == tree_height(lens_of(columns_view(columns@))) + 1,
            forall|k: int|
                0 <= k < r.layers@.len() ==> #[trigger] r.layers@[k]@ == tree_layer::<Blake2sMerkleHasherGeneric<IS_M31_OUTPUT>>(
                    columns_view(columns@),
                    tree_height(lens_of(columns_view(columns@))),
                    (tree_height(lens_of(columns_view(columns@))) - k) as nat,
                ),
    {
        let ghost cv = columns_view(columns@);
        let ghost lens = lens_of(cv);
        let mut longest: usize = 0;
        let mut i: usize = 0;
        while i < columns.len()
            invariant
                i <= columns@.len(),
                cv == columns_view(columns@),
                lens == lens_of(cv),
                longest == max_len(lens.subrange(0, i as int)),
            decreases columns@.len() - i,
        {
            let len = columns[i].len();
            assert(lens.subrange(0, i + 1).drop_last() =~= lens.subrange(0, i as int));
            if len > longest {
                longest = len;
            }
            i = i + 1;
        }
        assert(lens.subrange(0, i as int) =~= lens);
        let top: u32 = if longest == 0 {
            0
        } else {
            ilog2_usize(longest)
        };
        proof {
            lemma_max_len(lens);
            assert forall|c: int| 0 <= c < columns@.len() implies crate::utils::ilog2(#[trigger] columns@[c]@.len()) <= top by {
                assert(lens[c] == columns@[c]@.len());
                crate::utils::lemma_ilog2_mono(lens[c], longest as nat);
            }
            if longest > 0 {
                crate::utils::lemma_ilog2_bounds(longest as nat);
            }
        }
        let groups = group_columns(&columns, top);
        let mut rev: Vec<Blake2sHashVec> = Vec::new();
        let mut d: u32 = 0;
        while d <= top
            invariant
                cv == columns_view(columns@),
                top == tree_height(lens_of(cv)),
                top < 64,
                pow2(top as nat) <= usize::MAX,
                pow2_lengths(lens_of(cv)),
                groups@.len() == top + 1,
                forall|e: int| 0 <= e <= top ==> #[trigger] columns_view(groups@[e]@) == layer_columns(cv, (top - e) as nat),
                d <= top + 1,
                rev@.len() == d,
                forall|j: int| 0 <= j < d ==> #[trigger] rev@[j]@ == tree_layer::<Blake2sMerkleHasherGeneric<IS_M31_OUTPUT>>(
                    cv,
                    top as nat,
                    j as nat,
                ),
            decreases top + 1 - d,
        {
            let log: u32 = top - d;
            proof {
                lemma_layer_columns_lengths(cv, log as nat);
                assert(columns_view(groups@[d as int]@) == layer_columns(cv, log as nat));
                assert forall|c: int| 0 <= c < groups@[d as int]@.len() implies #[trigger] groups@[d as int]@[c]@.len()
                    >= pow2(log as nat) by {
                    assert(columns_view(groups@[d as int]@)[c] == groups@[d as int]@[c]@);
                }
                crate::utils::lemma_pow2_mono(log as nat, top as nat);
                if d > 0 {
                    assert(pow2((log + 1) as nat) == 2 * pow2(log as nat));
                }
            }
            let layer = if d == 0 {
                <CudaBackend as MerkleOps<Blake2sMerkleHasherGeneric<IS_M31_OUTPUT>>>::commit_on_layer(
                    log,
                    None,
                    groups[d as usize].as_slice(),
                )
            } else {
                <CudaBackend as MerkleOps<Blake2sMerkleHasherGeneric<IS_M31_OUTPUT>>>::commit_on_layer(
                    log,
                    Some(&rev[(d - 1) as usize]),
                    groups[d as usize].as_slice(),
                )
            };
            rev.push(layer);
            d = d + 1;
        }
        let mut layers: Vec<Blake2sHashVec> = Vec::new();
        while rev.len() > 0
            invariant
                layers@.len() + rev@.len() == top + 1,
                forall|j: int| 0 <= j < rev@.len() ==> #[trigger] rev@[j]@ == tree_layer::<Blake2sMerkleHasherGeneric<IS_M31_OUTPUT>>(
                    cv,
                    top as nat,
                    j as nat,
                ),
                forall|j: int| 0 <= j < layers@.len() ==> #[trigger] layers@[j]@ == tree_layer::<Blake2sMerkleHasherGeneric<IS_M31_OUTPUT>>(
                    cv,
                    top as nat,
                    (top - j) as nat,
                ),
            decreases rev@.len(),
        {
            let l = rev.pop().unwrap();
            layers.push(l);
        }
        let r = MerkleProver { layers, hasher: core::marker::PhantomData };
        proof {
            assert forall|k: int| 0 <= k < r.layers@.len() implies #[trigger] r.layers@[k]@.len() == pow2(k as nat) by {
                lemma_tree_layer_len::<Blake2sMerkleHasherGeneric<IS_M31_OUTPUT>>(cv, top as nat, (top - k) as nat);
            }
        }
        r
    }

    /// The root of the tree: the only node of the first layer.
    pub fn root(&self) -> (r: Blake2sHash)
        requires
            self.layers@.len() > 0,
            self.layers@[0]@.len() > 0,
        ensures
            r@ == self.layers@[0]@[0],
    {
        self.layers[0].at(0)
    }
}

} // verus!

verus! {

/// The layer above `prev` in a lifted Merkle tree: node `i` hashes nodes
/// `2i` and `2i + 1` of `prev`.
pub open spec fn next_layer_spec(prev: Seq<Seq<u8>>, m31: bool) -> Seq<Seq<u8>> {
    Seq::new(prev.len() / 2, |i: int| crate::hash::hash_output(prev[2 * i] + prev[2 * i + 1], m31))
}

/// The lifted Merkle operations a backend provides for a hasher.
pub trait MerkleOpsLifted<H> {
    /// Whether the hasher reduces its outputs modulo `P`.
    spec fn m31_output() -> bool;

    /// Builds the next (half as large) layer of a lifted Merkle tree.
    fn build_next_layer(prev_layer: &Blake2sHashVec) -> (r: Blake2sHashVec)
        ensures
            r@ == next_layer_spec(prev_layer@, Self::m31_output()),
    ;
}

impl<const IS_M31_OUTPUT: bool> MerkleOpsLifted<Blake2sMerkleHasherGeneric<IS_M31_OUTPUT>> for CudaBackend {
    open spec fn m31_output() -> bool {
        IS_M31_OUTPUT
    }

    fn build_next_layer(prev_layer: &Blake2sHashVec) -> (r: Blake2sHashVec) {
        if prev_layer.len() == 0 {
            let r = Blake2sHashVec::from_vec(Vec::new());
            assert(r@ =~= next_layer_spec(prev_layer@, IS_M31_OUTPUT));
            return r;
        }
        let n = prev_layer.len();
        let output_size = n / 2;
        let mut out: Vec<Blake2sHash> = Vec::new();
        let mut i: usize = 0;
        while i < output_size
            invariant
                n == prev_layer@.len(),
                output_size == prev_layer@.len() / 2,
                i <= output_size,
                out@.len() == i,
                forall|k: int| 0 <= k < i ==> #[trigger] out@[k]@ == next_layer_spec(prev_layer@, IS_M31_OUTPUT)[k],
            decreases output_size - i,
        {
            let left = prev_layer.at(2 * i);
            let right = prev_layer.at(2 * i + 1);
            let h = Blake2sMerkleHasherGeneric::<IS_M31_OUTPUT>::hash_children((left, right));
            out.push(h);
            i = i + 1;
        }
        let r = Blake2sHashVec::from_vec(out);
        assert(r@ =~= next_layer_spec(prev_layer@, IS_M31_OUTPUT));
        r
    }
}

} // verus!

verus! {

/// A Merkle layer of the hasher with M31 outputs is the layer of the plain
/// hasher with each hash reduced modulo `P` word by word.
pub proof fn lemma_m31_layer_is_reduced_layer(log_size: nat, prev: Option<Seq<Seq<u8>>>, columns: Seq<Seq<M31>>)
    ensures
        commit_layer_spec::<Blake2sMerkleHasherGeneric<true>>(log_size, prev, columns) == commit_layer_spec::<
            Blake2sMerkleHasherGeneric<false>,
        >(log_size, prev, columns).map_values(|h: Seq<u8>| crate::hash::reduce_to_m31_spec(h)),
{
    assert(commit_layer_spec::<Blake2sMerkleHasherGeneric<true>>(log_size, prev, columns) =~= commit_layer_spec::<
        Blake2sMerkleHasherGeneric<false>,
    >(log_size, prev, columns).map_values(|h: Seq<u8>| crate::hash::reduce_to_m31_spec(h)));
}

/// The longest column of `c1` is no longer than some column of `c2` when
/// both have the same columns of each size.
proof fn lemma_max_len_covered(c1: Seq<Seq<M31>>, c2: Seq<Seq<M31>>)
    requires
        c1.len() > 0,
        forall|l: nat| #[trigger] layer_columns(c1, l) == layer_columns(c2, l),
    ensures
        c2.len() > 0,
        max_len(lens_of(c1)) <= max_len(lens_of(c2)),
{
    let lens1 = lens_of(c1);
    let lens2 = lens_of(c2);
    lemma_max_len(lens1);
    lemma_max_len(lens2);
    let m = max_len(lens1);
    let x = choose|x: int| 0 <= x < lens1.len() && lens1[x] == m;
    let l = crate::utils::ilog2(m);
    lemma_log_indices(lens1, l);
    lemma_log_indices(lens2, l);
    assert(log_indices(lens1, l).contains(x));
    let k = choose|k: int| 0 <= k < log_indices(lens1, l).len() && log_indices(lens1, l)[k] == x;
    assert(layer_columns(c1, l) == layer_columns(c2, l));
    assert(layer_columns(c1, l)[k] == c1[x]);
    let y = log_indices(lens2, l)[k];
    assert(layer_columns(c2, l)[k] == c2[y]);
    assert(0 <= y < lens2.len());
    assert(lens2[y] == c2[y].len());
}

/// A commitment depends on the columns only through the columns of each size,
/// each in input order: putting columns of different sizes in another order,
/// while keeping the order among columns of one size, gives the same height
/// and the same layers, hence the same root.
pub proof fn lemma_commit_depends_on_columns_by_size<H: MerkleHasher>(c1: Seq<Seq<M31>>, c2: Seq<Seq<M31>>)
    requires
        forall|l: nat| #[trigger] layer_columns(c1, l) == layer_columns(c2, l),
    ensures
        tree_height(lens_of(c1)) == tree_height(lens_of(c2)),
        forall|top: nat, d: nat| #[trigger] tree_layer::<H>(c1, top, d) == tree_layer::<H>(c2, top, d),
{
    if c1.len() > 0 {
        lemma_max_len_covered(c1, c2);
        lemma_max_len_covered(c2, c1);
    } else if c2.len() > 0 {
        lemma_max_len_covered(c2, c1);
    } else {
        assert(lens_of(c1) =~= lens_of(c2));
    }
    assert forall|top: nat, d: nat| #[trigger] tree_layer::<H>(c1, top, d) == tree_layer::<H>(c2, top, d) by {
        lemma_tree_layer_same::<H>(c1, c2, top, d);
    }
}

proof fn lemma_tree_layer_same<H: MerkleHasher>(c1: Seq<Seq<M31>>, c2: Seq<Seq<M31>>, top: nat, d: nat)
    requires
        forall|l: nat| #[trigger] layer_columns(c1, l) == layer_columns(c2, l),
    ensures
        tree_layer::<H>(c1, top, d) == tree_layer::<H>(c2, top, d),
    decreases d,
{
    assert(layer_columns(c1, top) == layer_columns(c2, top));
    assert(layer_columns(c1, (top - d) as nat) == layer_columns(c2, (top - d) as nat));
    if d > 0 {
        lemma_tree_layer_same::<H>(c1, c2, top, (d - 1) as nat);
    }
}

/// How the leaves of a lifted tree are built from its columns.
#[derive(Clone, Copy, Debug, PartialEq, Eq, Structural)]
pub enum LeavesPath {
    /// There are no columns.
    NoColumns,
    /// All columns have the lifting size: one fused pass over all of them.
    Fused,
    /// Columns of several sizes: built size by size.
    PerSize,
}

/// Chooses how to build the leaves over columns of lengths `column_lens`
/// for a tree of `2^lifting_log_size` leaves: the fused pass when every
/// column is as long as the first and the last has the lifting size.
pub fn build_leaves_path(column_lens: &Vec<usize>, lifting_log_size: u32) -> (r: LeavesPath)
    requires
        column_lens@.len() > 0 ==> column_lens@[0] >= 2 && column_lens@.last() >= 1,
    ensures
        r == if column_lens@.len() == 0 {
            LeavesPath::NoColumns
        } else if (forall|i: int| 0 <= i < column_lens@.len() ==> #[trigger] column_lens@[i] == column_lens@[0])
            && crate::utils::ilog2(column_lens@.last() as nat) == lifting_log_size {
            LeavesPath::Fused
        } else {
            LeavesPath::PerSize
        },
{
    let n = column_lens.len();
    if n == 0 {
        return LeavesPath::NoColumns;
    }
    let first = column_lens[0];
    let mut all_same = true;
    let mut i: usize = 0;
    while i < n
        invariant
            n == column_lens@.len(),
            n > 0,
            first == column_lens@[0],
            i <= n,
            all_same == forall|k: int| 0 <= k < i ==> #[trigger] column_lens@[k] == first,
        decreases n - i,
    {
        if column_lens[i] != first {
            all_same = false;
        }
        i = i + 1;
    }
    let max_log_size = crate::utils::ilog2_usize(column_lens[n - 1]);
    if all_same && max_log_size == lifting_log_size {
        LeavesPath::Fused
    } else {
        LeavesPath::PerSize
    }
}

/// A lifted layer is the committed layer over its previous layer with no
/// columns: node `i` of the layer above a layer of `2 * 2^log_size` nodes
/// hashes node `2i` followed by node `2i + 1`, exactly as `commit_on_layer`
/// and `hash_children` hash that pair of children.
pub proof fn lemma_next_layer_hashes_child_pairs(prev: Seq<Seq<u8>>, log_size: nat)
    requires
        prev.len() == 2 * pow2(log_size),
    ensures
        next_layer_spec(prev, false) == commit_layer_spec::<Blake2sMerkleHasherGeneric<false>>(log_size, Some(prev), Seq::empty()),
        next_layer_spec(prev, true) == commit_layer_spec::<Blake2sMerkleHasherGeneric<true>>(log_size, Some(prev), Seq::empty()),
        next_layer_spec(prev, false).len() == pow2(log_size),
        forall|m31: bool, i: int|
            0 <= i < pow2(log_size) ==> #[trigger] next_layer_spec(prev, m31)[i] == crate::hash::hash_output(
                prev[2 * i] + prev[2 * i + 1],
                m31,
            ),
{
    assert(values_le_bytes(Seq::<M31>::empty()) =~= Seq::<u8>::empty());
    assert forall|i: int| 0 <= i < pow2(log_size) implies #[trigger] row(Seq::<Seq<M31>>::empty(), i) == Seq::<M31>::empty() by {
        assert(row(Seq::<Seq<M31>>::empty(), i) =~= Seq::<M31>::empty());
    }
    assert forall|i: int| 0 <= i < pow2(log_size) implies prev[2 * i] + prev[2 * i + 1] + values_le_bytes(
        #[trigger] row(Seq::<Seq<M31>>::empty(), i),
    ) == prev[2 * i] + prev[2 * i + 1] by {
        assert(prev[2 * i] + prev[2 * i + 1] + Seq::<u8>::empty() =~= prev[2 * i] + prev[2 * i + 1]);
    }
    assert(next_layer_spec(prev, false) =~= commit_layer_spec::<Blake2sMerkleHasherGeneric<false>>(log_size, Some(prev), Seq::empty()));
    assert(next_layer_spec(prev, true) =~= commit_layer_spec::<Blake2sMerkleHasherGeneric<true>>(log_size, Some(prev), Seq::empty()));
}

} // verus!

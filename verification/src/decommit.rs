use vstd::prelude::*;
use std::collections::BTreeMap;
use crate::fields::{BaseField, M31};
use crate::hash::{Blake2sHash, Blake2sMerkleHasherGeneric};
use crate::column::{BaseFieldVec, Blake2sHashVec};
use crate::merkle::{MerkleProver, columns_view, lens_of, layer_columns, pow2_lengths, row, group_columns};
use crate::utils::pow2;

verus! {

/// The hashes of the nodes of one Merkle layer that a decommitment touches,
/// keyed by node index.
#[verifier::external_body]
pub struct NodeValues {
    map: hashbrown::HashMap<usize, Blake2sHash>,
}

/// The contents of a node value map, each hash by its bytes.
pub uninterp spec fn node_values_contents(m: NodeValues) -> Map<usize, Seq<u8>>;

/// Calls `hashbrown::HashMap::with_capacity`: an empty map.
#[verifier::external_body]
fn node_values_with_capacity(capacity: usize) -> (r: NodeValues)
    ensures
        node_values_contents(r) == empty_node_values(capacity),
{
    NodeValues { map: hashbrown::HashMap::with_capacity(capacity) }
}

/// No node values, whatever capacity was reserved.
pub open spec fn empty_node_values(capacity: usize) -> Map<usize, Seq<u8>> {
    Map::empty()
}

/// Calls `hashbrown::HashMap::insert`: the key is bound to the value, replacing
/// any earlier value; the other keys keep theirs.
#[verifier::external_body]
fn node_values_insert(m: &mut NodeValues, k: usize, v: Blake2sHash)
    ensures
        node_values_contents(*final(m)) == node_values_contents(*old(m)).insert(k, v@),
{
    m.map.insert(k, v);
}

/// Calls `hashbrown::HashMap::get`: the value bound to the key, if any.
#[verifier::external_body]
fn node_values_get(m: &NodeValues, k: usize) -> (r: Option<Blake2sHash>)
    ensures
        match r {
            Some(h) => node_values_contents(*m).contains_key(k) && node_values_contents(*m)[k] == h@,
            None => !node_values_contents(*m).contains_key(k),
        },
{
    m.map.get(&k).copied()
}

impl NodeValues {
    /// The hash recorded for node `k`, if any.
    pub fn get(&self, k: usize) -> (r: Option<Blake2sHash>)
        ensures
            match r {
                Some(h) => node_values_contents(*self).contains_key(k) && node_values_contents(*self)[k] == h@,
                None => !node_values_contents(*self).contains_key(k),
            },
    {
        node_values_get(self, k)
    }
}

/// The hashes and column values a verifier needs besides the queried values.
pub struct MerkleDecommitment {
    /// Hashes of nodes whose subtrees hold no query, from the largest layer down.
    pub hash_witness: Vec<Blake2sHash>,
    /// Column values of non-queried nodes on the queries' paths.
    pub column_witness: Vec<BaseField>,
}

/// Auxiliary decommitment data: per layer, from the largest down, the hashes
/// of every child node read while decommitting.
pub struct MerkleDecommitmentAux {
    pub all_node_values: Vec<NodeValues>,
}

/// A decommitment together with its auxiliary data.
pub struct ExtendedMerkleDecommitment {
    pub decommitment: MerkleDecommitment,
    pub aux: MerkleDecommitmentAux,
}

/// The queries of layer `l` (none when the map has no entry for it).
pub open spec fn layer_queries(qm: Map<u32, Vec<usize>>, l: u32) -> Seq<usize> {
    if qm.contains_key(l) {
        qm[l]@
    } else {
        Seq::empty()
    }
}

/// `s` is strictly increasing.
pub open spec fn sorted_strict(s: Seq<usize>) -> bool {
    forall|i: int, j: int| 0 <= i < j < s.len() ==> #[trigger] s[i] < #[trigger] s[j]
}

/// The nodes of layer `n_layers - 1 - d` on the paths of the queries: the
/// parents of such nodes in the layer above, and the layer's own queries.
pub open spec fn merged_set(qm: Map<u32, Vec<usize>>, n_layers: nat, d: nat) -> Set<usize>
    decreases d,
{
    let q = layer_queries(qm, (n_layers - 1 - d) as u32).to_set();
    if d == 0 {
        q
    } else {
        merged_set(qm, n_layers, (d - 1) as nat).map(|x: usize| x / 2).union(q)
    }
}

/// The elements of `set` in increasing order.
pub open spec fn sorted_elements(set: Set<usize>) -> Seq<usize> {
    choose|s: Seq<usize>| sorted_strict(s) && s.to_set() == set
}

/// The nodes of `merged_set` in increasing order.
pub open spec fn merged_nodes(qm: Map<u32, Vec<usize>>, n_layers: nat, d: nat) -> Seq<usize> {
    sorted_elements(merged_set(qm, n_layers, d))
}

/// The hashes of the children of `nodes` in layer `prev` that are not
/// themselves among `prev_nodes`, children in order.
pub open spec fn children_witness(prev: Seq<Seq<u8>>, nodes: Seq<usize>, prev_nodes: Seq<usize>) -> Seq<Seq<u8>>
    decreases nodes.len(),
{
    if nodes.len() == 0 {
        Seq::empty()
    } else {
        let m = nodes.last();
        children_witness(prev, nodes.drop_last(), prev_nodes) + (if prev_nodes.contains((2 * m) as usize) {
            Seq::empty()
        } else {
            seq![prev[2 * m]]
        }) + (if prev_nodes.contains((2 * m + 1) as usize) {
            Seq::empty()
        } else {
            seq![prev[2 * m + 1]]
        })
    }
}

/// The hashes in layer `prev` of the children of `nodes`, by child index.
pub open spec fn children_values(prev: Seq<Seq<u8>>, nodes: Seq<usize>) -> Map<usize, Seq<u8>>
    decreases nodes.len(),
{
    if nodes.len() == 0 {
        Map::empty()
    } else {
        let m = nodes.last();
        children_values(prev, nodes.drop_last()).insert((2 * m) as usize, prev[2 * m]).insert(
            (2 * m + 1) as usize,
            prev[2 * m + 1],
        )
    }
}

/// The elements of `nodes` that are among `queries` (when `queried`) or not
/// (otherwise), in order.
pub open spec fn split_nodes(nodes: Seq<usize>, queries: Seq<usize>, queried: bool) -> Seq<usize>
    decreases nodes.len(),
{
    if nodes.len() == 0 {
        Seq::empty()
    } else if queries.contains(nodes.last()) == queried {
        split_nodes(nodes.drop_last(), queries, queried).push(nodes.last())
    } else {
        split_nodes(nodes.drop_last(), queries, queried)
    }
}

/// The values of `columns` at `nodes`: node after node, all columns at each.
pub open spec fn gather(columns: Seq<Seq<M31>>, nodes: Seq<usize>) -> Seq<M31>
    decreases nodes.len(),
{
    if nodes.len() == 0 {
        Seq::empty()
    } else {
        gather(columns, nodes.drop_last()) + row(columns, nodes.last() as int)
    }
}

/// The hash witness of step `d` (layer `n_layers - 1 - d`).
pub open spec fn step_hash_witness(layers: Seq<Seq<Seq<u8>>>, qm: Map<u32, Vec<usize>>, d: nat) -> Seq<Seq<u8>> {
    let n = layers.len();
    if d == 0 {
        Seq::empty()
    } else {
        children_witness(layers[n - d], merged_nodes(qm, n, d), merged_nodes(qm, n, (d - 1) as nat))
    }
}

/// The child hashes read at step `d`.
pub open spec fn step_node_values(layers: Seq<Seq<Seq<u8>>>, qm: Map<u32, Vec<usize>>, d: nat) -> Map<usize, Seq<u8>> {
    let n = layers.len();
    if d == 0 {
        Map::empty()
    } else {
        children_values(layers[n - d], merged_nodes(qm, n, d))
    }
}

/// The column values of step `d` at queried nodes (`queried`) or at the other
/// nodes of the step (otherwise).
pub open spec fn step_column_values(
    columns: Seq<Seq<M31>>,
    qm: Map<u32, Vec<usize>>,
    n_layers: nat,
    d: nat,
    queried: bool,
) -> Seq<M31> {
    let l = (n_layers - 1 - d) as nat;
    gather(
        layer_columns(columns, l),
        split_nodes(merged_nodes(qm, n_layers, d), layer_queries(qm, l as u32), queried),
    )
}

/// The hash witnesses of the first `k` steps, in order.
pub open spec fn all_hash_witness(layers: Seq<Seq<Seq<u8>>>, qm: Map<u32, Vec<usize>>, k: nat) -> Seq<Seq<u8>>
    decreases k,
{
    if k == 0 {
        Seq::empty()
    } else {
        all_hash_witness(layers, qm, (k - 1) as nat) + step_hash_witness(layers, qm, (k - 1) as nat)
    }
}

/// The column values of the first `k` steps, in order.
pub open spec fn all_column_values(
    columns: Seq<Seq<M31>>,
    qm: Map<u32, Vec<usize>>,
    n_layers: nat,
    k: nat,
    queried: bool,
) -> Seq<M31>
    decreases k,
{
    if k == 0 {
        Seq::empty()
    } else {
        all_column_values(columns, qm, n_layers, (k - 1) as nat, queried) + step_column_values(
            columns,
            qm,
            n_layers,
            (k - 1) as nat,
            queried,
        )
    }
}

/// The views of the layers of a tree.
pub open spec fn layers_view(layers: Seq<Blake2sHashVec>) -> Seq<Seq<Seq<u8>>> {
    layers.map_values(|l: Blake2sHashVec| l@)
}

} // verus!

verus! {

/// A set of query positions.
#[verifier::external_body]
pub struct QuerySet {
    set: hashbrown::HashSet<usize>,
}

/// The positions in a query set.
pub uninterp spec fn query_set_contents(s: QuerySet) -> Set<usize>;

/// No positions, whatever capacity was reserved.
pub open spec fn empty_query_set(capacity: usize) -> Set<usize> {
    Set::empty()
}

/// Calls `hashbrown::HashSet::with_capacity`: an empty set.
#[verifier::external_body]
fn query_set_with_capacity(capacity: usize) -> (r: QuerySet)
    ensures
        query_set_contents(r) == empty_query_set(capacity),
{
    QuerySet { set: hashbrown::HashSet::with_capacity(capacity) }
}

/// Calls `hashbrown::HashSet::insert`: the position is added.
#[verifier::external_body]
fn query_set_insert(s: &mut QuerySet, x: usize)
    ensures
        query_set_contents(*final(s)) == query_set_contents(*old(s)).insert(x),
{
    s.set.insert(x);
}

/// Calls `hashbrown::HashSet::contains`: whether the position is in the set.
#[verifier::external_body]
fn query_set_contains(s: &QuerySet, x: usize) -> (r: bool)
    ensures
        r == query_set_contents(*s).contains(x),
{
    s.set.contains(&x)
}

/// The set of the positions in `v`.
fn query_set_of(v: &Vec<usize>) -> (r: QuerySet)
    ensures
        query_set_contents(r) == v@.to_set(),
{
    let mut s = query_set_with_capacity(0);
    let mut i: usize = 0;
    while i < v.len()
        invariant
            i <= v@.len(),
            query_set_contents(s) == v@.take(i as int).to_set(),
        decreases v@.len() - i,
    {
        query_set_insert(&mut s, v[i]);
        assert(v@.take(i + 1) =~= v@.take(i as int).push(v@[i as int]));
        proof {
            v@.take(i as int).lemma_push_to_set_commute(v@[i as int]);
        }
        i = i + 1;
    }
    assert(v@.take(i as int) =~= v@);
    s
}

/// The parents of the nodes `last` together with the queries `lq`, in
/// increasing order, gathered in a search tree.
fn merge_nodes(last: &Vec<usize>, lq: &Vec<usize>) -> (r: Vec<usize>)
    ensures
        sorted_strict(r@),
        forall|y: usize| r@.contains(y) <==> (exists|k: int| 0 <= k < last@.len() && #[trigger] last@[k] / 2 == y) || (
        exists|k: int| 0 <= k < lq@.len() && #[trigger] lq@[k] == y),
{
    broadcast use vstd::std_specs::btree::group_btree_axioms, vstd::laws_cmp::group_laws_cmp;
    let mut tree: std::collections::BTreeSet<usize> = std::collections::BTreeSet::new();
    let mut i: usize = 0;
    while i < last.len()
        invariant
            i <= last@.len(),
            forall|y: usize| tree@.contains(y) <==> exists|k: int| 0 <= k < i && #[trigger] last@[k] / 2 == y,
        decreases last@.len() - i,
    {
        tree.insert(last[i] / 2);
        i = i + 1;
    }
    let mut j: usize = 0;
    while j < lq.len()
        invariant
            j <= lq@.len(),
            forall|y: usize| tree@.contains(y) <==> (exists|k: int| 0 <= k < last@.len() && #[trigger] last@[k] / 2 == y) || (
            exists|k: int| 0 <= k < j && #[trigger] lq@[k] == y),
        decreases lq@.len() - j,
    {
        tree.insert(lq[j]);
        j = j + 1;
    }
    let r = sorted_from_btree(&tree);
    assert forall|y: usize| r@.contains(y) <==> tree@.contains(y) by {
        assert(r@.to_set().contains(y) == r@.contains(y));
    }
    r
}


/// The values of `columns` at `nodes`: node after node, all columns at each.
fn gather_values(columns: &Vec<&BaseFieldVec>, nodes: &Vec<usize>, out: &mut Vec<BaseField>)
    requires
        forall|k: int, c: int| 0 <= k < nodes@.len() && 0 <= c < columns@.len() ==> #[trigger] nodes@[k] < #[trigger] columns@[c]@.len(),
    ensures
        final(out)@ == old(out)@ + gather(columns_view(columns@), nodes@),
{
    let mut k: usize = 0;
    while k < nodes.len()
        invariant
            k <= nodes@.len(),
            forall|a: int, c: int| 0 <= a < nodes@.len() && 0 <= c < columns@.len() ==> #[trigger] nodes@[a] < #[trigger] columns@[c]@.len(),
            out@ == old(out)@ + gather(columns_view(columns@), nodes@.subrange(0, k as int)),
        decreases nodes@.len() - k,
    {
        let node = nodes[k];
        let ghost before = out@;
        let mut c: usize = 0;
        while c < columns.len()
            invariant
                c <= columns@.len(),
                k < nodes@.len(),
                node == nodes@[k as int],
                forall|a: int, cc: int| 0 <= a < nodes@.len() && 0 <= cc < columns@.len() ==> #[trigger] nodes@[a] < #[trigger] columns@[cc]@.len(),
                out@ == before + row(columns_view(columns@), node as int).subrange(0, c as int),
            decreases columns@.len() - c,
        {
            assert(node < columns@[c as int]@.len());
            out.push(columns[c].at(node));
            assert(row(columns_view(columns@), node as int).subrange(0, c + 1) =~= row(columns_view(columns@), node as int).subrange(0, c as int).push(
                columns@[c as int]@[node as int],
            ));
            c = c + 1;
        }
        assert(row(columns_view(columns@), node as int).subrange(0, c as int) =~= row(columns_view(columns@), node as int));
        assert(nodes@.subrange(0, k + 1).drop_last() =~= nodes@.subrange(0, k as int));
        k = k + 1;
    }
    assert(nodes@.subrange(0, k as int) =~= nodes@);
}

} // verus!

verus! {

/// Two strictly increasing lists with the same elements are equal.
proof fn lemma_sorted_unique_usize(a: Seq<usize>, b: Seq<usize>)
    requires
        sorted_strict(a),
        sorted_strict(b),
        a.to_set() == b.to_set(),
    ensures
        a == b,
{
    let ai = a.map_values(|x: usize| x as int);
    let bi = b.map_values(|x: usize| x as int);
    assert forall|x: int| ai.contains(x) <==> bi.contains(x) by {
        if ai.contains(x) {
            let k = choose|k: int| 0 <= k < ai.len() && ai[k] == x;
            assert(a.to_set().contains(a[k]));
            assert(b.contains(a[k]));
            let m = choose|m: int| 0 <= m < b.len() && b[m] == a[k];
            assert(bi[m] == x);
        }
        if bi.contains(x) {
            let k = choose|k: int| 0 <= k < bi.len() && bi[k] == x;
            assert(b.to_set().contains(b[k]));
            assert(a.contains(b[k]));
            let m = choose|m: int| 0 <= m < a.len() && a[m] == b[k];
            assert(ai[m] == x);
        }
    }
    crate::merkle::lemma_sorted_unique(ai, bi);
    assert forall|k: int| 0 <= k < a.len() implies a[k] == b[k] by {
        assert(ai[k] == bi[k]);
    }
    assert(a =~= b);
}

/// A strictly increasing list with the elements of `merged_set` is `merged_nodes`.
proof fn lemma_merged_nodes(qm: Map<u32, Vec<usize>>, n_layers: nat, d: nat, s: Seq<usize>)
    requires
        sorted_strict(s),
        s.to_set() == merged_set(qm, n_layers, d),
    ensures
        s == merged_nodes(qm, n_layers, d),
        sorted_strict(merged_nodes(qm, n_layers, d)),
        merged_nodes(qm, n_layers, d).to_set() == merged_set(qm, n_layers, d),
{
    let c = merged_nodes(qm, n_layers, d);
    assert(sorted_strict(c) && c.to_set() == merged_set(qm, n_layers, d));
    lemma_sorted_unique_usize(s, c);
}

/// The queries of layer `l`.
fn queries_at(qm: &BTreeMap<u32, Vec<usize>>, l: u32) -> (r: Vec<usize>)
    ensures
        r@ == layer_queries(qm@, l),
{
    proof {
        broadcast use vstd::std_specs::btree::group_btree_axioms, vstd::laws_cmp::group_laws_cmp;
    }
    match qm.get(&l) {
        Some(v) => v.clone(),
        None => Vec::new(),
    }
}

impl<const IS_M31_OUTPUT: bool> MerkleProver<Blake2sMerkleHasherGeneric<IS_M31_OUTPUT>> {
    /// Decommits the columns at the given queries, given per log size as indices
    /// into the columns of that size. Layer by layer, from the largest down, the
    /// nodes on the queries' paths are the parents of the previous layer's
    /// nodes together with the layer's own queries, in increasing order. For
    /// each such node the hashes of its children are recorded, and those of
    /// children off the paths go to the hash witness; the column values at the
    /// layer's queried nodes are returned, and those at its other nodes go to
    /// the column witness.
    pub fn decommit(&self, queries_per_log_size: &BTreeMap<u32, Vec<usize>>, columns: Vec<&BaseFieldVec>) -> (r: (
        Vec<BaseField>,
        ExtendedMerkleDecommitment,
    ))
        requires
            self.wf(),
            pow2_lengths(lens_of(columns_view(columns@))),
            forall|c: int| 0 <= c < columns@.len() ==> crate::utils::ilog2(#[trigger] columns@[c]@.len()) < self.layers@.len(),
            forall|l: u32, k: int|
                l < self.layers@.len() && 0 <= k < layer_queries(queries_per_log_size@, l).len() ==> #[trigger] layer_queries(
                    queries_per_log_size@,
                    l,
                )[k] < pow2(l as nat),
        ensures
            r.0@ == all_column_values(
                columns_view(columns@),
                queries_per_log_size@,
                self.layers@.len(),
                self.layers@.len(),
                true,
            ),
            r.1.decommitment.column_witness@ == all_column_values(
                columns_view(columns@),
                queries_per_log_size@,
                self.layers@.len(),
                self.layers@.len(),
                false,
            ),
            r.1.decommitment.hash_witness@.map_values(|h: Blake2sHash| h@) == all_hash_witness(
                layers_view(self.layers@),
                queries_per_log_size@,
                self.layers@.len(),
            ),
            r.1.aux.all_node_values@.len() == self.layers@.len(),
            forall|d: int| 0 <= d < self.layers@.len() ==> node_values_contents(#[trigger] r.1.aux.all_node_values@[d])
                == step_node_values(layers_view(self.layers@), queries_per_log_size@, d as nat),
    {
        let ghost cv = columns_view(columns@);
        let ghost qm = queries_per_log_size@;
        let ghost lv = layers_view(self.layers@);
        let n_layers = self.layers.len();
        let _largest = self.layers[n_layers - 1].len();
        proof {
            crate::utils::lemma_pow2_64();
            if n_layers - 1 >= 64 {
                crate::utils::lemma_pow2_mono(64, (n_layers - 1) as nat);
            }
            assert(self.layers@[n_layers - 1]@.len() == pow2((n_layers - 1) as nat));
        }
        let top: u32 = (n_layers - 1) as u32;
        let groups = group_columns(&columns, top);
        let mut queried_values: Vec<BaseField> = Vec::new();
        let mut column_witness: Vec<BaseField> = Vec::new();
        let mut hash_witness: Vec<Blake2sHash> = Vec::new();
        let mut all_node_values: Vec<NodeValues> = Vec::new();
        let mut last: Vec<usize> = Vec::new();
        let mut d: usize = 0;
        while d < n_layers
            invariant
                n_layers == self.layers@.len(),
                self.wf(),
                top == n_layers - 1,
                top < 64,
                cv == columns_view(columns@),
                qm == queries_per_log_size@,
                lv == layers_view(self.layers@),
                pow2_lengths(lens_of(cv)),
                groups@.len() == top + 1,
                forall|e: int| 0 <= e <= top ==> #[trigger] columns_view(groups@[e]@) == layer_columns(cv, (top - e) as nat),
                forall|l: u32, k: int|
                    l < self.layers@.len() && 0 <= k < layer_queries(qm, l).len() ==> #[trigger] layer_queries(qm, l)[k] < pow2(
                        l as nat,
                    ),
                d <= n_layers,
                d == 0 ==> last@ == Seq::<usize>::empty(),
                d > 0 ==> last@ == merged_nodes(qm, n_layers as nat, (d - 1) as nat),
                d > 0 ==> sorted_strict(last@) && last@.to_set() == merged_set(qm, n_layers as nat, (d - 1) as nat),
                d > 0 ==> forall|k: int| 0 <= k < last@.len() ==> #[trigger] last@[k] < pow2((n_layers - d) as nat),
                queried_values@ == all_column_values(cv, qm, n_layers as nat, d as nat, true),
                column_witness@ == all_column_values(cv, qm, n_layers as nat, d as nat, false),
                hash_witness@.map_values(|h: Blake2sHash| h@) == all_hash_witness(lv, qm, d as nat),
                all_node_values@.len() == d,
                forall|e: int| 0 <= e < d ==> node_values_contents(#[trigger] all_node_values@[e]) == step_node_values(lv, qm, e as nat),
            decreases n_layers - d,
        {
            let l: usize = n_layers - 1 - d;
            let lq = queries_at(queries_per_log_size, l as u32);
            // The nodes of this layer on the queries' paths.
            let merged = merge_nodes(&last, &lq);
            let prev_set = query_set_of(&last);
            let column_set = query_set_of(&lq);
            proof {
                let ms = merged_set(qm, n_layers as nat, d as nat);
                assert(lq@ == layer_queries(qm, (n_layers - 1 - d) as u32));
                assert forall|y: usize| merged@.to_set().contains(y) <==> ms.contains(y) by {
                    if d > 0 {
                        let prev = merged_set(qm, n_layers as nat, (d - 1) as nat);
                        if exists|k: int| 0 <= k < last@.len() && #[trigger] last@[k] / 2 == y {
                            let k = choose|k: int| 0 <= k < last@.len() && #[trigger] last@[k] / 2 == y;
                            assert(last@.to_set().contains(last@[k]));
                            assert(prev.contains(last@[k]));
                            assert(prev.map(|x: usize| x / 2).contains(y));
                        }
                        if prev.map(|x: usize| x / 2).contains(y) {
                            let x = choose|x: usize| prev.contains(x) && y == x / 2;
                            assert(last@.to_set().contains(x));
                            let k = choose|k: int| 0 <= k < last@.len() && last@[k] == x;
                            assert(last@[k] / 2 == y);
                        }
                    }
                    if exists|k: int| 0 <= k < lq@.len() && #[trigger] lq@[k] == y {
                        let k = choose|k: int| 0 <= k < lq@.len() && #[trigger] lq@[k] == y;
                        assert(lq@.to_set().contains(y));
                    }
                    if lq@.to_set().contains(y) {
                        let k = choose|k: int| 0 <= k < lq@.len() && lq@[k] == y;
                    }
                }
                assert(merged@.to_set() =~= ms);
                lemma_merged_nodes(qm, n_layers as nat, d as nat, merged@);
                assert forall|k: int| 0 <= k < merged@.len() implies #[trigger] merged@[k] < pow2(l as nat) by {
                    let y = merged@[k];
                    assert(merged@.contains(y));
                    if exists|t: int| 0 <= t < last@.len() && #[trigger] last@[t] / 2 == y {
                        let t = choose|t: int| 0 <= t < last@.len() && #[trigger] last@[t] / 2 == y;
                        assert(pow2((l + 1) as nat) == 2 * pow2(l as nat));
                    } else {
                        let t = choose|t: int| 0 <= t < lq@.len() && #[trigger] lq@[t] == y;
                        assert(layer_queries(qm, l as u32)[t] < pow2(l as nat));
                    }
                }
            }
            // The children of those nodes in the layer above.
            let mut values = node_values_with_capacity(0);
            if d > 0 {
                let prev = &self.layers[l + 1];
                let ghost hw0 = hash_witness@.map_values(|h: Blake2sHash| h@);
                proof {
                    assert(prev@.len() == pow2((l + 1) as nat));
                    assert(pow2((l + 1) as nat) == 2 * pow2(l as nat));
                    assert(lv[n_layers - d] == prev@);
                }
                let mut i: usize = 0;
                while i < merged.len()
                    invariant
                        i <= merged@.len(),
                        query_set_contents(prev_set) == last@.to_set(),
                        prev@.len() == 2 * pow2(l as nat),
                        forall|k: int| 0 <= k < merged@.len() ==> #[trigger] merged@[k] < pow2(l as nat),
                        hash_witness@.map_values(|h: Blake2sHash| h@) == hw0 + children_witness(
                            prev@,
                            merged@.subrange(0, i as int),
                            last@,
                        ),
                        node_values_contents(values) == children_values(prev@, merged@.subrange(0, i as int)),
                    decreases merged@.len() - i,
                {
                    let m = merged[i];
                    let _n = prev.len();
                    let a = prev.at(2 * m);
                    let b = prev.at(2 * m + 1);
                    let ghost hw_before = hash_witness@.map_values(|h: Blake2sHash| h@);
                    node_values_insert(&mut values, 2 * m, a);
                    node_values_insert(&mut values, 2 * m + 1, b);
                    let has_a = query_set_contains(&prev_set, 2 * m);
                    let has_b = query_set_contains(&prev_set, 2 * m + 1);
                    assert(has_a == last@.contains((2 * m) as usize));
                    assert(has_b == last@.contains((2 * m + 1) as usize));
                    if !has_a {
                        hash_witness.push(a);
                    }
                    let ghost hw_mid = hash_witness@.map_values(|h: Blake2sHash| h@);
                    if !has_b {
                        hash_witness.push(b);
                    }
                    proof {
                        let sub = merged@.subrange(0, i + 1);
                        assert(sub.drop_last() =~= merged@.subrange(0, i as int));
                        assert(sub.last() == m);
                        assert(hw_mid =~= hw_before + (if last@.contains((2 * m) as usize) {
                            Seq::empty()
                        } else {
                            seq![prev@[2 * m]]
                        }));
                        assert(hash_witness@.map_values(|h: Blake2sHash| h@) =~= hw_mid + (if last@.contains((2 * m + 1) as usize) {
                            Seq::empty()
                        } else {
                            seq![prev@[2 * m + 1]]
                        }));
                    }
                    i = i + 1;
                }
                proof {
                    assert(merged@.subrange(0, i as int) =~= merged@);
                }
            }
            all_node_values.push(values);
            // The queried and the other nodes of this layer.
            let mut qn: Vec<usize> = Vec::new();
            let mut wn: Vec<usize> = Vec::new();
            let mut i: usize = 0;
            while i < merged.len()
                invariant
                    i <= merged@.len(),
                    query_set_contents(column_set) == lq@.to_set(),
                    qn@ == split_nodes(merged@.subrange(0, i as int), lq@, true),
                    wn@ == split_nodes(merged@.subrange(0, i as int), lq@, false),
                    forall|k: int| 0 <= k < qn@.len() ==> #[trigger] qn@[k] < pow2(l as nat),
                    forall|k: int| 0 <= k < wn@.len() ==> #[trigger] wn@[k] < pow2(l as nat),
                    forall|k: int| 0 <= k < merged@.len() ==> #[trigger] merged@[k] < pow2(l as nat),
                decreases merged@.len() - i,
            {
                let m = merged[i];
                proof {
                    let sub = merged@.subrange(0, i + 1);
                    assert(sub.drop_last() =~= merged@.subrange(0, i as int));
                }
                let queried = query_set_contains(&column_set, m);
                assert(queried == lq@.contains(m));
                if queried {
                    qn.push(m);
                } else {
                    wn.push(m);
                }
                i = i + 1;
            }
            proof {
                assert(merged@.subrange(0, i as int) =~= merged@);
                crate::merkle::lemma_layer_columns_lengths(cv, l as nat);
                assert(columns_view(groups@[d as int]@) == layer_columns(cv, l as nat));
                assert forall|k: int, c: int| 0 <= k < qn@.len() && 0 <= c < groups@[d as int]@.len() implies #[trigger] qn@[k]
                    < #[trigger] groups@[d as int]@[c]@.len() by {
                    assert(columns_view(groups@[d as int]@)[c] == groups@[d as int]@[c]@);
                }
                assert forall|k: int, c: int| 0 <= k < wn@.len() && 0 <= c < groups@[d as int]@.len() implies #[trigger] wn@[k]
                    < #[trigger] groups@[d as int]@[c]@.len() by {
                    assert(columns_view(groups@[d as int]@)[c] == groups@[d as int]@[c]@);
                }
            }
            gather_values(&groups[d], &qn, &mut queried_values);
            gather_values(&groups[d], &wn, &mut column_witness);
            last = merged;
            d = d + 1;
        }
        (
            queried_values,
            ExtendedMerkleDecommitment {
                decommitment: MerkleDecommitment { hash_witness, column_witness },
                aux: MerkleDecommitmentAux { all_node_values },
            },
        )
    }
}

proof fn lemma_merged_set_same(q1: Map<u32, Vec<usize>>, q2: Map<u32, Vec<usize>>, n: nat, d: nat)
    requires
        forall|l: u32| (#[trigger] layer_queries(q1, l)).to_set() == layer_queries(q2, l).to_set(),
    ensures
        merged_set(q1, n, d) == merged_set(q2, n, d),
    decreases d,
{
    assert(layer_queries(q1, (n - 1 - d) as u32).to_set() == layer_queries(q2, (n - 1 - d) as u32).to_set());
    if d > 0 {
        lemma_merged_set_same(q1, q2, n, (d - 1) as nat);
    }
}

proof fn lemma_split_nodes_same(nodes: Seq<usize>, a: Seq<usize>, b: Seq<usize>, queried: bool)
    requires
        a.to_set() == b.to_set(),
    ensures
        split_nodes(nodes, a, queried) == split_nodes(nodes, b, queried),
    decreases nodes.len(),
{
    if nodes.len() > 0 {
        lemma_split_nodes_same(nodes.drop_last(), a, b, queried);
        assert(a.contains(nodes.last()) == a.to_set().contains(nodes.last()));
        assert(b.contains(nodes.last()) == b.to_set().contains(nodes.last()));
    }
}

/// A decommitment depends on the queries of each layer only as a set: listing
/// a layer's queries in another order or with repeats, or giving a layer an
/// empty list in place of none, changes neither the queried values, nor the
/// witnesses, nor the recorded node values.
pub proof fn lemma_decommit_depends_on_query_sets(
    layers: Seq<Seq<Seq<u8>>>,
    columns: Seq<Seq<M31>>,
    q1: Map<u32, Vec<usize>>,
    q2: Map<u32, Vec<usize>>,
    k: nat,
)
    requires
        forall|l: u32| (#[trigger] layer_queries(q1, l)).to_set() == layer_queries(q2, l).to_set(),
    ensures
        all_column_values(columns, q1, layers.len(), k, true) == all_column_values(columns, q2, layers.len(), k, true),
        all_column_values(columns, q1, layers.len(), k, false) == all_column_values(columns, q2, layers.len(), k, false),
        all_hash_witness(layers, q1, k) == all_hash_witness(layers, q2, k),
        forall|d: nat| #[trigger] step_node_values(layers, q1, d) == step_node_values(layers, q2, d),
    decreases k,
{
    let n = layers.len();
    assert forall|d: nat| #[trigger] merged_nodes(q1, n, d) == merged_nodes(q2, n, d) by {
        lemma_merged_set_same(q1, q2, n, d);
    }
    assert forall|d: nat| #[trigger] step_node_values(layers, q1, d) == step_node_values(layers, q2, d) by {
        assert(merged_nodes(q1, n, d) == merged_nodes(q2, n, d));
    }
    if k > 0 {
        lemma_decommit_depends_on_query_sets(layers, columns, q1, q2, (k - 1) as nat);
        let d = (k - 1) as nat;
        let l = (n - 1 - d) as nat;
        assert(merged_nodes(q1, n, d) == merged_nodes(q2, n, d));
        if d > 0 {
            assert(merged_nodes(q1, n, (d - 1) as nat) == merged_nodes(q2, n, (d - 1) as nat));
        }
        assert(layer_queries(q1, l as u32).to_set() == layer_queries(q2, l as u32).to_set());
        lemma_split_nodes_same(merged_nodes(q1, n, d), layer_queries(q1, l as u32), layer_queries(q2, l as u32), true);
        lemma_split_nodes_same(merged_nodes(q1, n, d), layer_queries(q1, l as u32), layer_queries(q2, l as u32), false);
        assert(step_hash_witness(layers, q1, d) == step_hash_witness(layers, q2, d));
        assert(step_column_values(columns, q1, n, d, true) == step_column_values(columns, q2, n, d, true));
        assert(step_column_values(columns, q1, n, d, false) == step_column_values(columns, q2, n, d, false));
    }
}

/// The elements of a set, in increasing order.
fn sorted_from_btree(s: &std::collections::BTreeSet<usize>) -> (r: Vec<usize>)
    ensures
        sorted_strict(r@),
        r@.to_set() == s@,
{
    broadcast use vstd::std_specs::btree::group_btree_axioms, vstd::laws_cmp::group_laws_cmp;
    let mut v: Vec<usize> = Vec::new();
    let ghost keys = vstd::std_specs::iter::IteratorSpec::remaining(&vstd::std_specs::btree::spec_btree_keys_iter(s));
    for x in it: s.iter()
        invariant
            v@ == it.seq().take(it.index()).map_values(|k: &usize| *k),
    {
        v.push(*x);
    }
    proof {
        vstd::std_specs::btree::axiom_spec_btree_keys_iter(s);
        assert(v@ == keys.map_values(|k: &usize| *k));
        assert(keys.unref() =~= v@);
        assert(vstd::laws_cmp::obeys_cmp::<&usize>());
        vstd::std_specs::btree::axiom_increasing_seq_meaning::<&usize>(keys);
        assert forall|i: int, j: int| 0 <= i < j < v@.len() implies #[trigger] v@[i] < #[trigger] v@[j] by {
            assert(vstd::std_specs::cmp::OrdSpec::cmp_spec(&keys[i], &keys[j]) is Less);
            assert(v@[i] == *keys[i] && v@[j] == *keys[j]);
        }
    }
    v
}

/// The values gathered at a list of nodes come node after node, each node's
/// values in column order: with `C` columns, entry `k * C + c` is column
/// `c`'s value at the `k`-th node, and there are `C` entries per node. This is
/// the layout of the queried values and the column witness of each layer.
pub proof fn lemma_gathered_values_node_major(columns: Seq<Seq<M31>>, nodes: Seq<usize>)
    ensures
        gather(columns, nodes).len() == nodes.len() * columns.len(),
        forall|k: int, c: int|
            0 <= k < nodes.len() && 0 <= c < columns.len() ==> #[trigger] gather(columns, nodes)[k * columns.len() + c]
                == columns[c][nodes[k] as int],
    decreases nodes.len(),
{
    let n = nodes.len();
    let cl = columns.len();
    if n > 0 {
        let p = nodes.drop_last();
        lemma_gathered_values_node_major(columns, p);
        let g = gather(columns, nodes);
        let rw = row(columns, nodes.last() as int);
        assert(g == gather(columns, p) + rw);
        assert((n - 1) * cl + cl == n * cl) by (nonlinear_arith);
        assert forall|k: int, c: int| 0 <= k < n && 0 <= c < cl implies #[trigger] g[k * cl + c] == columns[c][nodes[k] as int] by {
            if k < n - 1 {
                assert(k * cl + c < (n - 1) * cl) by (nonlinear_arith)
                    requires
                        0 <= k < n - 1,
                        0 <= c < cl,
                ;
                assert(k * cl + c >= 0) by (nonlinear_arith)
                    requires
                        0 <= k,
                        0 <= c,
                        cl >= 0,
                ;
                assert(p[k] == nodes[k]);
                assert(g[k * cl + c] == gather(columns, p)[k * cl + c]);
            } else {
                assert(k * cl == (n - 1) * cl);
                assert(g[k * cl + c] == rw[c]);
            }
        }
    }
}

/// A layer's nodes split into queried and witness nodes: every queried node
/// is a query, every witness node is not, each keeps the nodes' order, and
/// together they hold every node once.
pub proof fn lemma_split_nodes_partition(nodes: Seq<usize>, queries: Seq<usize>)
    ensures
        forall|k: int| 0 <= k < split_nodes(nodes, queries, true).len() ==> queries.contains(
            #[trigger] split_nodes(nodes, queries, true)[k],
        ),
        forall|k: int| 0 <= k < split_nodes(nodes, queries, false).len() ==> !queries.contains(
            #[trigger] split_nodes(nodes, queries, false)[k],
        ),
        split_nodes(nodes, queries, true).len() + split_nodes(nodes, queries, false).len() == nodes.len(),
        forall|x: usize| nodes.contains(x) <==> split_nodes(nodes, queries, true).contains(x) || split_nodes(
            nodes,
            queries,
            false,
        ).contains(x),
    decreases nodes.len(),
{
    if nodes.len() > 0 {
        let p = nodes.drop_last();
        lemma_split_nodes_partition(p, queries);
        let x0 = nodes.last();
        let qt = split_nodes(nodes, queries, true);
        let qf = split_nodes(nodes, queries, false);
        let pt = split_nodes(p, queries, true);
        let pf = split_nodes(p, queries, false);
        assert forall|x: usize| nodes.contains(x) <==> qt.contains(x) || qf.contains(x) by {
            if nodes.contains(x) {
                let k = choose|k: int| 0 <= k < nodes.len() && nodes[k] == x;
                if k < p.len() {
                    assert(p[k] == x);
                    assert(p.contains(x));
                    if pt.contains(x) {
                        let j = choose|j: int| 0 <= j < pt.len() && pt[j] == x;
                        assert(qt.contains(pt[j])) by {
                            if queries.contains(x0) { assert(qt[j] == pt[j]); } else { assert(qt == pt); }
                        }
                    } else {
                        let j = choose|j: int| 0 <= j < pf.len() && pf[j] == x;
                        assert(qf.contains(pf[j])) by {
                            if !queries.contains(x0) { assert(qf[j] == pf[j]); } else { assert(qf == pf); }
                        }
                    }
                } else {
                    if queries.contains(x0) { assert(qt[qt.len() - 1] == x0); } else { assert(qf[qf.len() - 1] == x0); }
                }
            }
            if qt.contains(x) {
                let j = choose|j: int| 0 <= j < qt.len() && qt[j] == x;
                if queries.contains(x0) && j == qt.len() - 1 {
                    assert(nodes[nodes.len() - 1] == x);
                } else {
                    assert(qt[j] == pt[j]);
                    assert(pt.contains(x));
                    assert(p.contains(x));
                    let k = choose|k: int| 0 <= k < p.len() && p[k] == x;
                    assert(nodes[k] == x);
                }
            }
            if qf.contains(x) {
                let j = choose|j: int| 0 <= j < qf.len() && qf[j] == x;
                if !queries.contains(x0) && j == qf.len() - 1 {
                    assert(nodes[nodes.len() - 1] == x);
                } else {
                    assert(qf[j] == pf[j]);
                    assert(pf.contains(x));
                    assert(p.contains(x));
                    let k = choose|k: int| 0 <= k < p.len() && p[k] == x;
                    assert(nodes[k] == x);
                }
            }
        }
    }
}

/// Where no child of a layer's nodes is a node of the layer above's
/// decommitment, the hash witness holds, node after node, the left child's
/// hash and then the right child's: entries `2k` and `2k + 1` are the hashes
/// of children `2 nodes[k]` and `2 nodes[k] + 1`.
pub proof fn lemma_witness_children_in_order(prev: Seq<Seq<u8>>, nodes: Seq<usize>, prev_nodes: Seq<usize>)
    requires
        forall|k: int| 0 <= k < nodes.len() ==> !prev_nodes.contains((2 * #[trigger] nodes[k]) as usize) && !prev_nodes.contains(
            (2 * nodes[k] + 1) as usize,
        ),
    ensures
        children_witness(prev, nodes, prev_nodes).len() == 2 * nodes.len(),
        forall|k: int|
            0 <= k < nodes.len() ==> #[trigger] children_witness(prev, nodes, prev_nodes)[2 * k] == prev[2 * nodes[k]]
                && children_witness(prev, nodes, prev_nodes)[2 * k + 1] == prev[2 * nodes[k] + 1],
    decreases nodes.len(),
{
    if nodes.len() > 0 {
        let p = nodes.drop_last();
        assert forall|k: int| 0 <= k < p.len() implies !prev_nodes.contains((2 * #[trigger] p[k]) as usize) && !prev_nodes.contains(
            (2 * p[k] + 1) as usize,
        ) by {
            assert(p[k] == nodes[k]);
        }
        lemma_witness_children_in_order(prev, p, prev_nodes);
        let m = nodes.last();
        assert(!prev_nodes.contains((2 * m) as usize) && !prev_nodes.contains((2 * m + 1) as usize)) by {
            assert(nodes[nodes.len() - 1] == m);
        }
        let w = children_witness(prev, nodes, prev_nodes);
        let wp = children_witness(prev, p, prev_nodes);
        assert(w == wp + seq![prev[2 * m]] + seq![prev[2 * m + 1]]);
        assert forall|k: int| 0 <= k < nodes.len() implies #[trigger] w[2 * k] == prev[2 * nodes[k]] && w[2 * k + 1] == prev[2
            * nodes[k] + 1] by {
            if k < p.len() {
                assert(p[k] == nodes[k]);
                assert(w[2 * k] == wp[2 * k]);
                assert(w[2 * k + 1] == wp[2 * k + 1]);
            }
        }
    }
}

} // verus!

use vstd::prelude::*;
use vstd::arithmetic::div_mod::{
    lemma_add_mod_noop, lemma_sub_mod_noop, lemma_mul_mod_noop_left, lemma_small_mod,
    lemma_mod_add_multiples_vanish,
};
use crate::fields::{M31, CM31, QM31, SecureField, P};
use crate::gkr::all_reduced;
use crate::utils::{pow2, rev_bits, bit_reverse_index, pow2_usize, lemma_pow2_mono, lemma_pow2_pos, lemma_pow2_adds};

verus! {

/// The base-2 logarithm of the number of lanes of a packed SIMD vector.
pub const LOG_N_LANES: u32 = 4;

/// The base-2 logarithm of the number of packed vectors in a very packed one.
pub const LOG_N_VERY_PACKED_ELEMS: u32 = 1;

/// The number of lanes of a very packed value: the rows evaluated at once.
pub const N_VERY_PACKED_LANES: usize = 32;

/// The index of the interaction trace in the trace tree.
pub const INTERACTION_TRACE_IDX: usize = 2;

// ---------------------------------------------------------------------------
// Indices in a bit-reversed circle domain.

/// The index, in the bit-reversed evaluation domain of size `2^eval_log_size`,
/// of the point `offset` trace steps away from the point at index `i`, for a
/// trace domain of size `2^domain_log_size`. The first half of the domain in
/// natural order walks forward and the second half, its conjugate, walks
/// backward, each wrapping around modulo its size.
pub open spec fn offset_index(i: nat, domain_log_size: nat, eval_log_size: nat, offset: int) -> nat {
    let prev = rev_bits(i, eval_log_size);
    let half = pow2((eval_log_size - 1) as nat);
    let step = offset * pow2((eval_log_size - domain_log_size - 1) as nat);
    let moved = if prev < half {
        (prev + step) % (half as int)
    } else {
        (prev - step) % (half as int) + half
    };
    rev_bits(moved as nat, eval_log_size)
}

pub(crate) proof fn lemma_wrap(p: int, x: int, h: int, m: int)
    requires
        h > 0,
        0 <= p < h,
        x >= 0,
        m == x % h,
    ensures
        (p + x) % h == (p + m) % h,
        (p - x) % h == (p + h - m) % h,
{
    lemma_small_mod(p as nat, h as nat);
    lemma_small_mod(m as nat, h as nat);
    lemma_add_mod_noop(p, x, h);
    lemma_add_mod_noop(p, m, h);
    lemma_sub_mod_noop(p, x, h);
    lemma_sub_mod_noop(p, m, h);
    lemma_mod_add_multiples_vanish(p - m, h);
}

/// The index of the point `offset` trace steps from the point at index `i` of
/// a bit-reversed circle evaluation domain.
pub fn offset_bit_reversed_circle_domain_index(
    i: usize,
    domain_log_size: u32,
    eval_log_size: u32,
    offset: isize,
) -> (r: usize)
    requires
        domain_log_size < eval_log_size,
        pow2(eval_log_size as nat) <= usize::MAX,
        i < pow2(eval_log_size as nat),
    ensures
        r == offset_index(i as nat, domain_log_size as nat, eval_log_size as nat, offset as int),
        r < pow2(eval_log_size as nat),
{
    proof {
        crate::utils::lemma_pow2_64();
        if eval_log_size >= 64 {
            lemma_pow2_mono(64, eval_log_size as nat);
        }
        lemma_pow2_adds(62, 2);
        reveal_with_fuel(pow2, 3);
        lemma_pow2_mono((eval_log_size - 1) as nat, 62);
        lemma_pow2_mono((eval_log_size - 1) as nat, eval_log_size as nat);
        lemma_pow2_mono((eval_log_size - domain_log_size - 1) as nat, (eval_log_size - 1) as nat);
        lemma_pow2_pos((eval_log_size - 1) as nat);
        lemma_pow2_adds((eval_log_size - 1) as nat, 1);
        assert(pow2(62) == 0x4000_0000_0000_0000);
    }
    let prev = bit_reverse_index(i, eval_log_size);
    let half = pow2_usize(eval_log_size - 1);
    let st = pow2_usize(eval_log_size - domain_log_size - 1);
    let h = half as u128;
    let mag: u128 = if offset >= 0 {
        offset as u128
    } else {
        (0i128 - offset as i128) as u128
    };
    let mm = mag % h;
    assert(mm * (st as u128) < 0x1_0000_0000_0000_0000_0000_0000_0000_0000) by (nonlinear_arith)
        requires
            mm < h,
            h <= 0x4000_0000_0000_0000,
            st <= h,
    ;
    let m = (mm * (st as u128)) % h;
    proof {
        lemma_mul_mod_noop_left(mag as int, st as int, h as int);
    }
    let moved: u128 = if (prev as u128) < h {
        if offset >= 0 {
            (prev as u128 + m) % h
        } else {
            (prev as u128 + h - m) % h
        }
    } else {
        let p = prev as u128 - h;
        if offset >= 0 {
            (p + h - m) % h + h
        } else {
            (p + m) % h + h
        }
    };
    proof {
        let step = offset as int * pow2((eval_log_size - domain_log_size - 1) as nat);
        let x = mag as int * st as int;
        if offset >= 0 {
            assert(step == x);
        } else {
            assert(step == -x) by (nonlinear_arith)
                requires
                    mag == -offset,
                    step == offset as int * st,
                    x == mag * st,
            ;
        }
        assert(x >= 0) by (nonlinear_arith)
            requires
                mag >= 0,
                st >= 0,
                x == mag * st,
        ;
        if (prev as int) < h {
            lemma_wrap(prev as int, x, h as int, m as int);
        } else {
            let p = prev as int - h;
            lemma_wrap(p, x, h as int, m as int);
            lemma_mod_add_multiples_vanish(p - step, h as int);
            assert(prev as int - step == h + (p - step));
        }
        assert(moved < pow2(eval_log_size as nat));
    }
    bit_reverse_index(moved as usize, eval_log_size)
}

// ---------------------------------------------------------------------------
// Lane-wise arithmetic on very packed secure field values.

/// A very packed secure field value: one reduced element per lane.
pub open spec fn lanes_ok(a: Seq<SecureField>) -> bool {
    a.len() == N_VERY_PACKED_LANES && all_reduced(a)
}

/// Zero in every lane.
pub open spec fn lanes_zero() -> Seq<SecureField> {
    Seq::new(N_VERY_PACKED_LANES as nat, |l: int| QM31(CM31(M31(0), M31(0)), CM31(M31(0), M31(0))))
}

/// Lane-wise sum.
pub open spec fn lanes_plus(a: Seq<SecureField>, b: Seq<SecureField>) -> Seq<SecureField> {
    Seq::new(a.len(), |l: int| a[l].plus_spec(b[l]))
}

/// Lane-wise difference.
pub open spec fn lanes_minus(a: Seq<SecureField>, b: Seq<SecureField>) -> Seq<SecureField> {
    Seq::new(a.len(), |l: int| a[l].minus_spec(b[l]))
}

/// Lane-wise product.
pub open spec fn lanes_times(a: Seq<SecureField>, b: Seq<SecureField>) -> Seq<SecureField> {
    Seq::new(a.len(), |l: int| a[l].times_spec(b[l]))
}

/// `s` added to every lane.
pub open spec fn lanes_add_scalar(a: Seq<SecureField>, s: SecureField) -> Seq<SecureField> {
    Seq::new(a.len(), |l: int| a[l].plus_spec(s))
}

/// Every lane multiplied by `c` on the left.
pub open spec fn lanes_scale(c: SecureField, a: Seq<SecureField>) -> Seq<SecureField> {
    Seq::new(a.len(), |l: int| c.times_spec(a[l]))
}

fn zero_lanes() -> (r: Vec<SecureField>)
    ensures
        r@ == lanes_zero(),
        lanes_ok(r@),
{
    let mut r: Vec<SecureField> = Vec::new();
    let mut l: usize = 0;
    while l < N_VERY_PACKED_LANES
        invariant
            l <= N_VERY_PACKED_LANES,
            r@ == lanes_zero().take(l as int),
        decreases N_VERY_PACKED_LANES - l,
    {
        r.push(QM31(CM31(M31(0), M31(0)), CM31(M31(0), M31(0))));
        l = l + 1;
    }
    assert(r@ =~= lanes_zero());
    r
}

/// Lane-wise `a + b` (`op == 0`), `a - b` (`op == 1`) or `a * b` (otherwise).
fn lanes_binary(a: &Vec<SecureField>, b: &Vec<SecureField>, op: u8) -> (r: Vec<SecureField>)
    requires
        lanes_ok(a@),
        lanes_ok(b@),
    ensures
        lanes_ok(r@),
        r@ == if op == 0 {
            lanes_plus(a@, b@)
        } else if op == 1 {
            lanes_minus(a@, b@)
        } else {
            lanes_times(a@, b@)
        },
{
    let mut r: Vec<SecureField> = Vec::new();
    let mut l: usize = 0;
    let ghost want = if op == 0 {
        lanes_plus(a@, b@)
    } else if op == 1 {
        lanes_minus(a@, b@)
    } else {
        lanes_times(a@, b@)
    };
    while l < a.len()
        invariant
            lanes_ok(a@),
            lanes_ok(b@),
            l <= a@.len(),
            want.len() == a@.len(),
            want == (if op == 0 {
                lanes_plus(a@, b@)
            } else if op == 1 {
                lanes_minus(a@, b@)
            } else {
                lanes_times(a@, b@)
            }),
            r@ == want.take(l as int),
            all_reduced(r@),
        decreases a@.len() - l,
    {
        assert(a@[l as int].is_reduced() && b@[l as int].is_reduced());
        let x = if op == 0 {
            a[l].plus(b[l])
        } else if op == 1 {
            a[l].minus(b[l])
        } else {
            a[l].times(b[l])
        };
        r.push(x);
        assert(r@ =~= want.take(l + 1));
        l = l + 1;
    }
    assert(r@ =~= want);
    r
}

/// `s` added to every lane of `a`.
fn lanes_add_scalar_exec(a: &Vec<SecureField>, s: SecureField) -> (r: Vec<SecureField>)
    requires
        lanes_ok(a@),
        s.is_reduced(),
    ensures
        lanes_ok(r@),
        r@ == lanes_add_scalar(a@, s),
{
    let mut r: Vec<SecureField> = Vec::new();
    let mut l: usize = 0;
    while l < a.len()
        invariant
            lanes_ok(a@),
            s.is_reduced(),
            l <= a@.len(),
            r@ == lanes_add_scalar(a@, s).take(l as int),
            all_reduced(r@),
        decreases a@.len() - l,
    {
        assert(a@[l as int].is_reduced());
        r.push(a[l].plus(s));
        assert(r@ =~= lanes_add_scalar(a@, s).take(l + 1));
        l = l + 1;
    }
    assert(r@ =~= lanes_add_scalar(a@, s));
    r
}

/// Every lane of `a` multiplied by `c` on the left.
fn lanes_scale_exec(c: SecureField, a: &Vec<SecureField>) -> (r: Vec<SecureField>)
    requires
        lanes_ok(a@),
        c.is_reduced(),
    ensures
        lanes_ok(r@),
        r@ == lanes_scale(c, a@),
{
    let mut r: Vec<SecureField> = Vec::new();
    let mut l: usize = 0;
    while l < a.len()
        invariant
            lanes_ok(a@),
            c.is_reduced(),
            l <= a@.len(),
            r@ == lanes_scale(c, a@).take(l as int),
            all_reduced(r@),
        decreases a@.len() - l,
    {
        assert(a@[l as int].is_reduced());
        r.push(c.times(a[l]));
        assert(r@ =~= lanes_scale(c, a@).take(l + 1));
        l = l + 1;
    }
    assert(r@ =~= lanes_scale(c, a@));
    r
}

// ---------------------------------------------------------------------------
// Fractions of very packed values.

/// A fraction whose numerator and denominator are very packed secure values.
pub struct LaneFraction {
    pub numerator: Vec<SecureField>,
    pub denominator: Vec<SecureField>,
}

impl LaneFraction {
    /// The numerator and denominator lanes.
    pub open spec fn view_pair(&self) -> (Seq<SecureField>, Seq<SecureField>) {
        (self.numerator@, self.denominator@)
    }
}

/// The numerator and denominator lanes of each fraction.
pub open spec fn pairs_of(fracs: Seq<LaneFraction>) -> Seq<(Seq<SecureField>, Seq<SecureField>)> {
    fracs.map_values(|f: LaneFraction| f.view_pair())
}

/// Both parts of a fraction are very packed values.
pub open spec fn frac_ok(f: (Seq<SecureField>, Seq<SecureField>)) -> bool {
    lanes_ok(f.0) && lanes_ok(f.1)
}

/// `a/b + c/d = (a d + c b) / (b d)`, lane by lane.
pub open spec fn frac_add(
    f: (Seq<SecureField>, Seq<SecureField>),
    g: (Seq<SecureField>, Seq<SecureField>),
) -> (Seq<SecureField>, Seq<SecureField>) {
    (lanes_plus(lanes_times(f.0, g.1), lanes_times(g.0, f.1)), lanes_times(f.1, g.1))
}

/// The sum of a non-empty list of fractions, added from the first on.
pub open spec fn frac_sum(fs: Seq<(Seq<SecureField>, Seq<SecureField>)>) -> (Seq<SecureField>, Seq<SecureField>)
    decreases fs.len(),
{
    if fs.len() <= 1 {
        fs[0]
    } else {
        frac_add(frac_sum(fs.drop_last()), fs.last())
    }
}

/// The fractions of batch `b`, in order.
pub open spec fn batch_members(
    fs: Seq<(Seq<SecureField>, Seq<SecureField>)>,
    batching: Seq<usize>,
    b: usize,
) -> Seq<(Seq<SecureField>, Seq<SecureField>)>
    decreases fs.len(),
{
    if fs.len() == 0 || batching.len() == 0 {
        Seq::empty()
    } else {
        let rest = batch_members(fs.drop_last(), batching.drop_last(), b);
        if batching.last() == b {
            rest.push(fs.last())
        } else {
            rest
        }
    }
}

/// The largest batch id (0 for no ids).
pub open spec fn max_batch(batching: Seq<usize>) -> usize
    decreases batching.len(),
{
    if batching.len() == 0 {
        0
    } else {
        let m = max_batch(batching.drop_last());
        if batching.last() > m {
            batching.last()
        } else {
            m
        }
    }
}

/// Some fraction belongs to batch `b`.
pub open spec fn batch_present(batching: Seq<usize>, b: usize) -> bool {
    exists|i: int| 0 <= i < batching.len() && batching[i] == b
}

/// The batch ids are exactly `0..=max_batch(batching)`, each used at least once.
pub open spec fn consecutive_batches(batching: Seq<usize>) -> bool {
    forall|b: usize| b <= max_batch(batching) ==> #[trigger] batch_present(batching, b)
}

proof fn lemma_max_batch(batching: Seq<usize>)
    ensures
        forall|i: int| 0 <= i < batching.len() ==> #[trigger] batching[i] <= max_batch(batching),
        batching.len() > 0 ==> exists|i: int| 0 <= i < batching.len() && batching[i] == max_batch(batching),
    decreases batching.len(),
{
    if batching.len() > 0 {
        let p = batching.drop_last();
        lemma_max_batch(p);
        assert forall|i: int| 0 <= i < batching.len() implies #[trigger] batching[i] <= max_batch(batching) by {
            if i < p.len() {
                assert(batching[i] == p[i]);
            }
        }
        if max_batch(batching) != batching.last() {
            let k = choose|k: int| 0 <= k < p.len() && p[k] == max_batch(p);
            assert(batching[k] == p[k]);
        }
    }
}

/// The positions of the fractions of batch `b`, in order.
pub open spec fn batch_indices(batching: Seq<usize>, b: usize) -> Seq<usize>
    decreases batching.len(),
{
    if batching.len() == 0 {
        Seq::empty()
    } else {
        let rest = batch_indices(batching.drop_last(), b);
        if batching.last() == b {
            rest.push((batching.len() - 1) as usize)
        } else {
            rest
        }
    }
}

/// The fractions of `fs` at the positions `idx`, in order.
pub open spec fn pick(fs: Seq<(Seq<SecureField>, Seq<SecureField>)>, idx: Seq<usize>) -> Seq<(Seq<SecureField>, Seq<SecureField>)> {
    Seq::new(idx.len(), |k: int| fs[idx[k] as int])
}

proof fn lemma_batch_indices(fs: Seq<(Seq<SecureField>, Seq<SecureField>)>, batching: Seq<usize>, b: usize)
    requires
        fs.len() == batching.len(),
        batching.len() <= usize::MAX,
    ensures
        pick(fs, batch_indices(batching, b)) == batch_members(fs, batching, b),
        forall|k: int| 0 <= k < batch_indices(batching, b).len() ==> (#[trigger] batch_indices(batching, b)[k]) < batching.len(),
        batch_present(batching, b) ==> batch_indices(batching, b).len() > 0,
    decreases batching.len(),
{
    if batching.len() > 0 {
        let p = batching.drop_last();
        lemma_batch_indices(fs.drop_last(), p, b);
        let ip = batch_indices(p, b);
        assert forall|k: int| 0 <= k < ip.len() implies fs.drop_last()[ip[k] as int] == fs[ip[k] as int] by {}
        if batching.last() == b {
            assert(pick(fs, ip.push((batching.len() - 1) as usize)) =~= pick(fs.drop_last(), ip).push(fs.last()));
        } else {
            assert(pick(fs, ip) =~= pick(fs.drop_last(), ip));
            if batch_present(batching, b) {
                let i = choose|i: int| 0 <= i < batching.len() && batching[i] == b;
                assert(p[i] == b);
            }
        }
    }
}

/// The positions of the fractions of each batch, keyed by batch.
#[verifier::external_body]
pub struct BatchGroups {
    map: hashbrown::HashMap<usize, Vec<usize>>,
}

/// The contents of a batch map: for each batch, its fraction positions.
pub uninterp spec fn batch_groups_contents(g: BatchGroups) -> Map<usize, Seq<usize>>;

/// No batches, whatever capacity was reserved.
pub open spec fn empty_batch_groups(capacity: usize) -> Map<usize, Seq<usize>> {
    Map::empty()
}

/// Calls `hashbrown::HashMap::with_capacity`: an empty map.
#[verifier::external_body]
fn batch_groups_with_capacity(capacity: usize) -> (r: BatchGroups)
    ensures
        batch_groups_contents(r) == empty_batch_groups(capacity),
{
    BatchGroups { map: hashbrown::HashMap::with_capacity(capacity) }
}

/// Calls `hashbrown::HashMap::get` and clones the list found: the positions
/// bound to the batch, if any.
#[verifier::external_body]
fn batch_groups_get(g: &BatchGroups, k: usize) -> (r: Option<Vec<usize>>)
    ensures
        match r {
            Some(v) => batch_groups_contents(*g).contains_key(k) && batch_groups_contents(*g)[k] == v@,
            None => !batch_groups_contents(*g).contains_key(k),
        },
{
    g.map.get(&k).cloned()
}

/// Calls `hashbrown::HashMap::insert`: the batch is bound to the list,
/// replacing any earlier list; the other batches keep theirs.
#[verifier::external_body]
fn batch_groups_insert(g: &mut BatchGroups, k: usize, v: Vec<usize>)
    ensures
        batch_groups_contents(*final(g)) == batch_groups_contents(*old(g)).insert(k, v@),
{
    g.map.insert(k, v);
}

/// The positions of the fractions of each batch, grouped in a map.
fn group_by_batch(batching: &Vec<usize>) -> (g: BatchGroups)
    ensures
        forall|b: usize|
            #[trigger] batch_groups_contents(g).contains_key(b) == (batch_indices(batching@, b).len() > 0),
        forall|b: usize|
            batch_groups_contents(g).contains_key(b) ==> #[trigger] batch_groups_contents(g)[b] == batch_indices(batching@, b),
{
    let mut g = batch_groups_with_capacity(0);
    let mut i: usize = 0;
    while i < batching.len()
        invariant
            i <= batching@.len(),
            forall|b: usize|
                #[trigger] batch_groups_contents(g).contains_key(b) == (batch_indices(batching@.take(i as int), b).len() > 0),
            forall|b: usize|
                batch_groups_contents(g).contains_key(b) ==> #[trigger] batch_groups_contents(g)[b] == batch_indices(
                    batching@.take(i as int),
                    b,
                ),
        decreases batching@.len() - i,
    {
        let b0 = batching[i];
        let mut list = match batch_groups_get(&g, b0) {
            Some(v) => v,
            None => Vec::new(),
        };
        assert(list@ == batch_indices(batching@.take(i as int), b0));
        list.push(i);
        batch_groups_insert(&mut g, b0, list);
        proof {
            let t = batching@.take(i + 1);
            assert(t.drop_last() =~= batching@.take(i as int));
            assert(t.last() == b0);
            assert forall|b: usize| #[trigger] batch_groups_contents(g).contains_key(b) == (batch_indices(t, b).len() > 0) by {
                if b != b0 {
                    assert(batch_indices(t, b) == batch_indices(batching@.take(i as int), b));
                }
            }
            assert forall|b: usize| batch_groups_contents(g).contains_key(b) implies #[trigger] batch_groups_contents(g)[b]
                == batch_indices(t, b) by {
                if b != b0 {
                    assert(batch_indices(t, b) == batch_indices(batching@.take(i as int), b));
                }
            }
        }
        i = i + 1;
    }
    assert(batching@.take(i as int) =~= batching@);
    g
}

/// The sum of the fractions at the positions `idx`, in order.
fn sum_fractions_at(fracs: &Vec<LaneFraction>, idx: &Vec<usize>) -> (r: LaneFraction)
    requires
        idx@.len() > 0,
        forall|k: int| 0 <= k < idx@.len() ==> (#[trigger] idx@[k]) < fracs@.len(),
        forall|i: int| 0 <= i < fracs@.len() ==> frac_ok(#[trigger] pairs_of(fracs@)[i]),
    ensures
        r.view_pair() == frac_sum(pick(pairs_of(fracs@), idx@)),
        frac_ok(r.view_pair()),
{
    let ghost fs = pairs_of(fracs@);
    assert(frac_ok(fs[idx@[0] as int]));
    let first = &fracs[idx[0]];
    let mut acc = LaneFraction { numerator: first.numerator.clone(), denominator: first.denominator.clone() };
    proof {
        assert(pick(fs, idx@).take(1) =~= seq![fs[idx@[0] as int]]);
    }
    let mut k: usize = 1;
    while k < idx.len()
        invariant
            1 <= k <= idx@.len(),
            fs == pairs_of(fracs@),
            forall|j: int| 0 <= j < idx@.len() ==> (#[trigger] idx@[j]) < fracs@.len(),
            forall|i: int| 0 <= i < fracs@.len() ==> frac_ok(#[trigger] fs[i]),
            acc.view_pair() == frac_sum(pick(fs, idx@).take(k as int)),
            frac_ok(acc.view_pair()),
        decreases idx@.len() - k,
    {
        let f = &fracs[idx[k]];
        assert(frac_ok(fs[idx@[k as int] as int]));
        let ad = lanes_binary(&acc.numerator, &f.denominator, 2);
        let cb = lanes_binary(&f.numerator, &acc.denominator, 2);
        let num = lanes_binary(&ad, &cb, 0);
        let den = lanes_binary(&acc.denominator, &f.denominator, 2);
        acc = LaneFraction { numerator: num, denominator: den };
        proof {
            let t = pick(fs, idx@).take(k + 1);
            assert(t.drop_last() =~= pick(fs, idx@).take(k as int));
            assert(t.last() == fs[idx@[k as int] as int]);
        }
        k = k + 1;
    }
    assert(pick(fs, idx@).take(k as int) =~= pick(fs, idx@));
    acc
}

/// The sum of the fractions of batch `b`, found through the batch map.
fn batch_sum(fracs: &Vec<LaneFraction>, batching: &Vec<usize>, groups: &BatchGroups, b: usize) -> (r: LaneFraction)
    requires
        fracs@.len() == batching@.len(),
        forall|i: int| 0 <= i < fracs@.len() ==> frac_ok(#[trigger] pairs_of(fracs@)[i]),
        batch_present(batching@, b),
        forall|c: usize|
            #[trigger] batch_groups_contents(*groups).contains_key(c) == (batch_indices(batching@, c).len() > 0),
        forall|c: usize|
            batch_groups_contents(*groups).contains_key(c) ==> #[trigger] batch_groups_contents(*groups)[c] == batch_indices(batching@, c),
    ensures
        r.view_pair() == frac_sum(batch_members(pairs_of(fracs@), batching@, b)),
        frac_ok(r.view_pair()),
{
    let n = batching.len();
    proof {
        assert(batching@.len() == n);
        lemma_batch_indices(pairs_of(fracs@), batching@, b);
    }
    assert(batch_groups_contents(*groups).contains_key(b));
    let idx = match batch_groups_get(groups, b) {
        Some(v) => v,
        None => Vec::new(),
    };
    assert(idx@ == batch_indices(batching@, b));
    sum_fractions_at(fracs, &idx)
}

// ---------------------------------------------------------------------------
// Reading the trace.

/// The values of column `col` at the lanes of very packed row `vec_row`, each
/// moved by `offset` trace steps.
pub open spec fn mask_lanes(col: Seq<M31>, vec_row: nat, dls: nat, edls: nat, offset: int) -> Seq<M31> {
    Seq::new(
        N_VERY_PACKED_LANES as nat,
        |i: int| col[offset_index(vec_row * N_VERY_PACKED_LANES as nat + i as nat, dls, edls, offset) as int],
    )
}

/// The secure value whose coordinates are the four lane values, lane by lane.
pub open spec fn combine_lanes(m0: Seq<M31>, m1: Seq<M31>, m2: Seq<M31>, m3: Seq<M31>) -> Seq<SecureField> {
    Seq::new(N_VERY_PACKED_LANES as nat, |l: int| QM31(CM31(m0[l], m1[l]), CM31(m2[l], m3[l])))
}

/// The secure value read from columns `c..c+4` of `cols`, moved by `offset`.
pub open spec fn ext_mask(cols: Seq<Seq<M31>>, c: int, vec_row: nat, dls: nat, edls: nat, offset: int) -> Seq<SecureField> {
    combine_lanes(
        mask_lanes(cols[c], vec_row, dls, edls, offset),
        mask_lanes(cols[c + 1], vec_row, dls, edls, offset),
        mask_lanes(cols[c + 2], vec_row, dls, edls, offset),
        mask_lanes(cols[c + 3], vec_row, dls, edls, offset),
    )
}

/// The inverse of `2^k` in the base field, for `k <= 31`: `2^(31 - k)`, as
/// `2^31 = P + 1`.
pub open spec fn inv_pow2(k: nat) -> M31 {
    if k == 0 {
        M31(1)
    } else {
        M31(pow2((31 - k) as nat) as u32)
    }
}

/// The secure value times a base field element, coordinate by coordinate.
pub open spec fn scale_base(x: SecureField, s: M31) -> SecureField {
    QM31(CM31(x.0.0.times_spec(s), x.0.1.times_spec(s)), CM31(x.1.0.times_spec(s), x.1.1.times_spec(s)))
}

pub(crate) proof fn lemma_pow2_31()
    ensures
        pow2(31) == 2147483648,
        pow2(30) == 1073741824,
{
    reveal_with_fuel(pow2, 32);
}

/// `inv_pow2(k)` is the inverse of `2^k` modulo `P`.
pub proof fn lemma_inv_pow2(k: nat)
    requires
        k <= 31,
    ensures
        (pow2(k) * inv_pow2(k).0) % (P as int) == 1,
        inv_pow2(k).0 < P,
{
    lemma_pow2_31();
    if k > 0 {
        lemma_pow2_adds(k, (31 - k) as nat);
        lemma_pow2_mono((31 - k) as nat, 30);
        assert(k + (31 - k) as nat == 31);
        assert(pow2(k) * pow2((31 - k) as nat) == 2147483648);
    } else {
        assert(pow2(0) == 1);
    }
}

// ---------------------------------------------------------------------------
// The evaluator.

/// The logup state of the row being evaluated.
pub struct LogupAtRow {
    /// The trace tree holding the cumulative-sum columns.
    pub interaction: usize,
    /// The claimed sum divided by the trace size, added to every row's difference.
    pub cumsum_shift: SecureField,
    /// The fractions written so far.
    pub fracs: Vec<LaneFraction>,
    /// Whether the fractions were turned into constraints.
    pub is_finalized: bool,
    /// The base-2 logarithm of the trace size.
    pub log_size: u32,
}

/// Evaluates constraints at evaluation-domain points, a very packed row at a time.
pub struct SimdDomainEvaluator {
    /// The trace columns on the evaluation domain, in bit-reversed order, by tree.
    pub trace_eval: Vec<Vec<Vec<M31>>>,
    /// The next column to read of each tree.
    pub column_index_per_interaction: Vec<usize>,
    /// The very packed row evaluated.
    pub vec_row: usize,
    /// The powers of the random coefficient, one per constraint.
    pub random_coeff_powers: Vec<SecureField>,
    /// The random combination of the constraints so far, lane by lane.
    pub row_res: Vec<SecureField>,
    /// The number of constraints added so far.
    pub constraint_index: usize,
    /// The base-2 logarithm of the trace domain size.
    pub domain_log_size: u32,
    /// The base-2 logarithm of the evaluation domain size.
    pub eval_domain_log_size: u32,
    /// The logup state.
    pub logup: LogupAtRow,
}

/// `new` is `old` with entry `t` advanced by `k` and the other entries kept.
pub open spec fn advanced(old: Seq<usize>, new: Seq<usize>, t: int, k: int) -> bool {
    &&& new.len() == old.len()
    &&& new[t] == old[t] + k
    &&& forall|j: int| 0 <= j < old.len() && j != t ==> new[j] == old[j]
}

impl SimdDomainEvaluator {
    /// The trace columns' values.
    pub open spec fn trace_view(&self) -> Seq<Seq<Seq<M31>>> {
        self.trace_eval@.map_values(|t: Vec<Vec<M31>>| t@.map_values(|c: Vec<M31>| c@))
    }

    /// The logup fractions written so far.
    pub open spec fn fracs_view(&self) -> Seq<(Seq<SecureField>, Seq<SecureField>)> {
        pairs_of(self.logup.fracs@)
    }

    /// The evaluator's values are in range: reduced field elements, one column
    /// index per tree, very packed results and fractions.
    pub open spec fn wf(&self) -> bool {
        &&& self.column_index_per_interaction@.len() == self.trace_eval@.len()
        &&& lanes_ok(self.row_res@)
        &&& all_reduced(self.random_coeff_powers@)
        &&& self.logup.cumsum_shift.is_reduced()
        &&& forall|k: int| 0 <= k < self.logup.fracs@.len() ==> frac_ok(#[trigger] self.fracs_view()[k])
        &&& forall|t: int, c: int, j: int|
            0 <= t < self.trace_view().len() && 0 <= c < self.trace_view()[t].len() && 0 <= j
                < self.trace_view()[t][c].len() ==> (#[trigger] self.trace_view()[t][c][j]).0 < P
    }

    /// The domains fit the trace: the evaluation domain is larger than the
    /// trace domain, every column covers the evaluation domain, and the row
    /// lies in it.
    pub open spec fn domain_ok(&self) -> bool {
        &&& self.domain_log_size < self.eval_domain_log_size
        &&& pow2(self.eval_domain_log_size as nat) <= usize::MAX
        &&& (self.vec_row + 1) * N_VERY_PACKED_LANES <= pow2(self.eval_domain_log_size as nat)
        &&& forall|t: int, c: int|
            0 <= t < self.trace_view().len() && 0 <= c < self.trace_view()[t].len() ==> (#[trigger] self.trace_view()[t][c]).len()
                == pow2(self.eval_domain_log_size as nat)
    }

    /// The fields that evaluation never changes are equal.
    pub open spec fn same_inputs(&self, other: &Self) -> bool {
        &&& self.trace_eval@ == other.trace_eval@
        &&& self.vec_row == other.vec_row
        &&& self.random_coeff_powers@ == other.random_coeff_powers@
        &&& self.domain_log_size == other.domain_log_size
        &&& self.eval_domain_log_size == other.eval_domain_log_size
    }

    /// An evaluator for very packed row `vec_row`, with no column read and no
    /// constraint added, whose logup state reads the interaction trace and
    /// shifts each row's difference by `claimed_sum / 2^log_size`.
    #[verifier::rlimit(40)]
    pub fn new(
        trace_eval: Vec<Vec<Vec<M31>>>,
        vec_row: usize,
        random_coeff_powers: Vec<SecureField>,
        domain_log_size: u32,
        eval_log_size: u32,
        log_size: u32,
        claimed_sum: SecureField,
    ) -> (r: Self)
        requires
            log_size <= 31,
            claimed_sum.is_reduced(),
            all_reduced(random_coeff_powers@),
            forall|t: int, c: int, j: int|
                0 <= t < trace_eval@.len() && 0 <= c < trace_eval@[t]@.len() && 0 <= j < trace_eval@[t]@[c]@.len()
                    ==> (#[trigger] trace_eval@[t]@[c]@[j]).0 < P,
        ensures
            r.wf(),
            r.trace_eval@ == trace_eval@,
            r.column_index_per_interaction@ == Seq::new(trace_eval@.len(), |i: int| 0usize),
            r.vec_row == vec_row,
            r.random_coeff_powers@ == random_coeff_powers@,
            r.row_res@ == lanes_zero(),
            r.constraint_index == 0,
            r.domain_log_size == domain_log_size,
            r.eval_domain_log_size == eval_log_size,
            r.logup.interaction == INTERACTION_TRACE_IDX,
            r.logup.cumsum_shift == scale_base(claimed_sum, inv_pow2(log_size as nat)),
            r.logup.fracs@.len() == 0,
            r.logup.is_finalized,
            r.logup.log_size == log_size,
    {
        let mut idx: Vec<usize> = Vec::new();
        let mut k: usize = 0;
        while k < trace_eval.len()
            invariant
                k <= trace_eval@.len(),
                idx@ == Seq::new(k as nat, |i: int| 0usize),
            decreases trace_eval@.len() - k,
        {
            idx.push(0);
            k = k + 1;
            assert(idx@ =~= Seq::new(k as nat, |i: int| 0usize));
        }
        proof {
            lemma_inv_pow2(log_size as nat);
            lemma_pow2_31();
            if log_size > 0 {
                lemma_pow2_mono((31 - log_size) as nat, 30);
            }
        }
        let inv: M31 = if log_size == 0 {
            M31(1)
        } else {
            proof {
                lemma_pow2_mono((31 - log_size) as nat, 31);
            }
            M31(pow2_usize(31 - log_size) as u32)
        };
        let s = claimed_sum;
        let cumsum_shift = QM31(
            CM31(s.0.0.times(inv), s.0.1.times(inv)),
            CM31(s.1.0.times(inv), s.1.1.times(inv)),
        );
        let row_res = zero_lanes();
        let r = SimdDomainEvaluator {
            trace_eval,
            column_index_per_interaction: idx,
            vec_row,
            random_coeff_powers,
            row_res,
            constraint_index: 0,
            domain_log_size,
            eval_domain_log_size: eval_log_size,
            logup: LogupAtRow {
                interaction: INTERACTION_TRACE_IDX,
                cumsum_shift,
                fracs: Vec::new(),
                is_finalized: true,
                log_size,
            },
        };
        assert(r.trace_view().len() == r.trace_eval@.len());
        assert forall|t: int, c: int, j: int|
            0 <= t < r.trace_view().len() && 0 <= c < r.trace_view()[t].len() && 0 <= j
                < r.trace_view()[t][c].len() implies (#[trigger] r.trace_view()[t][c][j]).0 < P by {
            assert(r.trace_view()[t][c][j] == r.trace_eval@[t]@[c]@[j]);
        }
        r
    }

    /// Reads the next column of tree `interaction` at the row moved by each of
    /// `offsets`: lane `i` of value `k` is the column's value at index
    /// `offset_index(32 vec_row + i, ..., offsets[k])`.
    pub fn next_interaction_mask(&mut self, interaction: usize, offsets: &Vec<isize>) -> (r: Vec<Vec<M31>>)
        requires
            old(self).wf(),
            old(self).domain_ok(),
            interaction < old(self).trace_eval@.len(),
            old(self).column_index_per_interaction@[interaction as int] < old(self).trace_eval@[interaction as int]@.len(),
        ensures
            final(self).wf(),
            final(self).domain_ok(),
            final(self).same_inputs(old(self)),
            advanced(old(self).column_index_per_interaction@, final(self).column_index_per_interaction@, interaction as int, 1),
            final(self).row_res@ == old(self).row_res@,
            final(self).constraint_index == old(self).constraint_index,
            final(self).logup == old(self).logup,
            r@.len() == offsets@.len(),
            forall|k: int|
                0 <= k < offsets@.len() ==> (#[trigger] r@[k])@ == mask_lanes(
                    old(self).trace_view()[interaction as int][old(self).column_index_per_interaction@[interaction as int] as int],
                    old(self).vec_row as nat,
                    old(self).domain_log_size as nat,
                    old(self).eval_domain_log_size as nat,
                    offsets@[k] as int,
                ),
            forall|k: int, l: int| 0 <= k < offsets@.len() && 0 <= l < N_VERY_PACKED_LANES ==> (#[trigger] r@[k]@[l]).0 < P,
    {
        let col_index = self.column_index_per_interaction[interaction];
        let ghost col = self.trace_view()[interaction as int][col_index as int];
        let ghost s0 = *self;
        assert(self.trace_eval@[interaction as int]@[col_index as int]@ == col);
        assert(col.len() == pow2(self.eval_domain_log_size as nat));
        let mut out: Vec<Vec<M31>> = Vec::new();
        let mut k: usize = 0;
        while k < offsets.len()
            invariant
                *self == s0,
                s0.wf(),
                s0.domain_ok(),
                interaction < s0.trace_eval@.len(),
                col_index < s0.trace_eval@[interaction as int]@.len(),
                col == s0.trace_view()[interaction as int][col_index as int],
                s0.trace_eval@[interaction as int]@[col_index as int]@ == col,
                col.len() == pow2(s0.eval_domain_log_size as nat),
                k <= offsets@.len(),
                out@.len() == k,
                forall|j: int|
                    0 <= j < k ==> (#[trigger] out@[j])@ == mask_lanes(
                        col,
                        s0.vec_row as nat,
                        s0.domain_log_size as nat,
                        s0.eval_domain_log_size as nat,
                        offsets@[j] as int,
                    ),
                forall|j: int, l: int| 0 <= j < k && 0 <= l < N_VERY_PACKED_LANES ==> (#[trigger] out@[j]@[l]).0 < P,
            decreases offsets@.len() - k,
        {
            let off = offsets[k];
            let mut lanes: Vec<M31> = Vec::new();
            let mut i: usize = 0;
            let ghost want = mask_lanes(
                col,
                s0.vec_row as nat,
                s0.domain_log_size as nat,
                s0.eval_domain_log_size as nat,
                off as int,
            );
            while i < N_VERY_PACKED_LANES
                invariant
                    *self == s0,
                    s0.wf(),
                    s0.domain_ok(),
                    interaction < s0.trace_eval@.len(),
                    col_index < s0.trace_eval@[interaction as int]@.len(),
                    col == s0.trace_view()[interaction as int][col_index as int],
                    s0.trace_eval@[interaction as int]@[col_index as int]@ == col,
                    col.len() == pow2(s0.eval_domain_log_size as nat),
                    want == mask_lanes(col, s0.vec_row as nat, s0.domain_log_size as nat, s0.eval_domain_log_size as nat, off as int),
                    i <= N_VERY_PACKED_LANES,
                    lanes@ == want.take(i as int),
                    forall|l: int| 0 <= l < i ==> (#[trigger] lanes@[l]).0 < P,
                decreases N_VERY_PACKED_LANES - i,
            {
                assert(self.vec_row * N_VERY_PACKED_LANES + i < pow2(self.eval_domain_log_size as nat)) by (nonlinear_arith)
                    requires
                        (self.vec_row + 1) * N_VERY_PACKED_LANES <= pow2(self.eval_domain_log_size as nat),
                        i < N_VERY_PACKED_LANES,
                ;
                let row = self.vec_row * N_VERY_PACKED_LANES + i;
                let idx = offset_bit_reversed_circle_domain_index(row, self.domain_log_size, self.eval_domain_log_size, off);
                let v = self.trace_eval[interaction][col_index][idx];
                assert(v.0 < P) by {
                    assert(s0.trace_view()[interaction as int][col_index as int][idx as int] == v);
                }
                lanes.push(v);
                assert(lanes@ =~= want.take(i + 1));
                i = i + 1;
            }
            assert(lanes@ =~= want);
            out.push(lanes);
            k = k + 1;
        }
        let n_cols = self.trace_eval[interaction].len();
        assert(col_index < n_cols);
        self.column_index_per_interaction.set(interaction, col_index + 1);
        proof {
            assert(self.trace_eval@ == s0.trace_eval@);
            assert(self.trace_view() == s0.trace_view());
            assert(self.fracs_view() == s0.fracs_view());
            assert(self.wf());
        }
        out
    }

    /// Reads the next four columns of tree `interaction` as one secure value
    /// per offset.
    pub fn next_extension_interaction_mask(&mut self, interaction: usize, offsets: &Vec<isize>) -> (r: Vec<Vec<SecureField>>)
        requires
            old(self).wf(),
            old(self).domain_ok(),
            interaction < old(self).trace_eval@.len(),
            old(self).column_index_per_interaction@[interaction as int] + 4 <= old(self).trace_eval@[interaction as int]@.len(),
        ensures
            final(self).wf(),
            final(self).domain_ok(),
            final(self).same_inputs(old(self)),
            advanced(old(self).column_index_per_interaction@, final(self).column_index_per_interaction@, interaction as int, 4),
            final(self).row_res@ == old(self).row_res@,
            final(self).constraint_index == old(self).constraint_index,
            final(self).logup == old(self).logup,
            r@.len() == offsets@.len(),
            forall|k: int|
                0 <= k < offsets@.len() ==> (#[trigger] r@[k])@ == ext_mask(
                    old(self).trace_view()[interaction as int],
                    old(self).column_index_per_interaction@[interaction as int] as int,
                    old(self).vec_row as nat,
                    old(self).domain_log_size as nat,
                    old(self).eval_domain_log_size as nat,
                    offsets@[k] as int,
                ),
            forall|k: int| 0 <= k < offsets@.len() ==> lanes_ok(#[trigger] r@[k]@),
    {
        let ghost s0 = *self;
        let m0 = self.next_interaction_mask(interaction, offsets);
        let m1 = self.next_interaction_mask(interaction, offsets);
        let m2 = self.next_interaction_mask(interaction, offsets);
        let m3 = self.next_interaction_mask(interaction, offsets);
        assert(self.trace_view() == s0.trace_view());
        let mut out: Vec<Vec<SecureField>> = Vec::new();
        let mut k: usize = 0;
        while k < offsets.len()
            invariant
                k <= offsets@.len(),
                m0@.len() == offsets@.len(),
                m1@.len() == offsets@.len(),
                m2@.len() == offsets@.len(),
                m3@.len() == offsets@.len(),
                forall|j: int, l: int| 0 <= j < offsets@.len() && 0 <= l < N_VERY_PACKED_LANES ==> (#[trigger] m0@[j]@[l]).0 < P,
                forall|j: int, l: int| 0 <= j < offsets@.len() && 0 <= l < N_VERY_PACKED_LANES ==> (#[trigger] m1@[j]@[l]).0 < P,
                forall|j: int, l: int| 0 <= j < offsets@.len() && 0 <= l < N_VERY_PACKED_LANES ==> (#[trigger] m2@[j]@[l]).0 < P,
                forall|j: int, l: int| 0 <= j < offsets@.len() && 0 <= l < N_VERY_PACKED_LANES ==> (#[trigger] m3@[j]@[l]).0 < P,
                forall|j: int| 0 <= j < offsets@.len() ==> (#[trigger] m0@[j])@.len() == N_VERY_PACKED_LANES,
                forall|j: int| 0 <= j < offsets@.len() ==> (#[trigger] m1@[j])@.len() == N_VERY_PACKED_LANES,
                forall|j: int| 0 <= j < offsets@.len() ==> (#[trigger] m2@[j])@.len() == N_VERY_PACKED_LANES,
                forall|j: int| 0 <= j < offsets@.len() ==> (#[trigger] m3@[j])@.len() == N_VERY_PACKED_LANES,
                out@.len() == k,
                forall|j: int|
                    0 <= j < k ==> (#[trigger] out@[j])@ == combine_lanes(m0@[j]@, m1@[j]@, m2@[j]@, m3@[j]@),
                forall|j: int| 0 <= j < k ==> lanes_ok(#[trigger] out@[j]@),
            decreases offsets@.len() - k,
        {
            let mut lanes: Vec<SecureField> = Vec::new();
            let mut l: usize = 0;
            let ghost want = combine_lanes(m0@[k as int]@, m1@[k as int]@, m2@[k as int]@, m3@[k as int]@);
            while l < N_VERY_PACKED_LANES
                invariant
                    k < offsets@.len(),
                    m0@.len() == offsets@.len(),
                    m1@.len() == offsets@.len(),
                    m2@.len() == offsets@.len(),
                    m3@.len() == offsets@.len(),
                    m0@[k as int]@.len() == N_VERY_PACKED_LANES,
                    m1@[k as int]@.len() == N_VERY_PACKED_LANES,
                    m2@[k as int]@.len() == N_VERY_PACKED_LANES,
                    m3@[k as int]@.len() == N_VERY_PACKED_LANES,
                    forall|j: int, q: int| 0 <= j < offsets@.len() && 0 <= q < N_VERY_PACKED_LANES ==> (#[trigger] m0@[j]@[q]).0 < P,
                    forall|j: int, q: int| 0 <= j < offsets@.len() && 0 <= q < N_VERY_PACKED_LANES ==> (#[trigger] m1@[j]@[q]).0 < P,
                    forall|j: int, q: int| 0 <= j < offsets@.len() && 0 <= q < N_VERY_PACKED_LANES ==> (#[trigger] m2@[j]@[q]).0 < P,
                    forall|j: int, q: int| 0 <= j < offsets@.len() && 0 <= q < N_VERY_PACKED_LANES ==> (#[trigger] m3@[j]@[q]).0 < P,
                    want == combine_lanes(m0@[k as int]@, m1@[k as int]@, m2@[k as int]@, m3@[k as int]@),
                    l <= N_VERY_PACKED_LANES,
                    lanes@ == want.take(l as int),
                    all_reduced(lanes@),
                decreases N_VERY_PACKED_LANES - l,
            {
                let x = QM31(CM31(m0[k][l], m1[k][l]), CM31(m2[k][l], m3[k][l]));
                assert(m0@[k as int]@[l as int].0 < P && m1@[k as int]@[l as int].0 < P);
                assert(m2@[k as int]@[l as int].0 < P && m3@[k as int]@[l as int].0 < P);
                lanes.push(x);
                assert(lanes@ =~= want.take(l + 1));
                l = l + 1;
            }
            assert(lanes@ =~= want);
            out.push(lanes);
            k = k + 1;
        }
        out
    }

    /// Adds `constraint` times the next random coefficient power to the result.
    pub fn add_constraint(&mut self, constraint: &Vec<SecureField>)
        requires
            old(self).wf(),
            lanes_ok(constraint@),
            old(self).constraint_index < old(self).random_coeff_powers@.len(),
        ensures
            final(self).wf(),
            final(self).same_inputs(old(self)),
            final(self).column_index_per_interaction@ == old(self).column_index_per_interaction@,
            final(self).logup == old(self).logup,
            final(self).constraint_index == old(self).constraint_index + 1,
            final(self).row_res@ == lanes_plus(
                old(self).row_res@,
                lanes_scale(old(self).random_coeff_powers@[old(self).constraint_index as int], constraint@),
            ),
    {
        let n_coeffs = self.random_coeff_powers.len();
        assert(self.constraint_index < n_coeffs);
        let c = self.random_coeff_powers[self.constraint_index];
        assert(c.is_reduced());
        let term = lanes_scale_exec(c, constraint);
        let res = lanes_binary(&self.row_res, &term, 0);
        self.row_res = res;
        self.constraint_index = self.constraint_index + 1;
        proof {
            assert(self.fracs_view() == old(self).fracs_view());
            assert(self.trace_view() == old(self).trace_view());
        }
    }

    /// The secure value whose coordinates are the four base values, lane by lane.
    pub fn combine_ef(values: &Vec<Vec<M31>>) -> (r: Vec<SecureField>)
        requires
            values@.len() == 4,
            forall|k: int| 0 <= k < 4 ==> (#[trigger] values@[k])@.len() == N_VERY_PACKED_LANES,
        ensures
            r@ == combine_lanes(values@[0]@, values@[1]@, values@[2]@, values@[3]@),
    {
        let mut r: Vec<SecureField> = Vec::new();
        let mut l: usize = 0;
        let ghost want = combine_lanes(values@[0]@, values@[1]@, values@[2]@, values@[3]@);
        while l < N_VERY_PACKED_LANES
            invariant
                values@.len() == 4,
                forall|k: int| 0 <= k < 4 ==> (#[trigger] values@[k])@.len() == N_VERY_PACKED_LANES,
                want == combine_lanes(values@[0]@, values@[1]@, values@[2]@, values@[3]@),
                l <= N_VERY_PACKED_LANES,
                r@ == want.take(l as int),
            decreases N_VERY_PACKED_LANES - l,
        {
            assert(values@[0]@.len() == N_VERY_PACKED_LANES && values@[1]@.len() == N_VERY_PACKED_LANES);
            assert(values@[2]@.len() == N_VERY_PACKED_LANES && values@[3]@.len() == N_VERY_PACKED_LANES);
            r.push(QM31(CM31(values[0][l], values[1][l]), CM31(values[2][l], values[3][l])));
            assert(r@ =~= want.take(l + 1));
            l = l + 1;
        }
        assert(r@ =~= want);
        r
    }

    /// Records a logup fraction; the first fraction after a finalization
    /// starts a new, unfinalized logup.
    pub fn write_logup_frac(&mut self, fraction: LaneFraction)
        requires
            old(self).wf(),
            frac_ok(fraction.view_pair()),
        ensures
            final(self).wf(),
            final(self).same_inputs(old(self)),
            final(self).column_index_per_interaction@ == old(self).column_index_per_interaction@,
            final(self).row_res@ == old(self).row_res@,
            final(self).constraint_index == old(self).constraint_index,
            final(self).logup.interaction == old(self).logup.interaction,
            final(self).logup.cumsum_shift == old(self).logup.cumsum_shift,
            final(self).logup.log_size == old(self).logup.log_size,
            final(self).fracs_view() == old(self).fracs_view().push(fraction.view_pair()),
            final(self).logup.is_finalized == (old(self).logup.is_finalized && old(self).logup.fracs@.len() > 0),
    {
        if self.logup.fracs.len() == 0 {
            self.logup.is_finalized = false;
        }
        let ghost p = fraction.view_pair();
        self.logup.fracs.push(fraction);
        assert(self.fracs_view() =~= old(self).fracs_view().push(p));
        assert(self.trace_view() == old(self).trace_view());
        assert forall|k: int| 0 <= k < self.logup.fracs@.len() implies frac_ok(#[trigger] self.fracs_view()[k]) by {
            if k < old(self).logup.fracs@.len() {
                assert(self.fracs_view()[k] == old(self).fracs_view()[k]);
            }
        }
    }
}

// ---------------------------------------------------------------------------
// Finalizing logup.

/// The cumulative sum read for batch `b` (zero before the first batch).
pub open spec fn prev_col_cumsum(cols: Seq<Seq<M31>>, c0: int, vec_row: nat, dls: nat, edls: nat, b: nat) -> Seq<SecureField> {
    if b == 0 {
        lanes_zero()
    } else {
        ext_mask(cols, c0 + 4 * (b - 1), vec_row, dls, edls, 0)
    }
}

/// The logup constraint of batch `b` out of batches `0..=last`, reading the
/// cumulative-sum columns of `cols` from column `c0` on. Each batch but the
/// last owns a column of cumulative sums `s_b`, and its constraint is
/// `(s_b - s_{b-1}) d - n` for the batch's summed fraction `n / d`. The last
/// batch reads the cumulative sum at this row and the previous one, and its
/// constraint is `(s - s_prev - s_{last-1} + shift) d - n`.
pub open spec fn logup_constraint(
    cols: Seq<Seq<M31>>,
    c0: int,
    vec_row: nat,
    dls: nat,
    edls: nat,
    fs: Seq<(Seq<SecureField>, Seq<SecureField>)>,
    batching: Seq<usize>,
    shift: SecureField,
    last: nat,
    b: nat,
) -> Seq<SecureField> {
    let f = frac_sum(batch_members(fs, batching, b as usize));
    let prev = prev_col_cumsum(cols, c0, vec_row, dls, edls, b);
    if b < last {
        let cur = ext_mask(cols, c0 + 4 * b, vec_row, dls, edls, 0);
        lanes_minus(lanes_times(lanes_minus(cur, prev), f.1), f.0)
    } else {
        let c = c0 + 4 * last;
        let diff = lanes_minus(
            lanes_minus(ext_mask(cols, c, vec_row, dls, edls, 0), ext_mask(cols, c, vec_row, dls, edls, -1)),
            prev,
        );
        lanes_minus(lanes_times(lanes_add_scalar(diff, shift), f.1), f.0)
    }
}

/// `row_res` after adding `values[k]` times coefficient `ci + k`, in order.
pub open spec fn add_constraints(
    row_res: Seq<SecureField>,
    coeffs: Seq<SecureField>,
    ci: int,
    values: Seq<Seq<SecureField>>,
) -> Seq<SecureField>
    decreases values.len(),
{
    if values.len() == 0 {
        row_res
    } else {
        lanes_plus(
            add_constraints(row_res, coeffs, ci, values.drop_last()),
            lanes_scale(coeffs[ci + values.len() - 1], values.last()),
        )
    }
}

/// Every fraction in a batch of its own: batch `i` for fraction `i`.
pub open spec fn single_batches(n: nat) -> Seq<usize> {
    Seq::new(n, |k: int| k as usize)
}

/// Consecutive pairs of fractions batched together: batch `i / 2` for fraction `i`.
pub open spec fn paired_batches(n: nat) -> Seq<usize> {
    Seq::new(n, |k: int| (k / 2) as usize)
}

impl SimdDomainEvaluator {
    /// The logup constraints of batches `0..k` of this evaluator's state.
    pub open spec fn logup_constraints(&self, batching: Seq<usize>, k: nat) -> Seq<Seq<SecureField>> {
        Seq::new(
            k,
            |b: int| logup_constraint(
                self.trace_view()[self.logup.interaction as int],
                self.column_index_per_interaction@[self.logup.interaction as int] as int,
                self.vec_row as nat,
                self.domain_log_size as nat,
                self.eval_domain_log_size as nat,
                self.fracs_view(),
                batching,
                self.logup.cumsum_shift,
                max_batch(batching) as nat,
                b as nat,
            ),
        )
    }

    /// Turns the logup fractions into constraints, the fractions grouped by
    /// `batching[i]`, the batch of fraction `i`: one constraint per batch, in
    /// batch order (see `logup_constraint`), each reading the next four
    /// columns of the interaction trace.
    pub fn finalize_logup_batched(&mut self, batching: &Vec<usize>)
        requires
            old(self).wf(),
            old(self).domain_ok(),
            !old(self).logup.is_finalized,
            batching@.len() == old(self).logup.fracs@.len(),
            batching@.len() >= 1,
            consecutive_batches(batching@),
            old(self).logup.interaction < old(self).trace_eval@.len(),
            old(self).column_index_per_interaction@[old(self).logup.interaction as int] + 4 * (max_batch(batching@) + 1)
                <= old(self).trace_eval@[old(self).logup.interaction as int]@.len(),
            old(self).constraint_index + max_batch(batching@) + 1 <= old(self).random_coeff_powers@.len(),
        ensures
            final(self).wf(),
            final(self).domain_ok(),
            final(self).same_inputs(old(self)),
            advanced(
                old(self).column_index_per_interaction@,
                final(self).column_index_per_interaction@,
                old(self).logup.interaction as int,
                4 * (max_batch(batching@) + 1),
            ),
            final(self).constraint_index == old(self).constraint_index + max_batch(batching@) + 1,
            final(self).row_res@ == add_constraints(
                old(self).row_res@,
                old(self).random_coeff_powers@,
                old(self).constraint_index as int,
                old(self).logup_constraints(batching@, (max_batch(batching@) + 1) as nat),
            ),
            final(self).logup.is_finalized,
            final(self).logup.interaction == old(self).logup.interaction,
            final(self).logup.cumsum_shift == old(self).logup.cumsum_shift,
            final(self).logup.log_size == old(self).logup.log_size,
            final(self).fracs_view() == old(self).fracs_view(),
    {
        let ghost s0 = *self;
        let ghost fs = self.fracs_view();
        let ghost itr = self.logup.interaction as int;
        let ghost c0 = self.column_index_per_interaction@[itr] as int;
        let ghost cols = self.trace_view()[itr];
        let mut last: usize = 0;
        let mut i: usize = 0;
        while i < batching.len()
            invariant
                i <= batching@.len(),
                last == max_batch(batching@.take(i as int)),
            decreases batching@.len() - i,
        {
            assert(batching@.take(i + 1).drop_last() =~= batching@.take(i as int));
            if batching[i] > last {
                last = batching[i];
            }
            i = i + 1;
        }
        assert(batching@.take(batching@.len() as int) =~= batching@);
        proof {
            lemma_max_batch(batching@);
        }
        let groups = group_by_batch(batching);
        let interaction = self.logup.interaction;
        let zero_offset: Vec<isize> = vec![0isize];
        let mut prev_col = zero_lanes();
        let mut b: usize = 0;
        while b < last
            invariant
                b <= last == max_batch(batching@),
                self.wf(),
                self.domain_ok(),
                self.same_inputs(&s0),
                s0.wf(),
                fs == s0.fracs_view(),
                self.fracs_view() == fs,
                self.logup == s0.logup,
                interaction == s0.logup.interaction,
                itr == interaction,
                interaction < s0.trace_eval@.len(),
                batching@.len() == s0.logup.fracs@.len(),
                consecutive_batches(batching@),
                c0 == s0.column_index_per_interaction@[itr],
                cols == s0.trace_view()[itr],
                self.trace_view() == s0.trace_view(),
                c0 + 4 * (last + 1) <= s0.trace_eval@[itr]@.len(),
                s0.constraint_index + last + 1 <= s0.random_coeff_powers@.len(),
                advanced(s0.column_index_per_interaction@, self.column_index_per_interaction@, itr, 4 * b),
                self.constraint_index == s0.constraint_index + b,
                self.row_res@ == add_constraints(s0.row_res@, s0.random_coeff_powers@, s0.constraint_index as int, s0.logup_constraints(batching@, b as nat)),
                prev_col@ == prev_col_cumsum(cols, c0, s0.vec_row as nat, s0.domain_log_size as nat, s0.eval_domain_log_size as nat, b as nat),
                lanes_ok(prev_col@),
                zero_offset@ == seq![0isize],
                forall|c: usize|
                    #[trigger] batch_groups_contents(groups).contains_key(c) == (batch_indices(batching@, c).len() > 0),
                forall|c: usize|
                    batch_groups_contents(groups).contains_key(c) ==> #[trigger] batch_groups_contents(groups)[c]
                        == batch_indices(batching@, c),
            decreases last - b,
        {
            assert(batch_present(batching@, b));
            let f = batch_sum(&self.logup.fracs, batching, &groups, b);
            let cur_v = self.next_extension_interaction_mask(interaction, &zero_offset);
            let cur = cur_v[0].clone();
            assert(lanes_ok(cur_v@[0]@));
            let diff = lanes_binary(&cur, &prev_col, 1);
            let t = lanes_binary(&diff, &f.denominator, 2);
            let value = lanes_binary(&t, &f.numerator, 1);
            proof {
                assert(value@ == s0.logup_constraints(batching@, (b + 1) as nat)[b as int]);
                assert(s0.logup_constraints(batching@, (b + 1) as nat).drop_last() =~= s0.logup_constraints(batching@, b as nat));
            }
            self.add_constraint(&value);
            prev_col = cur;
            b = b + 1;
        }
        assert(batch_present(batching@, last));
        let f = batch_sum(&self.logup.fracs, batching, &groups, last);
        let offsets: Vec<isize> = vec![-1isize, 0isize];
        let m = self.next_extension_interaction_mask(interaction, &offsets);
        let prev_row = m[0].clone();
        let cur = m[1].clone();
        assert(lanes_ok(m@[0]@) && lanes_ok(m@[1]@));
        let d1 = lanes_binary(&cur, &prev_row, 1);
        let diff = lanes_binary(&d1, &prev_col, 1);
        let shift = self.logup.cumsum_shift;
        let fixed = lanes_add_scalar_exec(&diff, shift);
        let t = lanes_binary(&fixed, &f.denominator, 2);
        let value = lanes_binary(&t, &f.numerator, 1);
        proof {
            assert(value@ == s0.logup_constraints(batching@, (last + 1) as nat)[last as int]);
            assert(s0.logup_constraints(batching@, (last + 1) as nat).drop_last() =~= s0.logup_constraints(batching@, last as nat));
        }
        self.add_constraint(&value);
        self.logup.is_finalized = true;
        proof {
            assert(self.fracs_view() =~= s0.fracs_view());
        }
    }

    /// Finalizes logup with every fraction in a batch of its own.
    pub fn finalize_logup(&mut self)
        requires
            old(self).wf(),
            old(self).domain_ok(),
            !old(self).logup.is_finalized,
            old(self).logup.fracs@.len() >= 1,
            old(self).logup.interaction < old(self).trace_eval@.len(),
            old(self).column_index_per_interaction@[old(self).logup.interaction as int] + 4 * old(self).logup.fracs@.len()
                <= old(self).trace_eval@[old(self).logup.interaction as int]@.len(),
            old(self).constraint_index + old(self).logup.fracs@.len() <= old(self).random_coeff_powers@.len(),
        ensures
            final(self).wf(),
            final(self).same_inputs(old(self)),
            final(self).constraint_index == old(self).constraint_index + old(self).logup.fracs@.len(),
            final(self).row_res@ == add_constraints(
                old(self).row_res@,
                old(self).random_coeff_powers@,
                old(self).constraint_index as int,
                old(self).logup_constraints(single_batches(old(self).logup.fracs@.len()), old(self).logup.fracs@.len()),
            ),
            final(self).logup.is_finalized,
            advanced(
                old(self).column_index_per_interaction@,
                final(self).column_index_per_interaction@,
                old(self).logup.interaction as int,
                4 * old(self).logup.fracs@.len() as int,
            ),
            final(self).domain_ok(),
            final(self).logup.interaction == old(self).logup.interaction,
            final(self).logup.cumsum_shift == old(self).logup.cumsum_shift,
            final(self).logup.log_size == old(self).logup.log_size,
            final(self).fracs_view() == old(self).fracs_view(),
    {
        let n = self.logup.fracs.len();
        let mut batches: Vec<usize> = Vec::new();
        let mut i: usize = 0;
        while i < n
            invariant
                i <= n,
                batches@ == single_batches(i as nat),
            decreases n - i,
        {
            batches.push(i);
            i = i + 1;
            assert(batches@ =~= single_batches(i as nat));
        }
        proof {
            lemma_max_batch_identity(n as nat);
            assert forall|b: usize| b <= max_batch(batches@) implies #[trigger] batch_present(batches@, b) by {
                assert(batches@[b as int] == b);
            }
        }
        self.finalize_logup_batched(&batches);
    }

    /// Finalizes logup with the fractions batched in consecutive pairs.
    pub fn finalize_logup_in_pairs(&mut self)
        requires
            old(self).wf(),
            old(self).domain_ok(),
            !old(self).logup.is_finalized,
            old(self).logup.fracs@.len() >= 1,
            old(self).logup.interaction < old(self).trace_eval@.len(),
            old(self).column_index_per_interaction@[old(self).logup.interaction as int] + 4 * ((old(self).logup.fracs@.len() - 1) / 2 + 1)
                <= old(self).trace_eval@[old(self).logup.interaction as int]@.len(),
            old(self).constraint_index + (old(self).logup.fracs@.len() - 1) / 2 + 1 <= old(self).random_coeff_powers@.len(),
        ensures
            final(self).wf(),
            final(self).same_inputs(old(self)),
            final(self).constraint_index == old(self).constraint_index + (old(self).logup.fracs@.len() - 1) / 2 + 1,
            final(self).row_res@ == add_constraints(
                old(self).row_res@,
                old(self).random_coeff_powers@,
                old(self).constraint_index as int,
                old(self).logup_constraints(
                    paired_batches(old(self).logup.fracs@.len()),
                    ((old(self).logup.fracs@.len() - 1) / 2 + 1) as nat,
                ),
            ),
            final(self).logup.is_finalized,
            advanced(
                old(self).column_index_per_interaction@,
                final(self).column_index_per_interaction@,
                old(self).logup.interaction as int,
                4 * ((old(self).logup.fracs@.len() - 1) / 2 + 1),
            ),
            final(self).domain_ok(),
            final(self).logup.interaction == old(self).logup.interaction,
            final(self).logup.cumsum_shift == old(self).logup.cumsum_shift,
            final(self).logup.log_size == old(self).logup.log_size,
            final(self).fracs_view() == old(self).fracs_view(),
    {
        let n = self.logup.fracs.len();
        let mut batches: Vec<usize> = Vec::new();
        let mut i: usize = 0;
        while i < n
            invariant
                i <= n,
                batches@ == paired_batches(i as nat),
            decreases n - i,
        {
            batches.push(i / 2);
            i = i + 1;
            assert(batches@ =~= paired_batches(i as nat));
        }
        proof {
            lemma_max_batch_pairs(n as nat);
            assert forall|b: usize| b <= max_batch(batches@) implies #[trigger] batch_present(batches@, b) by {
                assert(batches@[2 * b as int] == b);
            }
        }
        self.finalize_logup_batched(&batches);
    }
}

proof fn lemma_max_batch_identity(n: nat)
    requires
        n >= 1,
        n <= usize::MAX,
    ensures
        max_batch(single_batches(n)) == n - 1,
    decreases n,
{
    let s = single_batches(n);
    assert(s.last() == (n - 1) as usize);
    if n > 1 {
        lemma_max_batch_identity((n - 1) as nat);
        assert(s.drop_last() =~= single_batches((n - 1) as nat));
        assert(max_batch(s.drop_last()) == n - 2);
        assert(s.last() == n - 1);
        assert(max_batch(s) == if s.last() > max_batch(s.drop_last()) { s.last() } else { max_batch(s.drop_last()) });
    } else {
        assert(s.drop_last() =~= Seq::<usize>::empty());
        assert(max_batch(s.drop_last()) == 0);
        assert(s.last() == 0);
        assert(max_batch(s) == if s.last() > max_batch(s.drop_last()) { s.last() } else { max_batch(s.drop_last()) });
    }
}

proof fn lemma_max_batch_pairs(n: nat)
    requires
        n >= 1,
        n <= usize::MAX,
    ensures
        max_batch(paired_batches(n)) == (n - 1) / 2,
    decreases n,
{
    let s = paired_batches(n);
    assert(s.last() == ((n - 1) / 2) as usize);
    if n > 1 {
        lemma_max_batch_pairs((n - 1) as nat);
        assert(s.drop_last() =~= paired_batches((n - 1) as nat));
        assert(max_batch(s.drop_last()) == (n - 2) / 2);
        assert(s.last() == (n - 1) / 2);
        assert((n - 1) / 2 == (n - 2) / 2 || (n - 1) / 2 == (n - 2) / 2 + 1);
        assert(max_batch(s) == if s.last() > max_batch(s.drop_last()) { s.last() } else { max_batch(s.drop_last()) });
    } else {
        assert(s.drop_last() =~= Seq::<usize>::empty());
        assert(max_batch(s.drop_last()) == 0);
        assert(s.last() == 0);
        assert(max_batch(s) == if s.last() > max_batch(s.drop_last()) { s.last() } else { max_batch(s.drop_last()) });
    }
}

/// Batch `b` of a logup finalization, for `1 <= b <= last`, subtracts the
/// cumulative sum of batch `b - 1`: the secure value at interaction columns
/// `c0 + 4(b - 1) .. c0 + 4b`, which batch `b - 1` reads as its own
/// cumulative sum. Every batch but the last reads its own sum at columns
/// `c0 + 4b ..`, and the last reads the sums at this row and the previous one
/// from those columns; batch 0 subtracts nothing (zero).
pub proof fn lemma_logup_batch_subtracts_previous_batch_sum(e: SimdDomainEvaluator, batching: Seq<usize>, b: nat)
    requires
        b <= max_batch(batching),
    ensures
        ({
            let last = max_batch(batching) as nat;
            let cols = e.trace_view()[e.logup.interaction as int];
            let c0 = e.column_index_per_interaction@[e.logup.interaction as int] as int;
            let vr = e.vec_row as nat;
            let dls = e.domain_log_size as nat;
            let edls = e.eval_domain_log_size as nat;
            let f = frac_sum(batch_members(e.fracs_view(), batching, b as usize));
            let prev = if b == 0 {
                Seq::new(N_VERY_PACKED_LANES as nat, |l: int| QM31(CM31(M31(0), M31(0)), CM31(M31(0), M31(0))))
            } else {
                combine_lanes(
                    mask_lanes(cols[c0 + 4 * b - 4], vr, dls, edls, 0),
                    mask_lanes(cols[c0 + 4 * b - 3], vr, dls, edls, 0),
                    mask_lanes(cols[c0 + 4 * b - 2], vr, dls, edls, 0),
                    mask_lanes(cols[c0 + 4 * b - 1], vr, dls, edls, 0),
                )
            };
            let own = |off: int| combine_lanes(
                mask_lanes(cols[c0 + 4 * b], vr, dls, edls, off),
                mask_lanes(cols[c0 + 4 * b + 1], vr, dls, edls, off),
                mask_lanes(cols[c0 + 4 * b + 2], vr, dls, edls, off),
                mask_lanes(cols[c0 + 4 * b + 3], vr, dls, edls, off),
            );
            e.logup_constraints(batching, last + 1)[b as int] == if b < last {
                lanes_minus(lanes_times(lanes_minus(own(0), prev), f.1), f.0)
            } else {
                lanes_minus(
                    lanes_times(lanes_add_scalar(lanes_minus(lanes_minus(own(0), own(-1)), prev), e.logup.cumsum_shift), f.1),
                    f.0,
                )
            }
        }),
{
    if b > 0 {
        let c0 = e.column_index_per_interaction@[e.logup.interaction as int] as int;
        assert(c0 + 4 * (b - 1) == c0 + 4 * b - 4);
    }
    assert(lanes_zero() =~= Seq::new(N_VERY_PACKED_LANES as nat, |l: int| QM31(CM31(M31(0), M31(0)), CM31(M31(0), M31(0)))));
}

/// Moving by no steps stays at the same point, and moving `offset` steps and
/// then `-offset` steps comes back: in the bit-reversed evaluation domain,
/// offsets act as a walk around each half of the circle domain.
pub proof fn lemma_offset_index_walk(i: nat, dls: nat, edls: nat, offset: int)
    requires
        dls < edls,
        i < pow2(edls),
    ensures
        offset_index(i, dls, edls, 0) == i,
        offset_index(i, dls, edls, offset) < pow2(edls),
        offset_index(offset_index(i, dls, edls, offset), dls, edls, -offset) == i,
{
    let prev = rev_bits(i, edls);
    let h = pow2((edls - 1) as nat);
    lemma_pow2_pos((edls - 1) as nat);
    lemma_pow2_adds((edls - 1) as nat, 1);
    reveal_with_fuel(pow2, 2);
    assert(pow2(edls) == 2 * h);
    crate::utils::lemma_rev_bits_bound(i, edls);
    crate::utils::lemma_rev_bits_involution(i, edls);
    let st = pow2((edls - dls - 1) as nat);
    let step = offset * st;
    // No steps.
    if prev < h {
        lemma_small_mod(prev, h as nat);
    } else {
        lemma_small_mod((prev - h) as nat, h as nat);
        lemma_mod_add_multiples_vanish(prev - h, h as int);
    }
    assert(0int * st == 0);
    // There and back.
    let moved: int = if prev < h {
        (prev + step) % (h as int)
    } else {
        (prev - step) % (h as int) + h
    };
    assert(0 <= moved < 2 * h);
    crate::utils::lemma_rev_bits_involution(moved as nat, edls);
    crate::utils::lemma_rev_bits_bound(moved as nat, edls);
    let j = rev_bits(moved as nat, edls);
    assert(rev_bits(j, edls) == moved);
    let back = (-offset) * st;
    assert(back == -step) by (nonlinear_arith)
        requires
            back == (-offset) * st,
            step == offset * st,
    ;
    if prev < h {
        assert(moved < h);
        // (prev + step) % h - step == prev (mod h)
        lemma_add_mod_noop(prev as int, step, h as int);
        lemma_sub_mod_noop((prev + step) % (h as int), step, h as int);
        vstd::arithmetic::div_mod::lemma_mod_twice(prev + step, h as int);
        lemma_sub_mod_noop(prev + step, step, h as int);
        lemma_small_mod(prev, h as nat);
        assert((moved + back) % (h as int) == prev);
    } else {
        let p = prev - h;
        let m2 = moved - h;
        assert(m2 == (prev - step) % (h as int));
        lemma_mod_add_multiples_vanish(p - step, h as int);
        assert(prev - step == h + (p - step));
        assert(m2 == (p - step) % (h as int));
        lemma_sub_mod_noop(p, step, h as int);
        lemma_add_mod_noop(m2, step, h as int);
        vstd::arithmetic::div_mod::lemma_mod_twice(p - step, h as int);
        lemma_add_mod_noop(p - step, step, h as int);
        lemma_small_mod(p as nat, h as nat);
        assert((m2 + step) % (h as int) == p);
        assert(moved - back == h + (m2 + step));
        lemma_mod_add_multiples_vanish(m2 + step, h as int);
        assert((moved - back) % (h as int) + h == prev);
    }
}

/// With no offset, lane `i` of a very packed row reads the column at row
/// `32 vec_row + i`: the very packed row `vec_row` covers the 32 consecutive
/// rows from `32 vec_row` on.
pub proof fn lemma_unshifted_mask_reads_row(col: Seq<M31>, vec_row: nat, dls: nat, edls: nat)
    requires
        dls < edls,
        (vec_row + 1) * N_VERY_PACKED_LANES <= pow2(edls),
    ensures
        forall|i: int| 0 <= i < N_VERY_PACKED_LANES ==> #[trigger] mask_lanes(col, vec_row, dls, edls, 0)[i] == col[vec_row
            * N_VERY_PACKED_LANES + i],
{
    assert forall|i: int| 0 <= i < N_VERY_PACKED_LANES implies #[trigger] mask_lanes(col, vec_row, dls, edls, 0)[i]
        == col[vec_row * N_VERY_PACKED_LANES + i] by {
        let r = vec_row * N_VERY_PACKED_LANES as nat + i as nat;
        assert(r < pow2(edls)) by (nonlinear_arith)
            requires
                (vec_row + 1) * N_VERY_PACKED_LANES <= pow2(edls),
                r == vec_row * N_VERY_PACKED_LANES + i,
                0 <= i < N_VERY_PACKED_LANES,
        ;
        lemma_offset_index_walk(r, dls, edls, 0);
    }
}

} // verus!

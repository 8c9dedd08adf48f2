//! Profile store: a per-device learned mapping from state keys to brightness.
//!
//! `predict` returns the entry at the requested key when one exists;
//! otherwise it falls back to the nearest known key under Manhattan distance
//! over bucket indices, ties broken toward the lexicographically smallest key
//! (so toward the lowest ambient-light bucket: prefer the dimmer known
//! profile).  `update` seeds a new key directly with the observed value and
//! moves an existing entry toward the observation by an exponential moving
//! average with rational weight `alpha_num / alpha_den`; differences at or
//! below `epsilon` are treated as a no-op so a settled entry stays settled.
//!
//! Brightness values held here are in milli raw units (the controller scales
//! raw device units by 1000), so the moving average can make progress even on
//! devices whose raw range is only a handful of steps.

use crate::quantize::StateKey;
use vstd::arithmetic::div_mod::{
    lemma_div_by_self, lemma_div_is_ordered, lemma_div_pos_is_pos,
};
use vstd::prelude::*;

verus! {

/// Default smoothing weight numerator: one correction moves an entry a fifth
/// of the way toward the observation.
pub const DEFAULT_ALPHA_NUM: u64 = 200;

/// Default smoothing weight denominator.
pub const DEFAULT_ALPHA_DEN: u64 = 1000;

/// Default no-op threshold in milli raw units.
pub const DEFAULT_EPSILON: u64 = 5;

/// `|x - y|` over mathematical integers.
pub open spec fn abs_diff(x: int, y: int) -> int {
    if x >= y {
        x - y
    } else {
        y - x
    }
}

/// Manhattan distance between two bucket vectors of equal length.
pub open spec fn dist1(a: Seq<u32>, b: Seq<u32>) -> int
    decreases a.len(),
{
    if a.len() == 0 {
        0
    } else {
        dist1(a.drop_last(), b.drop_last()) + abs_diff(a.last() as int, b.last() as int)
    }
}

/// Strict lexicographic order on bucket vectors: some position holds a
/// smaller bucket while everything before it agrees.
pub open spec fn lex_lt(a: Seq<u32>, b: Seq<u32>) -> bool {
    exists|i: int|
        0 <= i < a.len() && i < b.len() && #[trigger] a[i] < b[i] && (forall|j: int|
            0 <= j < i ==> a[j] == b[j])
}

pub proof fn lemma_dist1_nonneg(a: Seq<u32>, b: Seq<u32>)
    ensures
        dist1(a, b) >= 0,
    decreases a.len(),
{
    if a.len() > 0 {
        lemma_dist1_nonneg(a.drop_last(), b.drop_last());
    }
}

/// Distance zero characterizes equality of equal-length bucket vectors.
pub proof fn lemma_dist1_zero(a: Seq<u32>, b: Seq<u32>)
    requires
        a.len() == b.len(),
    ensures
        (dist1(a, b) == 0) <==> (a == b),
    decreases a.len(),
{
    if a.len() == 0 {
        assert(a =~= b);
    } else {
        lemma_dist1_zero(a.drop_last(), b.drop_last());
        lemma_dist1_nonneg(a.drop_last(), b.drop_last());
        if dist1(a, b) == 0 {
            assert(a.drop_last() == b.drop_last() && a.last() == b.last());
            assert forall|i: int| 0 <= i < a.len() implies a[i] == b[i] by {
                if i < a.len() - 1 {
                    assert(a[i] == a.drop_last()[i]);
                    assert(b[i] == b.drop_last()[i]);
                }
            }
            assert(a =~= b);
        }
        if a == b {
            assert(a.drop_last() == b.drop_last());
        }
    }
}

/// Two distinct equal-length bucket vectors are lexicographically ordered one
/// way or the other.
pub proof fn lemma_lex_total(a: Seq<u32>, b: Seq<u32>)
    requires
        a.len() == b.len(),
        a != b,
    ensures
        lex_lt(a, b) || lex_lt(b, a),
    decreases a.len(),
{
    if a.len() == 0 {
        assert(a =~= b);
    } else if a[0] < b[0] {
        assert(0 <= 0 < a.len() && 0 < b.len() && a[0] < b[0] && (forall|j: int|
            0 <= j < 0 ==> a[j] == b[j]));
    } else if b[0] < a[0] {
        assert(0 <= 0 < b.len() && 0 < a.len() && b[0] < a[0] && (forall|j: int|
            0 <= j < 0 ==> b[j] == a[j]));
    } else {
        let a1 = a.skip(1);
        let b1 = b.skip(1);
        if a1 == b1 {
            assert(a =~= b) by {
                assert(forall|i: int| 1 <= i < a.len() ==> #[trigger] a[i] == a1[i - 1]);
                assert(forall|i: int| 1 <= i < b.len() ==> #[trigger] b[i] == b1[i - 1]);
            }
        } else {
            lemma_lex_total(a1, b1);
            if lex_lt(a1, b1) {
                let w = choose|w: int|
                    0 <= w < a1.len() && w < b1.len() && #[trigger] a1[w] < b1[w] && (forall|j: int|
                        0 <= j < w ==> a1[j] == b1[j]);
                assert(a[w + 1] == a1[w] && b[w + 1] == b1[w]);
                assert(forall|j: int| 1 <= j < w + 1 ==> #[trigger] a[j] == a1[j - 1]);
                assert(forall|j: int| 1 <= j < w + 1 ==> #[trigger] b[j] == b1[j - 1]);
                assert(0 <= w + 1 < a.len() && w + 1 < b.len() && a[w + 1] < b[w + 1] && (forall|
                    j: int,
                |
                    0 <= j < w + 1 ==> a[j] == b[j]));
            } else {
                let w = choose|w: int|
                    0 <= w < b1.len() && w < a1.len() && #[trigger] b1[w] < a1[w] && (forall|j: int|
                        0 <= j < w ==> b1[j] == a1[j]);
                assert(b[w + 1] == b1[w] && a[w + 1] == a1[w]);
                assert(forall|j: int| 1 <= j < w + 1 ==> #[trigger] a[j] == a1[j - 1]);
                assert(forall|j: int| 1 <= j < w + 1 ==> #[trigger] b[j] == b1[j - 1]);
                assert(0 <= w + 1 < b.len() && w + 1 < a.len() && b[w + 1] < a[w + 1] && (forall|
                    j: int,
                |
                    0 <= j < w + 1 ==> b[j] == a[j]));
            }
        }
    }
}

/// Lexicographic order is transitive.
pub proof fn lemma_lex_trans(a: Seq<u32>, b: Seq<u32>, c: Seq<u32>)
    requires
        a.len() == b.len(),
        b.len() == c.len(),
        lex_lt(a, b),
        lex_lt(b, c),
    ensures
        lex_lt(a, c),
{
    let i1 = choose|i: int|
        0 <= i < a.len() && i < b.len() && #[trigger] a[i] < b[i] && (forall|j: int|
            0 <= j < i ==> a[j] == b[j]);
    let i2 = choose|i: int|
        0 <= i < b.len() && i < c.len() && #[trigger] b[i] < c[i] && (forall|j: int|
            0 <= j < i ==> b[j] == c[j]);
    if i1 <= i2 {
        assert(a[i1] < c[i1]);
        assert(0 <= i1 < a.len() && i1 < c.len() && a[i1] < c[i1] && (forall|j: int|
            0 <= j < i1 ==> a[j] == c[j]));
    } else {
        assert(a[i2] == b[i2]);
        assert(0 <= i2 < a.len() && i2 < c.len() && a[i2] < c[i2] && (forall|j: int|
            0 <= j < i2 ==> a[j] == c[j]));
    }
}

/// One exponential-moving-average step: the entry moves from `v` toward
/// `obs` by the fraction `num / den`, with the step truncated toward zero.
pub open spec fn ema_step(v: int, obs: int, num: int, den: int) -> int {
    if obs >= v {
        v + ((obs - v) * num) / den
    } else {
        v - ((v - obs) * num) / den
    }
}

/// Convergence of the moving average (one step): the new value stays between
/// the old value and the observation, never moves away from the observation,
/// and moves strictly closer whenever the remaining gap is at least
/// `den / num`.  Repeated updates with one fixed observation therefore
/// approach it monotonically and, once within the no-op threshold, stay put.
pub proof fn lemma_ema_properties(v: int, obs: int, num: int, den: int)
    requires
        1 <= num <= den,
    ensures
        v <= obs ==> v <= ema_step(v, obs, num, den) <= obs,
        obs <= v ==> obs <= ema_step(v, obs, num, den) <= v,
        abs_diff(ema_step(v, obs, num, den), obs) <= abs_diff(v, obs),
        abs_diff(v, obs) * num >= den ==> abs_diff(ema_step(v, obs, num, den), obs) < abs_diff(
            v,
            obs,
        ),
{
    if obs >= v {
        let d = obs - v;
        let step = (d * num) / den;
        assert(d * num >= 0) by (nonlinear_arith)
            requires
                d >= 0,
                num >= 1,
        ;
        lemma_div_pos_is_pos(d * num, den);
        assert(d * num <= d * den) by (nonlinear_arith)
            requires
                d >= 0,
                num <= den,
        ;
        lemma_div_is_ordered(d * num, d * den, den);
        assert((d * den) / den == d) by (nonlinear_arith)
            requires
                den >= 1,
        ;
        if d * num >= den {
            lemma_div_is_ordered(den, d * num, den);
            lemma_div_by_self(den);
        }
    } else {
        let d = v - obs;
        let step = (d * num) / den;
        assert(d * num >= 0) by (nonlinear_arith)
            requires
                d >= 0,
                num >= 1,
        ;
        lemma_div_pos_is_pos(d * num, den);
        assert(d * num <= d * den) by (nonlinear_arith)
            requires
                d >= 0,
                num <= den,
        ;
        lemma_div_is_ordered(d * num, d * den, den);
        assert((d * den) / den == d) by (nonlinear_arith)
            requires
                den >= 1,
        ;
        if d * num >= den {
            lemma_div_is_ordered(den, d * num, den);
            lemma_div_by_self(den);
        }
    }
}

/// Outside the no-op threshold every update makes progress: with the
/// threshold at least `den / num` (the profile invariant), one step strictly
/// shrinks the gap to the observation while staying between the old value
/// and the observation.
pub proof fn lemma_update_progress(v: int, obs: int, num: int, den: int, eps: int)
    requires
        1 <= num <= den,
        eps * num >= den,
        eps >= 0,
        abs_diff(v, obs) > eps,
    ensures
        abs_diff(ema_step(v, obs, num, den), obs) < abs_diff(v, obs),
        v <= obs ==> v <= ema_step(v, obs, num, den) <= obs,
        obs <= v ==> obs <= ema_step(v, obs, num, den) <= v,
{
    lemma_ema_properties(v, obs, num, den);
    let d = abs_diff(v, obs);
    assert(d * num >= (eps + 1) * num) by (nonlinear_arith)
        requires
            d >= eps + 1,
            num >= 0,
    ;
    assert((eps + 1) * num == eps * num + num) by (nonlinear_arith);
}

/// The entry value after `n` repeated updates with one fixed observation
/// (an update inside the no-op threshold leaves the value alone).
pub open spec fn ema_iter(v: int, obs: int, num: int, den: int, eps: int, n: nat) -> int
    decreases n,
{
    if n == 0 {
        v
    } else {
        let prev = ema_iter(v, obs, num, den, eps, (n - 1) as nat);
        if abs_diff(prev, obs) <= eps {
            prev
        } else {
            ema_step(prev, obs, num, den)
        }
    }
}

proof fn lemma_ema_iter_bound(v: int, obs: int, num: int, den: int, eps: int, n: nat)
    requires
        1 <= num <= den,
        eps * num >= den,
        eps >= 0,
    ensures
        abs_diff(ema_iter(v, obs, num, den, eps, n), obs) <= if abs_diff(v, obs) - n > eps {
            abs_diff(v, obs) - n
        } else {
            eps
        },
    decreases n,
{
    if n > 0 {
        lemma_ema_iter_bound(v, obs, num, den, eps, (n - 1) as nat);
        let prev = ema_iter(v, obs, num, den, eps, (n - 1) as nat);
        if abs_diff(prev, obs) > eps {
            lemma_update_progress(prev, obs, num, den, eps);
        }
    }
}

/// Convergence of repeated updates: calling `update` again and again with
/// one fixed observation shrinks the gap monotonically (each step stays
/// between the old value and the observation) and, after at most the initial
/// gap many calls, lands within the no-op threshold — where it then stays,
/// since such updates leave the entry untouched.
pub proof fn lemma_update_converges(v: int, obs: int, num: int, den: int, eps: int, n: nat)
    requires
        1 <= num <= den,
        eps * num >= den,
        eps >= 0,
        n >= abs_diff(v, obs),
    ensures
        abs_diff(ema_iter(v, obs, num, den, eps, n), obs) <= eps,
{
    lemma_ema_iter_bound(v, obs, num, den, eps, n);
}

/// Saturating increment for the confidence weight.
pub open spec fn bump(w: u64) -> u64 {
    if w == u64::MAX {
        w
    } else {
        (w + 1) as u64
    }
}

/// One learned entry: the state it was learned for, the smoothed brightness
/// in milli raw units, and how many observations fed it.
#[derive(Clone, Debug)]
pub struct ProfileEntry {
    pub key: StateKey,
    pub value: u64,
    pub weight: u64,
}

/// The bucket vector of entry `i`.
pub open spec fn key_at(entries: Seq<ProfileEntry>, i: int) -> Seq<u32> {
    entries[i].key.buckets@
}

/// No two entries share a state key.
pub open spec fn distinct_keys(entries: Seq<ProfileEntry>) -> bool {
    forall|i: int, j: int|
        0 <= i < j < entries.len() ==> key_at(entries, i) != key_at(entries, j)
}

/// Some entry carries exactly this key.
pub open spec fn contains_key(entries: Seq<ProfileEntry>, key: Seq<u32>) -> bool {
    exists|j: int| 0 <= j < entries.len() && key_at(entries, j) == key
}

/// Entry `j` is nearest to `key`: no other entry is strictly closer under
/// Manhattan distance, and among equally close entries `j` carries the
/// lexicographically smallest bucket vector.
pub open spec fn is_nearest(entries: Seq<ProfileEntry>, key: Seq<u32>, j: int) -> bool {
    &&& 0 <= j < entries.len()
    &&& forall|k: int|
        0 <= k < entries.len() ==> {
            ||| dist1(key_at(entries, j), key) < dist1(#[trigger] key_at(entries, k), key)
            ||| (dist1(key_at(entries, j), key) == dist1(key_at(entries, k), key) && (k == j
                || lex_lt(key_at(entries, j), key_at(entries, k))))
        }
}

/// `new_e` is `old_e` with only entry `j` rewritten, and even there the key
/// kept.
pub open spec fn same_but(old_e: Seq<ProfileEntry>, new_e: Seq<ProfileEntry>, j: int) -> bool {
    &&& new_e.len() == old_e.len()
    &&& forall|k: int| 0 <= k < old_e.len() && k != j ==> new_e[k] == #[trigger] old_e[k]
    &&& new_e[j].key == old_e[j].key
}

/// What one `update` call does to a profile: a fresh key is appended seeded
/// with the observation, an entry within `epsilon` of the observation is left
/// alone, and any other matching entry takes one moving-average step toward
/// the observation while its weight advances.  Everything else is untouched.
pub open spec fn update_rel(old_p: Profile, new_p: Profile, key: Seq<u32>, observed: u64) -> bool {
    &&& new_p.bucket_counts@ == old_p.bucket_counts@
    &&& new_p.alpha_num == old_p.alpha_num
    &&& new_p.alpha_den == old_p.alpha_den
    &&& new_p.epsilon == old_p.epsilon
    &&& !contains_key(old_p.entries@, key) ==> {
        &&& new_p.entries@.len() == old_p.entries@.len() + 1
        &&& forall|k: int|
            0 <= k < old_p.entries@.len() ==> new_p.entries@[k] == #[trigger] old_p.entries@[k]
        &&& key_at(new_p.entries@, old_p.entries@.len() as int) == key
        &&& new_p.entries@[old_p.entries@.len() as int].value == observed
        &&& new_p.entries@[old_p.entries@.len() as int].weight == 1
    }
    &&& forall|j: int|
        0 <= j < old_p.entries@.len() && key_at(old_p.entries@, j) == key ==> {
            if abs_diff(old_p.entries@[j].value as int, observed as int) <= old_p.epsilon as int {
                new_p.entries@ == old_p.entries@
            } else {
                &&& same_but(old_p.entries@, new_p.entries@, j)
                &&& new_p.entries@[j].value as int == ema_step(
                    old_p.entries@[j].value as int,
                    observed as int,
                    old_p.alpha_num as int,
                    old_p.alpha_den as int,
                )
                &&& new_p.entries@[j].weight == bump(old_p.entries@[j].weight)
            }
        }
}

/// The per-device learned table plus its tuning parameters.
#[derive(Clone, Debug)]
pub struct Profile {
    /// Bucket count per signal; fixed configuration, part of the schema.
    pub bucket_counts: Vec<u32>,
    /// The learned entries, keys pairwise distinct.
    pub entries: Vec<ProfileEntry>,
    /// Smoothing weight numerator.
    pub alpha_num: u64,
    /// Smoothing weight denominator.
    pub alpha_den: u64,
    /// No-op threshold in milli raw units.
    pub epsilon: u64,
}

impl Profile {
    /// Internal invariant: sane smoothing parameters (the threshold is wide
    /// enough that every update outside it makes progress), distinct keys,
    /// and every key shaped like the configured signal vector.
    pub open spec fn wf(self) -> bool {
        &&& 1 <= self.alpha_num <= self.alpha_den
        &&& self.epsilon as int * self.alpha_num as int >= self.alpha_den as int
        &&& distinct_keys(self.entries@)
        &&& forall|i: int|
            0 <= i < self.entries@.len() ==> key_at(self.entries@, i).len()
                == self.bucket_counts@.len()
    }

    /// An empty profile with the default tuning parameters.
    pub fn new(bucket_counts: Vec<u32>) -> (p: Profile)
        ensures
            p.wf(),
            p.entries@.len() == 0,
            p.bucket_counts@ == bucket_counts@,
            p.alpha_num == DEFAULT_ALPHA_NUM,
            p.alpha_den == DEFAULT_ALPHA_DEN,
            p.epsilon == DEFAULT_EPSILON,
    {
        Profile {
            bucket_counts,
            entries: Vec::new(),
            alpha_num: DEFAULT_ALPHA_NUM,
            alpha_den: DEFAULT_ALPHA_DEN,
            epsilon: DEFAULT_EPSILON,
        }
    }

    /// An empty profile with explicit tuning parameters; rejects parameters
    /// under which an update could stall outside the no-op threshold.
    pub fn with_params(bucket_counts: Vec<u32>, alpha_num: u64, alpha_den: u64, epsilon: u64) -> (r:
        Option<Profile>)
        ensures
            match r {
                Some(p) => {
                    &&& p.wf()
                    &&& p.entries@.len() == 0
                    &&& p.bucket_counts@ == bucket_counts@
                    &&& p.alpha_num == alpha_num
                    &&& p.alpha_den == alpha_den
                    &&& p.epsilon == epsilon
                },
                None => !(1 <= alpha_num <= alpha_den && epsilon as int * alpha_num as int
                    >= alpha_den as int),
            },
    {
        proof {
            assert((epsilon as int) * (alpha_num as int) <= (u64::MAX as int) * (u64::MAX as int))
                by (nonlinear_arith)
                requires
                    0 <= (epsilon as int) <= u64::MAX as int,
                    0 <= (alpha_num as int) <= u64::MAX as int,
            ;
            assert((epsilon as int) * (alpha_num as int) >= 0) by (nonlinear_arith)
                requires
                    0 <= (epsilon as int),
                    0 <= (alpha_num as int),
            ;
        }
        let prod: u128 = (epsilon as u128) * (alpha_num as u128);
        if 1 <= alpha_num && alpha_num <= alpha_den && prod >= alpha_den as u128 {
            Some(
                Profile {
                    bucket_counts,
                    entries: Vec::new(),
                    alpha_num,
                    alpha_den,
                    epsilon,
                },
            )
        } else {
            None
        }
    }

    /// Number of learned entries.
    pub fn len(&self) -> (n: usize)
        ensures
            n == self.entries@.len(),
    {
        self.entries.len()
    }
}

/// Copies a bucket vector.
pub(crate) fn copy_key(k: &Vec<u32>) -> (r: Vec<u32>)
    ensures
        r@ == k@,
{
    let mut r: Vec<u32> = Vec::new();
    let mut i: usize = 0;
    while i < k.len()
        invariant
            i <= k@.len(),
            r@ == k@.take(i as int),
        decreases k@.len() - i,
    {
        r.push(k[i]);
        proof {
            assert(r@ =~= k@.take(i + 1));
        }
        i = i + 1;
    }
    proof {
        assert(k@.take(k@.len() as int) =~= k@);
    }
    r
}

/// Element-wise equality of two bucket vectors.
pub(crate) fn keys_equal(a: &Vec<u32>, b: &Vec<u32>) -> (r: bool)
    ensures
        r == (a@ == b@),
{
    if a.len() != b.len() {
        return false;
    }
    let mut i: usize = 0;
    while i < a.len()
        invariant
            i <= a@.len(),
            a@.len() == b@.len(),
            forall|j: int| 0 <= j < i ==> a@[j] == b@[j],
        decreases a@.len() - i,
    {
        if a[i] != b[i] {
            return false;
        }
        i = i + 1;
    }
    proof {
        assert(a@ =~= b@);
    }
    true
}

/// Manhattan distance between two equal-length bucket vectors.
fn manhattan(a: &Vec<u32>, b: &Vec<u32>) -> (d: u128)
    requires
        a@.len() == b@.len(),
    ensures
        d as int == dist1(a@, b@),
{
    let mut d: u128 = 0;
    let mut i: usize = 0;
    proof {
        assert(a@.take(0) =~= Seq::<u32>::empty());
        assert(b@.take(0) =~= Seq::<u32>::empty());
    }
    while i < a.len()
        invariant
            i <= a@.len(),
            a@.len() == b@.len(),
            d as int == dist1(a@.take(i as int), b@.take(i as int)),
            d <= (i as int) * (u32::MAX as int),
        decreases a@.len() - i,
    {
        let ai = a[i];
        let bi = b[i];
        let diff: u32 = if ai >= bi {
            ai - bi
        } else {
            bi - ai
        };
        proof {
            assert(a@.take(i + 1).drop_last() =~= a@.take(i as int));
            assert(b@.take(i + 1).drop_last() =~= b@.take(i as int));
            assert(a@.take(i + 1).last() == a@[i as int]);
            assert(b@.take(i + 1).last() == b@[i as int]);
        }
        d = d + diff as u128;
        i = i + 1;
    }
    proof {
        assert(a@.take(a@.len() as int) =~= a@);
        assert(b@.take(b@.len() as int) =~= b@);
    }
    d
}

/// Strict lexicographic comparison of two equal-length bucket vectors.
fn lex_lt_exec(a: &Vec<u32>, b: &Vec<u32>) -> (r: bool)
    requires
        a@.len() == b@.len(),
    ensures
        r == lex_lt(a@, b@),
{
    let mut i: usize = 0;
    while i < a.len()
        invariant
            i <= a@.len(),
            a@.len() == b@.len(),
            forall|j: int| 0 <= j < i ==> a@[j] == b@[j],
        decreases a@.len() - i,
    {
        let ai = a[i];
        let bi = b[i];
        if ai < bi {
            proof {
                assert(0 <= i < a@.len() && (i as int) < b@.len() && a@[i as int] < b@[i as int]
                    && (forall|j: int| 0 <= j < i ==> a@[j] == b@[j]));
            }
            return true;
        }
        if ai > bi {
            proof {
                if lex_lt(a@, b@) {
                    let w = choose|w: int|
                        0 <= w < a@.len() && w < b@.len() && #[trigger] a@[w] < b@[w] && (forall|
                            j: int,
                        |
                            0 <= j < w ==> a@[j] == b@[j]);
                    assert(false);
                }
            }
            return false;
        }
        i = i + 1;
    }
    proof {
        if lex_lt(a@, b@) {
            let w = choose|w: int|
                0 <= w < a@.len() && w < b@.len() && #[trigger] a@[w] < b@[w] && (forall|j: int|
                    0 <= j < w ==> a@[j] == b@[j]);
            assert(false);
        }
    }
    false
}

/// One exponential-moving-average step in milli raw units.
fn ema_exec(v: u64, obs: u64, num: u64, den: u64) -> (r: u64)
    requires
        1 <= num <= den,
    ensures
        r as int == ema_step(v as int, obs as int, num as int, den as int),
{
    proof {
        lemma_ema_properties(v as int, obs as int, num as int, den as int);
    }
    if obs >= v {
        let d: u128 = (obs - v) as u128;
        proof {
            assert((d as int) * (num as int) <= (u64::MAX as int) * (u64::MAX as int))
                by (nonlinear_arith)
                requires
                    0 <= (d as int) <= u64::MAX as int,
                    0 <= (num as int) <= u64::MAX as int,
            ;
        }
        let step: u128 = d * (num as u128) / (den as u128);
        v + (step as u64)
    } else {
        let d: u128 = (v - obs) as u128;
        proof {
            assert((d as int) * (num as int) <= (u64::MAX as int) * (u64::MAX as int))
                by (nonlinear_arith)
                requires
                    0 <= (d as int) <= u64::MAX as int,
                    0 <= (num as int) <= u64::MAX as int,
            ;
        }
        let step: u128 = d * (num as u128) / (den as u128);
        v - (step as u64)
    }
}

impl Profile {
    /// Looks up `key`, falling back to the nearest known key: returns the
    /// stored value of an exact hit, otherwise the value of the closest
    /// entry under Manhattan distance with the tie broken toward the
    /// lexicographically smallest (dimmest) key; `None` only when the
    /// profile is empty.
    pub fn predict(&self, key: &StateKey) -> (r: Option<u64>)
        requires
            self.wf(),
            key.buckets@.len() == self.bucket_counts@.len(),
        ensures
            (r is None) <==> self.entries@.len() == 0,
            match r {
                Some(v) => exists|j: int|
                    #[trigger] is_nearest(self.entries@, key.buckets@, j) && v
                        == self.entries@[j].value,
                None => true,
            },
            forall|j: int|
                0 <= j < self.entries@.len() && key_at(self.entries@, j) == key.buckets@ ==> r
                    == Some(self.entries@[j].value),
    {
        if self.entries.len() == 0 {
            return None;
        }
        let ghost es = self.entries@;
        let ghost kq = key.buckets@;
        let mut best: usize = 0;
        proof {
            assert(key_at(es, 0).len() == self.bucket_counts@.len());
        }
        let mut best_d: u128 = manhattan(&self.entries[0].key.buckets, &key.buckets);
        let mut i: usize = 1;
        while i < self.entries.len()
            invariant
                self.wf(),
                es == self.entries@,
                kq == key.buckets@,
                kq.len() == self.bucket_counts@.len(),
                1 <= i <= es.len(),
                0 <= best < i,
                best_d as int == dist1(key_at(es, best as int), kq),
                forall|k: int|
                    0 <= k < i ==> {
                        ||| dist1(key_at(es, best as int), kq) < dist1(
                            #[trigger] key_at(es, k),
                            kq,
                        )
                        ||| (dist1(key_at(es, best as int), kq) == dist1(key_at(es, k), kq) && (k
                            == best as int || lex_lt(key_at(es, best as int), key_at(es, k))))
                    },
            decreases es.len() - i,
        {
            proof {
                assert(key_at(es, i as int).len() == self.bucket_counts@.len());
                assert(key_at(es, best as int).len() == self.bucket_counts@.len());
            }
            let d = manhattan(&self.entries[i].key.buckets, &key.buckets);
            let take = if d < best_d {
                true
            } else if d == best_d {
                lex_lt_exec(&self.entries[i].key.buckets, &self.entries[best].key.buckets)
            } else {
                false
            };
            if take {
                proof {
                    if d == best_d {
                        assert(forall|k: int|
                            0 <= k < i && k != best as int && dist1(key_at(es, best as int), kq)
                                == dist1(#[trigger] key_at(es, k), kq) ==> lex_lt(
                                key_at(es, best as int),
                                key_at(es, k),
                            ));
                        assert forall|k: int|
                            0 <= k < i && dist1(key_at(es, i as int), kq) == dist1(
                                #[trigger] key_at(es, k),
                                kq,
                            ) && k != i as int implies lex_lt(key_at(es, i as int), key_at(es, k)) by {
                            if k == best as int {
                            } else {
                                lemma_lex_trans(
                                    key_at(es, i as int),
                                    key_at(es, best as int),
                                    key_at(es, k),
                                );
                            }
                        }
                    }
                }
                best = i;
                best_d = d;
            } else {
                proof {
                    if d == best_d {
                        // the candidate did not win the tie, so totality
                        // orders the incumbent below it
                        assert(key_at(es, best as int) != key_at(es, i as int));
                        lemma_lex_total(key_at(es, i as int), key_at(es, best as int));
                    }
                }
            }
            i = i + 1;
        }
        let r = self.entries[best].value;
        proof {
            assert(is_nearest(es, kq, best as int));
            assert forall|j: int|
                0 <= j < es.len() && key_at(es, j) == kq implies Some(r) == Some::<u64>(
                es[j].value,
            ) by {
                lemma_dist1_zero(key_at(es, j), kq);
                lemma_dist1_zero(key_at(es, best as int), kq);
                lemma_dist1_nonneg(key_at(es, best as int), kq);
                lemma_dist1_nonneg(key_at(es, j), kq);
                if best as int != j {
                    // the best entry is at distance zero too, so its key
                    // equals the query key, contradicting distinctness
                    assert(dist1(key_at(es, best as int), kq) <= dist1(key_at(es, j), kq));
                    assert(key_at(es, best as int) == kq);
                }
            }
        }
        Some(r)
    }

    /// Inserts or refines the entry at `key`: a new key is seeded directly
    /// with the observation (no averaging against a non-existent prior); an
    /// existing entry within `epsilon` of the observation is left untouched
    /// (and no write is signalled); otherwise the entry moves toward the
    /// observation by one moving-average step and its weight advances.
    /// Returns whether the profile changed.
    pub fn update(&mut self, key: &StateKey, observed: u64) -> (changed: bool)
        requires
            old(self).wf(),
            key.buckets@.len() == old(self).bucket_counts@.len(),
        ensures
            final(self).wf(),
            update_rel(*old(self), *final(self), key.buckets@, observed),
            changed == !(contains_key(old(self).entries@, key.buckets@) && (forall|j: int|
                0 <= j < old(self).entries@.len() && key_at(old(self).entries@, j) == key.buckets@
                    ==> abs_diff(old(self).entries@[j].value as int, observed as int) <= old(
                    self,
                ).epsilon as int)),
    {
        let ghost oes = old(self).entries@;
        let ghost kq = key.buckets@;
        let mut i: usize = 0;
        let n = self.entries.len();
        while i < n
            invariant
                self == old(self),
                old(self).wf(),
                kq.len() == old(self).bucket_counts@.len(),
                oes == self.entries@,
                n == oes.len(),
                i <= n,
                kq == key.buckets@,
                forall|j: int| 0 <= j < i ==> key_at(oes, j) != kq,
            decreases n - i,
        {
            if keys_equal(&self.entries[i].key.buckets, &key.buckets) {
                // exact key already learned
                proof {
                    assert(key_at(oes, i as int) == kq);
                    assert(contains_key(oes, kq));
                    assert forall|j: int|
                        0 <= j < oes.len() && key_at(oes, j) == kq implies j == i as int by {
                        if j < i as int {
                            assert(key_at(oes, j) != key_at(oes, i as int));
                        } else if j > i as int {
                            assert(key_at(oes, i as int) != key_at(oes, j));
                        }
                    }
                }
                let v = self.entries[i].value;
                let gap: u64 = if v >= observed {
                    v - observed
                } else {
                    observed - v
                };
                if gap <= self.epsilon {
                    return false;
                }
                let nv = ema_exec(v, observed, self.alpha_num, self.alpha_den);
                let w = self.entries[i].weight;
                let nw: u64 = if w == u64::MAX {
                    w
                } else {
                    w + 1
                };
                let mut slot = self.entries.remove(i);
                slot.value = nv;
                slot.weight = nw;
                self.entries.insert(i, slot);
                proof {
                    let target = oes.update(
                        i as int,
                        (ProfileEntry { key: oes[i as int].key, value: nv, weight: nw }),
                    );
                    oes.remove_ensures(i as int);
                    oes.remove(i as int).insert_ensures(
                        i as int,
                        (ProfileEntry { key: oes[i as int].key, value: nv, weight: nw }),
                    );
                    assert forall|k: int|
                        0 <= k < target.len() implies self.entries@[k] == target[k] by {
                        if k < i as int {
                            assert(oes.remove(i as int)[k] == oes[k]);
                        } else if k > i as int {
                            assert(oes.remove(i as int)[k - 1] == oes[k]);
                        }
                    }
                    assert(self.entries@ =~= target);
                    assert forall|k: int|
                        0 <= k < self.entries@.len() implies key_at(self.entries@, k) == key_at(
                        oes,
                        k,
                    ) by {}
                    assert forall|k: int|
                        0 <= k < self.entries@.len() implies key_at(self.entries@, k).len()
                        == self.bucket_counts@.len() by {
                        assert(key_at(self.entries@, k) == key_at(oes, k));
                        assert(key_at(oes, k).len() == old(self).bucket_counts@.len());
                    }
                    assert forall|ii: int, jj: int|
                        0 <= ii < jj < self.entries@.len() implies key_at(self.entries@, ii)
                        != key_at(self.entries@, jj) by {
                        assert(key_at(self.entries@, ii) == key_at(oes, ii));
                        assert(key_at(self.entries@, jj) == key_at(oes, jj));
                    }
                }
                return true;
            }
            i = i + 1;
        }
        // first observation for this key: seed it directly
        let slot = ProfileEntry {
            key: StateKey { buckets: copy_key(&key.buckets) },
            value: observed,
            weight: 1,
        };
        self.entries.push(slot);
        proof {
            assert(!contains_key(oes, kq));
            assert(key_at(self.entries@, oes.len() as int) == kq);
            assert forall|k: int|
                0 <= k < self.entries@.len() implies key_at(self.entries@, k).len()
                == self.bucket_counts@.len() by {
                if k < oes.len() {
                    assert(self.entries@[k] == oes[k]);
                    assert(key_at(self.entries@, k) == key_at(oes, k));
                } else {
                    assert(key_at(self.entries@, k) == kq);
                }
            }
            assert forall|ii: int, jj: int|
                0 <= ii < jj < self.entries@.len() implies key_at(self.entries@, ii) != key_at(
                self.entries@,
                jj,
            ) by {
                if jj < oes.len() {
                    assert(key_at(self.entries@, ii) == key_at(oes, ii));
                    assert(key_at(self.entries@, jj) == key_at(oes, jj));
                } else {
                    assert(key_at(self.entries@, ii) == key_at(oes, ii));
                    assert(key_at(self.entries@, jj) == kq);
                }
            }
        }
        true
    }
}

} // verus!

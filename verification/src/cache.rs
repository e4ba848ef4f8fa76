//! Size arithmetic of the extraction cache's eviction.
//!
//! When the encoded cache outgrows its target, least-recently-used entries are
//! dropped until their estimated size fits a budget. The budget scales the
//! estimated size of what remains by `target / encoded`, then applies a safety
//! margin in basis points, all in 128-bit arithmetic so nothing overflows.

use vstd::prelude::*;
use vstd::string::StringSliceAdditionalSpecFns;
use vstd::utf8::encode_utf8;

use crate::text::{
    bytes_less, bytes_less_exec, lemma_bytes_less_irreflexive, lemma_bytes_less_total, lemma_bytes_less_transitive,
};

verus! {

/// Basis points in one whole.
pub const BASIS_POINTS: u128 = 10_000;

/// `⌊⌊remaining · target / encoded⌋ · min(safety_bps, 10 000) / 10 000⌋`,
/// saturated to `usize::MAX`; 0 when `encoded` is 0.
pub open spec fn eviction_budget(remaining: nat, target: nat, encoded: nat, safety_bps: nat) -> nat {
    if encoded == 0 {
        0
    } else {
        let scaled = remaining * target / encoded;
        let safety = if safety_bps < 10_000 {
            safety_bps
        } else {
            10_000
        };
        let budget = scaled * safety / 10_000;
        if budget > usize::MAX {
            usize::MAX as nat
        } else {
            budget
        }
    }
}

proof fn lemma_split_scaling(scaled: nat, safety: nat)
    requires
        safety <= 10_000,
    ensures
        (scaled / 10_000) * safety + (scaled % 10_000) * safety / 10_000 == scaled * safety / 10_000,
        (scaled / 10_000) * safety + (scaled % 10_000) * safety / 10_000 <= scaled,
{
    let q = scaled / 10_000;
    let r = scaled % 10_000;
    assert(scaled == 10_000 * q + r && r < 10_000) by (nonlinear_arith)
        requires
            q == scaled / 10_000,
            r == scaled % 10_000,
    ;
    assert(scaled * safety == 10_000 * (q * safety) + r * safety) by (nonlinear_arith)
        requires
            scaled == 10_000 * q + r,
    ;
    assert((10_000 * (q * safety) + r * safety) / 10_000 == q * safety + (r * safety) / 10_000) by (nonlinear_arith);
    assert(r * safety / 10_000 <= r) by (nonlinear_arith)
        requires
            safety <= 10_000,
    ;
    assert(q * safety <= q * 10_000) by (nonlinear_arith)
        requires
            safety <= 10_000,
    ;
}

/// How many estimated bytes may remain after eviction: the remaining estimate
/// scaled by `target_bytes / encoded_bytes`, times `safety_bps` basis points
/// (capped at 100%), saturated to `usize::MAX`; 0 when nothing is encoded.
pub fn estimated_eviction_budget(
    estimated_remaining: usize,
    target_bytes: usize,
    encoded_bytes: usize,
    safety_bps: usize,
) -> (r: usize)
    ensures
        r == eviction_budget(estimated_remaining as nat, target_bytes as nat, encoded_bytes as nat, safety_bps as nat),
{
    if encoded_bytes == 0 {
        return 0;
    }
    let a = estimated_remaining as u128;
    let b = target_bytes as u128;
    assert(a * b <= u128::MAX) by (nonlinear_arith)
        requires
            a <= 0xffff_ffff_ffff_ffff,
            b <= 0xffff_ffff_ffff_ffff,
    ;
    let scaled = a * b / (encoded_bytes as u128);
    let safety = if (safety_bps as u128) < BASIS_POINTS {
        safety_bps as u128
    } else {
        BASIS_POINTS
    };
    proof {
        lemma_split_scaling(scaled as nat, safety as nat);
        assert((scaled / 10_000) * safety <= scaled) by (nonlinear_arith)
            requires
                safety <= 10_000,
        ;
        assert((scaled % 10_000) * safety <= 10_000 * 10_000) by (nonlinear_arith)
            requires
                safety <= 10_000,
        ;
    }
    let budget = scaled / BASIS_POINTS * safety + scaled % BASIS_POINTS * safety / BASIS_POINTS;
    if budget > usize::MAX as u128 {
        usize::MAX
    } else {
        budget as usize
    }
}

// ---------------------------------------------------------------------------
// Eviction candidates and their order
// ---------------------------------------------------------------------------

/// One cache entry as eviction sees it: when it was last used, its key, and
/// its estimated share of the encoded cache.
#[derive(Debug)]
pub struct EvictionCandidate {
    pub last_access_secs: u64,
    pub key: String,
    pub estimated_bytes: usize,
}

/// The estimated size of an entry that encodes to `encoded_len` bytes under
/// a key of `key_len` bytes: their sum, saturated to `usize::MAX`, and at
/// least 1.
pub open spec fn estimate(encoded_len: nat, key_len: nat) -> nat {
    let sum = if encoded_len + key_len > usize::MAX {
        usize::MAX as nat
    } else {
        encoded_len + key_len
    };
    if sum == 0 {
        1
    } else {
        sum
    }
}

/// The UTF-8 bytes of a candidate's key.
pub open spec fn key_bytes(c: EvictionCandidate) -> Seq<u8> {
    encode_utf8(c.key@)
}

/// Eviction order, that of the tuple `(last_access_secs, key,
/// estimated_bytes)`: least recently used first, then by key, then by size.
pub open spec fn evicts_before(a: EvictionCandidate, b: EvictionCandidate) -> bool {
    ||| a.last_access_secs < b.last_access_secs
    ||| a.last_access_secs == b.last_access_secs && bytes_less(key_bytes(a), key_bytes(b))
    ||| a.last_access_secs == b.last_access_secs && key_bytes(a) == key_bytes(b) && a.estimated_bytes
        < b.estimated_bytes
}

/// No candidate comes after one that it evicts before.
pub open spec fn eviction_sorted(s: Seq<EvictionCandidate>) -> bool {
    forall|i: int, j: int| 0 <= i < j < s.len() ==> !evicts_before(#[trigger] s[j], #[trigger] s[i])
}

proof fn lemma_evicts_before_irreflexive(a: EvictionCandidate)
    ensures
        !evicts_before(a, a),
{
    lemma_bytes_less_irreflexive(key_bytes(a));
}

proof fn lemma_evicts_before_transitive(a: EvictionCandidate, b: EvictionCandidate, c: EvictionCandidate)
    requires
        evicts_before(a, b),
        evicts_before(b, c),
    ensures
        evicts_before(a, c),
{
    if a.last_access_secs == b.last_access_secs && b.last_access_secs == c.last_access_secs {
        if bytes_less(key_bytes(a), key_bytes(b)) && bytes_less(key_bytes(b), key_bytes(c)) {
            lemma_bytes_less_transitive(key_bytes(a), key_bytes(b), key_bytes(c));
        }
    }
}

impl EvictionCandidate {
    /// The candidate for an entry under `key`, last used at
    /// `last_access_secs`, whose own encoding takes `encoded_len` bytes.
    pub fn new(last_access_secs: u64, key: String, encoded_len: usize) -> (r: Self)
        ensures
            r.last_access_secs == last_access_secs,
            r.key == key,
            r.estimated_bytes == estimate(encoded_len as nat, encode_utf8(key@).len()),
    {
        let key_len = key.as_str().as_bytes().len();
        let sum = encoded_len.saturating_add(key_len);
        let estimated_bytes = if sum == 0 {
            1
        } else {
            sum
        };
        EvictionCandidate { last_access_secs, key, estimated_bytes }
    }

    /// A copy of the candidate.
    pub fn duplicate(&self) -> (r: Self)
        ensures
            r == *self,
    {
        EvictionCandidate {
            last_access_secs: self.last_access_secs,
            key: self.key.clone(),
            estimated_bytes: self.estimated_bytes,
        }
    }
}

/// Whether `a` is evicted before `b` (see [`evicts_before`]).
fn evicts_before_exec(a: &EvictionCandidate, b: &EvictionCandidate) -> (r: bool)
    ensures
        r == evicts_before(*a, *b),
{
    if a.last_access_secs != b.last_access_secs {
        return a.last_access_secs < b.last_access_secs;
    }
    let ka = a.key.as_str().as_bytes();
    let kb = b.key.as_str().as_bytes();
    if bytes_less_exec(ka, kb) {
        return true;
    }
    if bytes_less_exec(kb, ka) {
        proof {
            lemma_bytes_less_irreflexive(kb@);
        }
        return false;
    }
    proof {
        if ka@ != kb@ {
            lemma_bytes_less_total(ka@, kb@);
        }
    }
    a.estimated_bytes < b.estimated_bytes
}

/// Sum of the estimates of `s`.
pub open spec fn total_estimate(s: Seq<EvictionCandidate>) -> nat
    decreases s.len(),
{
    if s.len() == 0 {
        0
    } else {
        total_estimate(s.drop_last()) + s.last().estimated_bytes as nat
    }
}

proof fn lemma_total_insert(s: Seq<EvictionCandidate>, p: int, x: EvictionCandidate)
    requires
        0 <= p <= s.len(),
    ensures
        total_estimate(s.insert(p, x)) == total_estimate(s) + x.estimated_bytes,
    decreases s.len(),
{
    if p < s.len() {
        lemma_total_insert(s.drop_last(), p, x);
        assert(s.insert(p, x).drop_last() =~= s.drop_last().insert(p, x));
    } else {
        assert(s.insert(p, x).drop_last() =~= s);
    }
}

proof fn lemma_total_front(s: Seq<EvictionCandidate>)
    requires
        s.len() > 0,
    ensures
        total_estimate(s) == s[0].estimated_bytes + total_estimate(s.drop_first()),
    decreases s.len(),
{
    if s.len() > 1 {
        lemma_total_front(s.drop_last());
        assert(s.drop_last().drop_first() =~= s.drop_first().drop_last());
        assert(s.drop_first().last() == s.last());
        assert(total_estimate(s.drop_first()) == total_estimate(s.drop_first().drop_last())
            + s.drop_first().last().estimated_bytes);
        assert(total_estimate(s) == total_estimate(s.drop_last()) + s.last().estimated_bytes);
        assert(s.drop_last()[0] == s[0]);
    } else {
        assert(total_estimate(s.drop_first()) == 0);
        assert(total_estimate(s.drop_last()) == 0);
        assert(s.last() == s[0]);
    }
}

/// The candidates in eviction order: a permutation of `cands` sorted by
/// [`evicts_before`]. That order compares every field, so candidates it
/// cannot tell apart are equal and the result is the one a stable sort
/// gives.
pub fn sort_for_eviction(cands: &Vec<EvictionCandidate>) -> (r: Vec<EvictionCandidate>)
    ensures
        r@.to_multiset() == cands@.to_multiset(),
        eviction_sorted(r@),
        total_estimate(r@) == total_estimate(cands@),
{
    broadcast use vstd::seq_lib::group_to_multiset_ensures;

    let mut out: Vec<EvictionCandidate> = Vec::new();
    let mut k: usize = 0;
    while k < cands.len()
        invariant
            k <= cands@.len(),
            out@.to_multiset() == cands@.subrange(0, k as int).to_multiset(),
            eviction_sorted(out@),
            total_estimate(out@) == total_estimate(cands@.subrange(0, k as int)),
        decreases cands@.len() - k,
    {
        let x = cands[k].duplicate();
        let mut p: usize = 0;
        while p < out.len() && !evicts_before_exec(&x, &out[p])
            invariant
                p <= out@.len(),
                forall|i: int| 0 <= i < p ==> !evicts_before(x, #[trigger] out@[i]),
            decreases out@.len() - p,
        {
            p = p + 1;
        }
        let ghost before = out@;
        out.insert(p, x);
        proof {
            let pre = cands@.subrange(0, k as int);
            assert(x == cands@[k as int]);
            assert(cands@.subrange(0, k + 1) =~= pre.push(x));
            assert(cands@.subrange(0, k + 1).drop_last() =~= pre);
            pre.to_multiset_ensures();
            assert(out@[p as int] == x);
            assert(out@ =~= before.insert(p as int, x));
            vstd::seq_lib::to_multiset_insert(before, p as int, x);
            lemma_total_insert(before, p as int, x);
            assert forall|i: int, j: int| 0 <= i < j < out@.len() implies !evicts_before(
                #[trigger] out@[j],
                #[trigger] out@[i],
            ) by {
                if j < p {
                    assert(out@[i] == before[i] && out@[j] == before[j]);
                } else if j == p {
                    assert(out@[i] == before[i]);
                    if evicts_before(x, before[i]) {
                    }
                } else if i > p {
                    assert(out@[i] == before[i - 1] && out@[j] == before[j - 1]);
                } else if i == p {
                    // before[j - 1] with j - 1 >= p; x evicts before before[p].
                    assert(out@[j] == before[j - 1]);
                    if evicts_before(before[j - 1], x) {
                        lemma_evicts_before_transitive(before[j - 1], x, before[p as int]);
                        if j - 1 == p {
                            lemma_evicts_before_irreflexive(before[p as int]);
                        }
                    }
                } else {
                    assert(out@[i] == before[i] && out@[j] == before[j - 1]);
                }
            }
        }
        k = k + 1;
    }
    assert(cands@.subrange(0, k as int) =~= cands@);
    out
}

// ---------------------------------------------------------------------------
// The eviction plan
// ---------------------------------------------------------------------------

/// Safety margin of the byte-aware passes over the scaled budget, in basis
/// points: estimates are trusted to 98%.
pub const ESTIMATE_SAFETY_BPS: usize = 9_800;

/// Byte-aware passes before the conservative one.
pub const MAX_REFINEMENT_PASSES: usize = 2;

/// Where an eviction stands.
#[derive(Debug, Clone, Copy, PartialEq, Eq, Structural)]
pub enum EvictionStage {
    /// The byte-aware passes, then the conservative one.
    Refine,
    /// The last resort: keep only the most recently used entry.
    Exact,
    /// Nothing more is evicted.
    Done,
}

/// Estimated size of the candidates from position `i` on.
pub open spec fn suffix_estimate(order: Seq<EvictionCandidate>, i: int) -> nat {
    total_estimate(order.subrange(i, order.len() as int))
}

/// Where eviction against `budget` stops when it starts at `j`: at the most
/// recently used candidate, or once what remains is estimated within the
/// budget.
pub open spec fn budget_stop(order: Seq<EvictionCandidate>, j: int, budget: nat) -> int
    decreases order.len() - j,
{
    if j + 1 >= order.len() || suffix_estimate(order, j) <= budget {
        j
    } else {
        budget_stop(order, j + 1, budget)
    }
}

/// The encoding is over target and more than one entry remains.
pub open spec fn over_target(len: nat, target: nat, evicted: nat, encoded: nat) -> bool {
    encoded > target && evicted + 1 < len
}

/// One step of eviction, from `evicted` leading candidates gone, `passes`
/// byte-aware passes made and `stage`, with the store just encoded to
/// `encoded` bytes: the next `(evicted, passes, stage)`, and whether more
/// entries go (after which the store is encoded again).
///
/// While over target with more than one entry left: two byte-aware passes
/// each evict, oldest first, until the remaining estimate fits the budget
/// scaled by `target / encoded` at 98% (at least one entry per pass); then a
/// conservative pass evicts until the estimate fits half the target; then all
/// but the most recently used entry go. Whenever the encoding fits or one
/// entry is left, eviction is done.
pub open spec fn eviction_step(
    order: Seq<EvictionCandidate>,
    target: nat,
    evicted: nat,
    passes: nat,
    stage: EvictionStage,
    encoded: nat,
) -> (nat, nat, EvictionStage, bool) {
    let more = over_target(order.len(), target, evicted, encoded);
    match stage {
        EvictionStage::Refine => if !more {
            (evicted, passes, EvictionStage::Done, false)
        } else if passes < 2 {
            let budget = eviction_budget(suffix_estimate(order, evicted as int), target, encoded, 9_800);
            let stop = budget_stop(order, evicted as int, budget);
            let next: int = if stop == evicted {
                evicted + 1int
            } else {
                stop
            };
            (next as nat, passes + 1, EvictionStage::Refine, true)
        } else {
            (budget_stop(order, evicted as int, target / 2) as nat, passes, EvictionStage::Exact, true)
        },
        EvictionStage::Exact => if more {
            ((order.len() - 1) as nat, passes, EvictionStage::Done, true)
        } else {
            (evicted, passes, EvictionStage::Done, false)
        },
        EvictionStage::Done => (evicted, passes, EvictionStage::Done, false),
    }
}

/// The keys of the candidates at positions `a..b`.
pub open spec fn keys_between(order: Seq<EvictionCandidate>, a: int, b: int) -> Seq<String> {
    order.subrange(a, b).map_values(|c: EvictionCandidate| c.key)
}

proof fn lemma_keys_between_push(order: Seq<EvictionCandidate>, a: int, b: int)
    requires
        0 <= a <= b < order.len(),
    ensures
        keys_between(order, a, b + 1) == keys_between(order, a, b).push(order[b].key),
{
    let l = keys_between(order, a, b + 1);
    let r = keys_between(order, a, b).push(order[b].key);
    assert forall|i: int| 0 <= i < l.len() implies l[i] == r[i] by {
        if i < b - a {
            assert(l[i] == order.subrange(a, b + 1)[i].key);
            assert(r[i] == order.subrange(a, b)[i].key);
        }
    }
    assert(l =~= r);
}

/// How many more encodings eviction can ask for.
pub open spec fn rounds_left(stage: EvictionStage, passes: nat) -> nat {
    match stage {
        EvictionStage::Refine => (4 - passes) as nat,
        EvictionStage::Exact => 1,
        EvictionStage::Done => 0,
    }
}

proof fn lemma_suffix_front(order: Seq<EvictionCandidate>, i: int)
    requires
        0 <= i < order.len(),
    ensures
        suffix_estimate(order, i) == order[i].estimated_bytes + suffix_estimate(order, i + 1),
{
    let s = order.subrange(i, order.len() as int);
    lemma_total_front(s);
    assert(s.drop_first() =~= order.subrange(i + 1, order.len() as int));
}

proof fn lemma_suffix_mono(order: Seq<EvictionCandidate>, i: int)
    requires
        0 <= i <= order.len(),
    ensures
        suffix_estimate(order, i) <= total_estimate(order),
    decreases i,
{
    if i == 0 {
        assert(order.subrange(0, order.len() as int) =~= order);
    } else {
        lemma_suffix_mono(order, i - 1);
        lemma_suffix_front(order, i - 1);
    }
}

proof fn lemma_budget_stop_bounds(order: Seq<EvictionCandidate>, j: int, budget: nat)
    requires
        0 <= j < order.len(),
    ensures
        j <= budget_stop(order, j, budget) < order.len(),
    decreases order.len() - j,
{
    if !(j + 1 >= order.len() || suffix_estimate(order, j) <= budget) {
        lemma_budget_stop_bounds(order, j + 1, budget);
    }
}

/// Eviction only moves forward and always keeps the most recently used
/// entry: a step evicts a (possibly empty) run of the oldest remaining
/// candidates and never the last one; a byte-aware pass evicts at least one;
/// the last-resort step leaves exactly one.
pub proof fn lemma_eviction_keeps_newest(
    order: Seq<EvictionCandidate>,
    target: nat,
    evicted: nat,
    passes: nat,
    stage: EvictionStage,
    encoded: nat,
)
    requires
        evicted < order.len(),
    ensures
        ({
            let (next, _p, next_stage, _more) = eviction_step(order, target, evicted, passes, stage, encoded);
            &&& evicted <= next < order.len()
            &&& stage == EvictionStage::Refine && passes < 2 && over_target(order.len(), target, evicted, encoded)
                ==> evicted < next
            &&& stage == EvictionStage::Exact && over_target(order.len(), target, evicted, encoded) ==> next + 1
                == order.len()
        }),
{
    lemma_budget_stop_bounds(order, evicted as int, target / 2);
    if encoded > 0 {
        let budget = eviction_budget(suffix_estimate(order, evicted as int), target, encoded, 9_800);
        lemma_budget_stop_bounds(order, evicted as int, budget);
    }
    lemma_budget_stop_bounds(order, evicted as int, 0);
}

/// Eviction ends: every step that asks for another encoding lowers
/// [`rounds_left`], so the store is encoded again at most four times.
pub proof fn lemma_eviction_terminates(
    order: Seq<EvictionCandidate>,
    target: nat,
    evicted: nat,
    passes: nat,
    stage: EvictionStage,
    encoded: nat,
)
    requires
        passes <= 2,
    ensures
        ({
            let (_e, next_passes, next_stage, more) = eviction_step(order, target, evicted, passes, stage, encoded);
            &&& next_passes <= 2
            &&& more ==> rounds_left(next_stage, next_passes) < rounds_left(stage, passes)
        }),
        rounds_left(stage, passes) <= 4,
{
}

/// Eviction stops only when it is done: when a step asks for no further
/// encoding, the store fits the target or at most one entry remains, unless
/// eviction had already finished.
pub proof fn lemma_eviction_stops_when_fitting(
    order: Seq<EvictionCandidate>,
    target: nat,
    evicted: nat,
    passes: nat,
    stage: EvictionStage,
    encoded: nat,
)
    ensures
        ({
            let (_e, _p, next_stage, more) = eviction_step(order, target, evicted, passes, stage, encoded);
            &&& next_stage == EvictionStage::Done || more
            &&& !more && stage != EvictionStage::Done ==> encoded <= target || evicted + 1 >= order.len()
        }),
{
}

/// An eviction in progress over a cache's entries: the candidates in
/// eviction order, the target size, and how far eviction has gone. The
/// store is encoded, the plan says which entries go, and the store is
/// encoded again, until the plan is done.
pub struct EvictionPlan {
    order: Vec<EvictionCandidate>,
    target_bytes: usize,
    evicted: usize,
    estimated_remaining: usize,
    passes: usize,
    stage: EvictionStage,
}

impl EvictionPlan {
    /// The candidates in eviction order.
    pub closed spec fn order(&self) -> Seq<EvictionCandidate> {
        self.order@
    }

    /// The size the encoded store should fit.
    pub closed spec fn target(&self) -> nat {
        self.target_bytes as nat
    }

    /// How many leading candidates of [`Self::order`] have been evicted.
    pub closed spec fn evicted(&self) -> nat {
        self.evicted as nat
    }

    /// Byte-aware passes made.
    pub closed spec fn passes(&self) -> nat {
        self.passes as nat
    }

    /// Where eviction stands.
    pub closed spec fn stage(&self) -> EvictionStage {
        self.stage
    }

    /// The plan's internal invariant.
    pub closed spec fn wf(&self) -> bool {
        &&& self.evicted <= self.order@.len()
        &&& self.order@.len() > 0 ==> self.evicted < self.order@.len()
        &&& self.passes <= 2
        &&& total_estimate(self.order@) <= usize::MAX
        &&& self.estimated_remaining == suffix_estimate(self.order@, self.evicted as int)
    }

    /// A plan for the candidates `cands` and the target size `target_bytes`:
    /// the candidates sorted into eviction order, nothing evicted yet.
    pub fn new(cands: &Vec<EvictionCandidate>, target_bytes: usize) -> (r: Self)
        requires
            total_estimate(cands@) <= usize::MAX,
        ensures
            r.wf(),
            r.order().to_multiset() == cands@.to_multiset(),
            eviction_sorted(r.order()),
            r.target() == target_bytes,
            r.evicted() == 0,
            r.passes() == 0,
            r.stage() == EvictionStage::Refine,
    {
        let order = sort_for_eviction(cands);
        let mut remaining: usize = 0;
        let mut i: usize = order.len();
        assert(order@.subrange(i as int, i as int) =~= Seq::<EvictionCandidate>::empty());
        while i > 0
            invariant
                i <= order@.len(),
                total_estimate(order@) <= usize::MAX,
                remaining == suffix_estimate(order@, i as int),
            decreases i,
        {
            proof {
                lemma_suffix_front(order@, i - 1);
                lemma_suffix_mono(order@, i - 1);
            }
            remaining = remaining + order[i - 1].estimated_bytes;
            i = i - 1;
        }
        EvictionPlan {
            order,
            target_bytes,
            evicted: 0,
            estimated_remaining: remaining,
            passes: 0,
            stage: EvictionStage::Refine,
        }
    }

    /// Evict the next candidate, recording its key.
    fn evict_one(&mut self, keys: &mut Vec<String>)
        requires
            old(self).wf(),
            old(self).evicted + 1 < old(self).order@.len(),
        ensures
            final(self).wf(),
            final(self).order@ == old(self).order@,
            final(self).target_bytes == old(self).target_bytes,
            final(self).passes == old(self).passes,
            final(self).stage == old(self).stage,
            final(self).evicted == old(self).evicted + 1,
            final(keys)@ == old(keys)@.push(old(self).order@[old(self).evicted as int].key),
    {
        proof {
            lemma_suffix_front(self.order@, self.evicted as int);
        }
        let _len = self.order.len();
        keys.push(self.order[self.evicted].key.clone());
        self.estimated_remaining = self.estimated_remaining - self.order[self.evicted].estimated_bytes;
        self.evicted = self.evicted + 1;
    }

    /// Evict, oldest first, until the most recently used candidate is next
    /// or what remains is estimated within `budget`.
    fn evict_to_budget(&mut self, budget: usize, keys: &mut Vec<String>)
        requires
            old(self).wf(),
            old(self).order@.len() > 0,
        ensures
            final(self).wf(),
            final(self).order@ == old(self).order@,
            final(self).target_bytes == old(self).target_bytes,
            final(self).passes == old(self).passes,
            final(self).stage == old(self).stage,
            final(self).evicted == budget_stop(old(self).order@, old(self).evicted as int, budget as nat),
            final(keys)@ == old(keys)@ + keys_between(old(self).order@, old(self).evicted as int, final(self).evicted as int),
    {
        let ghost start = self.evicted as int;
        let ghost k0 = keys@;
        let ghost order = self.order@;
        assert(keys_between(order, start, start) =~= Seq::<String>::empty());
        while self.evicted < self.order.len() - 1 && self.estimated_remaining > budget
            invariant
                self.wf(),
                self.order@ == order,
                order.len() > 0,
                self.target_bytes == old(self).target_bytes,
                self.passes == old(self).passes,
                self.stage == old(self).stage,
                0 <= start <= self.evicted,
                budget_stop(order, start, budget as nat) == budget_stop(order, self.evicted as int, budget as nat),
                keys@ == k0 + keys_between(order, start, self.evicted as int),
            decreases order.len() - self.evicted,
        {
            let ghost e = self.evicted as int;
            self.evict_one(keys);
            proof {
                lemma_keys_between_push(order, start, e);
            }
        }
    }

    /// The keys of the entries to evict next, after the store was encoded to
    /// `encoded_len` bytes (see [`eviction_step`]); `None` once eviction is
    /// done. The keys are those of the least recently used candidates not yet
    /// evicted, in eviction order; the store is to drop them and be encoded
    /// again.
    pub fn step(&mut self, encoded_len: usize) -> (r: Option<Vec<String>>)
        requires
            old(self).wf(),
        ensures
            final(self).wf(),
            final(self).order() == old(self).order(),
            final(self).target() == old(self).target(),
            (final(self).evicted(), final(self).passes(), final(self).stage(), r is Some) == eviction_step(
                old(self).order(),
                old(self).target(),
                old(self).evicted(),
                old(self).passes(),
                old(self).stage(),
                encoded_len as nat,
            ),
            r matches Some(keys) ==> keys@ == keys_between(
                old(self).order(),
                old(self).evicted() as int,
                final(self).evicted() as int,
            ),
    {
        let more = encoded_len > self.target_bytes && self.order.len() > 0 && self.evicted < self.order.len() - 1;
        match self.stage {
            EvictionStage::Refine => {
                if !more {
                    self.stage = EvictionStage::Done;
                    return None;
                }
                let mut keys: Vec<String> = Vec::new();
                let start_idx = self.evicted;
                let ghost start = self.evicted as int;
                if self.passes < MAX_REFINEMENT_PASSES {
                    let budget = estimated_eviction_budget(
                        self.estimated_remaining,
                        self.target_bytes,
                        encoded_len,
                        ESTIMATE_SAFETY_BPS,
                    );
                    self.evict_to_budget(budget, &mut keys);
                    if self.evicted == start_idx {
                        self.evict_one(&mut keys);
                        proof {
                            assert(keys_between(self.order@, start, start + 1) =~= seq![self.order@[start].key]);
                        }
                    }
                    self.passes = self.passes + 1;
                } else {
                    self.evict_to_budget(self.target_bytes / 2, &mut keys);
                    self.stage = EvictionStage::Exact;
                }
                proof {
                    assert(keys@ =~= keys_between(self.order@, start, self.evicted as int));
                }
                Some(keys)
            },
            EvictionStage::Exact => {
                if !more {
                    self.stage = EvictionStage::Done;
                    return None;
                }
                let mut keys: Vec<String> = Vec::new();
                let ghost start = self.evicted as int;
                let ghost order = self.order@;
                assert(keys_between(order, start, start) =~= Seq::<String>::empty());
                while self.evicted < self.order.len() - 1
                    invariant
                        self.wf(),
                        order.len() > 0,
                        self.order@ == order,
                        self.target_bytes == old(self).target_bytes,
                        self.passes == old(self).passes,
                        self.stage == EvictionStage::Exact,
                        0 <= start <= self.evicted,
                        keys@ == keys_between(order, start, self.evicted as int),
                    decreases order.len() - self.evicted,
                {
                    let ghost e = self.evicted as int;
                    self.evict_one(&mut keys);
                    proof {
                        lemma_keys_between_push(order, start, e);
                    }
                }
                self.stage = EvictionStage::Done;
                Some(keys)
            },
            EvictionStage::Done => None,
        }
    }

    /// How many candidates have not been evicted.
    pub fn remaining_entries(&self) -> (r: usize)
        requires
            self.wf(),
        ensures
            r == self.order().len() - self.evicted(),
    {
        self.order.len() - self.evicted
    }

    /// Where eviction stands.
    pub fn current_stage(&self) -> (r: EvictionStage)
        ensures
            r == self.stage(),
    {
        self.stage
    }
}

} // verus!

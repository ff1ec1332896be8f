//! Validator selection: a fixed number of slots drawn from the active
//! stakes, weighted by balance, from a deterministic stream derived from a
//! verifiable-random-function seed.
//!
//! The sampler is the alias method over integer-scaled weights: no floating
//! point anywhere, so every node that runs this code draws the same
//! indices from the same seed.

use vstd::prelude::*;
use crate::types::{ActiveStakeV, Slot, SlotV, SLOTS, clone_bytes};
use crate::contract::{StakingContract, wf};
use crate::seqs::active_ok;

verus! {

/// Use-case tag of the validator-selection stream.
pub const VALIDATOR_SELECTION_USE_CASE: u8 = 1;

/// A verifiable-random-function output, reduced to the entropy the
/// selection stream is seeded with.  Producing it is the VRF's business,
/// outside this crate; the selection below is a pure function of it.
#[derive(Clone, Copy, Debug, PartialEq, Eq, Structural)]
pub struct VrfSeed {
    pub entropy: u64,
}

/// Initial stream state for a seed, use case and nonce.  The low bit is
/// forced on so the xorshift stream never sits at its zero fixed point.
pub open spec fn rng_init(entropy: u64, use_case: u8, nonce: u64) -> u64 {
    (entropy ^ ((use_case as u64) << 56) ^ nonce) | 1
}

/// One step of the xorshift stream.
pub open spec fn xorshift(x: u64) -> u64 {
    ((x ^ (x << 13)) ^ ((x ^ (x << 13)) >> 7)) ^ (((x ^ (x << 13)) ^ ((x ^ (x << 13)) >> 7))
        << 17)
}

/// The deterministic pseudo-random stream used by selection.
pub struct SeededRng {
    pub state: u64,
}

impl VrfSeed {
    /// Derives the stream for a use case and nonce.
    pub fn rng(&self, use_case: u8, nonce: u64) -> (r: SeededRng)
        ensures
            r.state == rng_init(self.entropy, use_case, nonce),
    {
        SeededRng { state: (self.entropy ^ ((use_case as u64) << 56) ^ nonce) | 1 }
    }
}

impl SeededRng {
    /// The next word of the stream.
    pub fn next_u64(&mut self) -> (r: u64)
        ensures
            final(self).state == xorshift(old(self).state),
            r == xorshift(old(self).state),
    {
        let a = self.state ^ (self.state << 13);
        let b = a ^ (a >> 7);
        let c = b ^ (b << 17);
        self.state = c;
        c
    }
}

/// Sum of a weight sequence.
pub open spec fn wsum(s: Seq<u64>) -> int
    decreases s.len(),
{
    if s.len() == 0 {
        0
    } else {
        s[0] + wsum(s.drop_first())
    }
}

/// A prefix sum is bounded by its length times the largest weight value.
proof fn lemma_wsum_bounds(s: Seq<u64>)
    ensures
        0 <= wsum(s) <= s.len() * (u64::MAX as int),
    decreases s.len(),
{
    if s.len() > 0 {
        lemma_wsum_bounds(s.drop_first());
        assert(wsum(s) <= u64::MAX + (s.len() - 1) * (u64::MAX as int));
        assert(u64::MAX + (s.len() - 1) * (u64::MAX as int) == s.len() * (u64::MAX as int))
            by (nonlinear_arith);
    }
}

/// A nonempty sequence of positive weights has a positive sum.
pub proof fn lemma_wsum_pos(s: Seq<u64>)
    requires
        s.len() > 0,
        s[0] > 0,
    ensures
        wsum(s) > 0,
{
    lemma_wsum_bounds(s.drop_first());
    assert(wsum(s) == s[0] + wsum(s.drop_first()));
}

/// Adding one weight extends the sum.
proof fn lemma_wsum_snoc(s: Seq<u64>, x: u64)
    ensures
        wsum(s + seq![x]) == wsum(s) + x,
    decreases s.len(),
{
    let w = s + seq![x];
    if s.len() == 0 {
        assert(w[0] == x);
        assert(w.drop_first() =~= Seq::<u64>::empty());
        assert(wsum(w) == w[0] + wsum(w.drop_first()));
        assert(wsum(w.drop_first()) == 0);
    } else {
        lemma_wsum_snoc(s.drop_first(), x);
        assert(w[0] == s[0]);
        assert(w.drop_first() =~= s.drop_first() + seq![x]);
    }
}

/// Constant-time weighted index sampler.
///
/// `prob[i]` holds the scaled probability column of index `i` in units of
/// `1 / (n * total)`, `alias[i]` the index that fills the rest of the
/// column; `total` is the weight sum.
pub struct AliasMethod {
    pub prob: Vec<u128>,
    pub alias: Vec<usize>,
    pub total: u128,
}

/// Validity of an alias table: equal lengths, a positive weight sum, and
/// every alias within range.
pub open spec fn alias_wf(t: AliasMethod) -> bool {
    &&& t.prob@.len() == t.alias@.len()
    &&& t.prob@.len() > 0
    &&& t.total > 0
    &&& forall|i: int| 0 <= i < t.alias@.len() ==> (#[trigger] t.alias@[i]) < t.alias@.len()
}

/// The sampling rule: a uniform column from the first word, a uniform
/// position from the second; the column's own index if the position falls
/// under its probability, its alias otherwise.
pub open spec fn spec_sample_at(
    prob: Seq<u128>,
    alias: Seq<usize>,
    total: u128,
    r1: u64,
    r2: u64,
) -> int
    recommends
        prob.len() > 0,
        total > 0,
{
    let i = (r1 as int) % (prob.len() as int);
    if (r2 as int) % (total as int) < prob[i] {
        i
    } else {
        alias[i] as int
    }
}

/// The initial worklists: indices of under-full columns in `small`,
/// over-full ones in `large`, both in ascending order.
pub open spec fn vose_scan(scaled: Seq<u128>, total: u128, i: nat) -> (Seq<usize>, Seq<usize>)
    decreases i,
{
    if i == 0 {
        (Seq::<usize>::empty(), Seq::<usize>::empty())
    } else {
        let (sm, lg) = vose_scan(scaled, total, (i - 1) as nat);
        if scaled[i - 1] < total {
            (sm.push((i - 1) as usize), lg)
        } else {
            (sm, lg.push((i - 1) as usize))
        }
    }
}

/// Closing the leftover columns: each fills itself exactly.
pub open spec fn vose_flush(
    prob: Seq<u128>,
    alias: Seq<usize>,
    lst: Seq<usize>,
    total: u128,
) -> (Seq<u128>, Seq<usize>)
    decreases lst.len(),
{
    if lst.len() == 0 {
        (prob, alias)
    } else {
        let l = lst.last();
        vose_flush(
            prob.update(l as int, total),
            alias.update(l as int, l),
            lst.drop_last(),
            total,
        )
    }
}

/// The pairing phase: each under-full column takes an over-full one as its
/// alias and hands it the consumed share.
pub open spec fn vose_loop(
    scaled: Seq<u128>,
    prob: Seq<u128>,
    alias: Seq<usize>,
    small: Seq<usize>,
    large: Seq<usize>,
    total: u128,
) -> (Seq<u128>, Seq<usize>)
    decreases small.len() + large.len(),
{
    if small.len() == 0 || large.len() == 0 {
        let (p1, a1) = vose_flush(prob, alias, large, total);
        vose_flush(p1, a1, small, total)
    } else {
        let s = small.last();
        let l = large.last();
        let prob1 = prob.update(s as int, scaled[s as int]);
        let alias1 = alias.update(s as int, l);
        let deficit = if total >= scaled[s as int] {
            (total - scaled[s as int]) as u128
        } else {
            0u128
        };
        let rest = if scaled[l as int] >= deficit {
            (scaled[l as int] - deficit) as u128
        } else {
            0u128
        };
        let scaled1 = scaled.update(l as int, rest);
        if rest < total {
            vose_loop(
                scaled1,
                prob1,
                alias1,
                small.drop_last().push(l),
                large.drop_last(),
                total,
            )
        } else {
            vose_loop(
                scaled1,
                prob1,
                alias1,
                small.drop_last(),
                large.drop_last().push(l),
                total,
            )
        }
    }
}

/// The alias tables of a weight sequence: scaled weights, the initial
/// worklists, then the pairing phase.
pub open spec fn spec_alias_tables(weights: Seq<u64>) -> (Seq<u128>, Seq<usize>, u128) {
    let n = weights.len();
    let total = wsum(weights) as u128;
    let scaled = Seq::new(n, |i: int| ((weights[i] as int) * (n as int)) as u128);
    let (small, large) = vose_scan(scaled, total, n);
    let prob0 = Seq::new(n, |i: int| 0u128);
    let alias0 = Seq::new(n, |i: int| i as usize);
    let (prob, alias) = vose_loop(scaled, prob0, alias0, small, large, total);
    (prob, alias, total)
}

impl AliasMethod {
    /// Builds the alias table from integer weights in O(n), using scaled
    /// integer arithmetic only.
    pub fn new(weights: &Vec<u64>) -> (r: AliasMethod)
        requires
            weights@.len() > 0,
            wsum(weights@) > 0,
        ensures
            alias_wf(r),
            r.prob@.len() == weights@.len(),
            r.total == wsum(weights@),
            ({
                let (pt, at, tt) = spec_alias_tables(weights@);
                r.prob@ == pt && r.alias@ == at && r.total == tt
            }),
    {
        let n = weights.len();
        let mut total: u128 = 0;
        let mut i: usize = 0;
        proof {
            assert(weights@.take(0) =~= Seq::<u64>::empty());
        }
        while i < n
            invariant
                i <= weights@.len(),
                n == weights@.len(),
                total == wsum(weights@.take(i as int)),
                total <= (i as int) * (u64::MAX as int),
            decreases n - i,
        {
            proof {
                lemma_wsum_snoc(weights@.take(i as int), weights@[i as int]);
                assert(weights@.take(i as int + 1) =~= weights@.take(i as int) + seq![
                    weights@[i as int],
                ]);
                assert((i as int) * (u64::MAX as int) + u64::MAX == (i as int + 1) * (
                u64::MAX as int)) by (nonlinear_arith);
                assert((i as int + 1) * (u64::MAX as int) < u128::MAX) by (nonlinear_arith)
                    requires
                        0 <= i < weights@.len() < 0x1_0000_0000_0000_0000,
                ;
            }
            total = total + (weights[i] as u128);
            i = i + 1;
        }
        proof {
            assert(weights@.take(weights@.len() as int) =~= weights@);
        }
        let ghost spec_scaled = Seq::new(
            weights@.len(),
            |i: int| ((weights@[i] as int) * (weights@.len() as int)) as u128,
        );
        // scale each weight by n, so that `total` is the per-column
        // threshold
        let mut scaled: Vec<u128> = Vec::new();
        let mut j: usize = 0;
        while j < n
            invariant
                j <= weights@.len(),
                n == weights@.len(),
                scaled@.len() == j,
                forall|k: int|
                    0 <= k < j ==> (#[trigger] scaled@[k]) == (weights@[k] as int) * (
                    weights@.len() as int),
            decreases n - j,
        {
            proof {
                assert((weights@[j as int] as int) * (weights@.len() as int) < u128::MAX)
                    by (nonlinear_arith)
                    requires
                        weights@[j as int] <= u64::MAX,
                        weights@.len() < 0x1_0000_0000_0000_0000,
                ;
            }
            scaled.push((weights[j] as u128) * (n as u128));
            j = j + 1;
        }
        proof {
            assert(scaled@ =~= spec_scaled);
        }
        let mut prob: Vec<u128> = Vec::new();
        let mut alias: Vec<usize> = Vec::new();
        let mut small: Vec<usize> = Vec::new();
        let mut large: Vec<usize> = Vec::new();
        let mut k: usize = 0;
        while k < n
            invariant
                k <= n,
                n == weights@.len(),
                scaled@ == spec_scaled,
                scaled@.len() == n,
                prob@.len() == k,
                alias@.len() == k,
                forall|m: int| 0 <= m < k ==> (#[trigger] prob@[m]) == 0,
                forall|m: int| 0 <= m < k ==> (#[trigger] alias@[m]) == m,
                (small@, large@) == vose_scan(scaled@, total, k as nat),
                forall|m: int| 0 <= m < small@.len() ==> (#[trigger] small@[m]) < n,
                forall|m: int| 0 <= m < large@.len() ==> (#[trigger] large@[m]) < n,
            decreases n - k,
        {
            prob.push(0);
            alias.push(k);
            if scaled[k] < total {
                small.push(k);
            } else {
                large.push(k);
            }
            k = k + 1;
        }
        proof {
            assert(prob@ =~= Seq::new(n as nat, |i: int| 0u128));
            assert(alias@ =~= Seq::new(n as nat, |i: int| i as usize));
        }
        let ghost scaled0 = scaled@;
        let ghost small0 = small@;
        let ghost large0 = large@;
        let ghost target = vose_loop(scaled0, prob@, alias@, small0, large0, total);
        // pair each under-full column with an over-full one
        while small.len() > 0 && large.len() > 0
            invariant
                n == weights@.len(),
                scaled@.len() == n,
                prob@.len() == n,
                alias@.len() == n,
                forall|m: int| 0 <= m < n ==> (#[trigger] alias@[m]) < n,
                forall|m: int| 0 <= m < small@.len() ==> (#[trigger] small@[m]) < n,
                forall|m: int| 0 <= m < large@.len() ==> (#[trigger] large@[m]) < n,
                target == vose_loop(scaled@, prob@, alias@, small@, large@, total),
            decreases small@.len() + large@.len(),
        {
            let s = match small.pop() {
                Some(v) => v,
                None => {
                    proof {
                        assert(false);
                    }
                    0
                },
            };
            let l = match large.pop() {
                Some(v) => v,
                None => {
                    proof {
                        assert(false);
                    }
                    0
                },
            };
            prob[s] = scaled[s];
            alias[s] = l;
            // an under-full column leaves `total - scaled[s]` of the
            // over-full one consumed; the guards only bound the checked
            // arithmetic, they never clamp on a table the first loop built
            let deficit = if total >= scaled[s] {
                total - scaled[s]
            } else {
                0
            };
            let rest = if scaled[l] >= deficit {
                scaled[l] - deficit
            } else {
                0
            };
            scaled[l] = rest;
            if rest < total {
                small.push(l);
            } else {
                large.push(l);
            }
        }
        proof {
            assert(vose_loop(scaled@, prob@, alias@, small@, large@, total) == ({
                let (p1, a1) = vose_flush(prob@, alias@, large@, total);
                vose_flush(p1, a1, small@, total)
            }));
        }
        // whatever is left fills its own column exactly
        while large.len() > 0
            invariant
                n == weights@.len(),
                prob@.len() == n,
                alias@.len() == n,
                forall|m: int| 0 <= m < n ==> (#[trigger] alias@[m]) < n,
                forall|m: int| 0 <= m < large@.len() ==> (#[trigger] large@[m]) < n,
                target == ({
                    let (p1, a1) = vose_flush(prob@, alias@, large@, total);
                    vose_flush(p1, a1, small@, total)
                }),
            decreases large@.len(),
        {
            let l = match large.pop() {
                Some(v) => v,
                None => {
                    proof {
                        assert(false);
                    }
                    0
                },
            };
            prob[l] = total;
            alias[l] = l;
        }
        proof {
            assert(vose_flush(prob@, alias@, large@, total) == (prob@, alias@));
        }
        while small.len() > 0
            invariant
                n == weights@.len(),
                prob@.len() == n,
                alias@.len() == n,
                forall|m: int| 0 <= m < n ==> (#[trigger] alias@[m]) < n,
                forall|m: int| 0 <= m < small@.len() ==> (#[trigger] small@[m]) < n,
                target == vose_flush(prob@, alias@, small@, total),
            decreases small@.len(),
        {
            let s2 = match small.pop() {
                Some(v) => v,
                None => {
                    proof {
                        assert(false);
                    }
                    0
                },
            };
            prob[s2] = total;
            alias[s2] = s2;
        }
        AliasMethod { prob, alias, total }
    }

    /// Draws one index, consuming exactly two words of the stream.
    pub fn sample(&self, rng: &mut SeededRng) -> (idx: usize)
        requires
            alias_wf(*self),
        ensures
            idx < self.alias@.len(),
            final(rng).state == xorshift(xorshift(old(rng).state)),
            idx == spec_sample_at(
                self.prob@,
                self.alias@,
                self.total,
                xorshift(old(rng).state),
                xorshift(xorshift(old(rng).state)),
            ),
    {
        let r1 = rng.next_u64();
        let r2 = rng.next_u64();
        let n64: u64 = self.prob.len() as u64;
        let i64: u64 = r1 % n64;
        let i = i64 as usize;
        let u: u128 = (r2 as u128) % self.total;
        if u < self.prob[i] {
            i
        } else {
            self.alias[i]
        }
    }
}

/// The slot assignment of one active entry.
pub open spec fn slot_of(e: ActiveStakeV) -> SlotV {
    SlotV {
        validator_key: e.validator_key,
        staker_address: e.staker_address,
        reward_address: e.reward_address,
    }
}

/// View of a slot list.
pub open spec fn sv(s: Seq<Slot>) -> Seq<SlotV> {
    Seq::new(s.len(), |i: int| s[i]@)
}

/// The slots drawn by `k` more samples from stream state `state`.
pub open spec fn spec_select_loop(
    active: Seq<ActiveStakeV>,
    prob: Seq<u128>,
    alias: Seq<usize>,
    total: u128,
    state: u64,
    k: nat,
) -> Seq<SlotV>
    decreases k,
{
    if k == 0 {
        Seq::<SlotV>::empty()
    } else {
        let r1 = xorshift(state);
        let r2 = xorshift(r1);
        let idx = spec_sample_at(prob, alias, total, r1, r2);
        seq![slot_of(active[idx])] + spec_select_loop(
            active,
            prob,
            alias,
            total,
            r2,
            (k - 1) as nat,
        )
    }
}

/// The full selection: a pure function of the active table and the seed,
/// which is the selection determinism law.
pub open spec fn spec_select(active: Seq<ActiveStakeV>, entropy: u64) -> Seq<SlotV> {
    let weights = Seq::new(active.len(), |i: int| active[i].balance);
    let (prob, alias, total) = spec_alias_tables(weights);
    spec_select_loop(
        active,
        prob,
        alias,
        total,
        rng_init(entropy, VALIDATOR_SELECTION_USE_CASE, 0),
        SLOTS as nat,
    )
}

impl StakingContract {
    /// Draws `SLOTS` validator slot assignments, weighted by active
    /// balance, from the stream the seed derives.  The result is a pure
    /// function of the contract state and the seed; duplicates are expected
    /// and permitted, slots are proportional, not distinct.
    pub fn select_validators(&self, seed: &VrfSeed) -> (slots: Vec<Slot>)
        requires
            wf(self@),
            self@.active.len() > 0,
        ensures
            slots@.len() == SLOTS,
            sv(slots@) == spec_select(self@.active, seed.entropy),
            forall|k: int|
                0 <= k < slots@.len() ==> exists|i: int|
                    0 <= i < self@.active.len() && (#[trigger] slots@[k])@.validator_key
                        == self@.active[i].validator_key && slots@[k]@.staker_address
                        == self@.active[i].staker_address && slots@[k]@.reward_address
                        == self@.active[i].reward_address,
    {
        let mut weights: Vec<u64> = Vec::new();
        let mut i: usize = 0;
        while i < self.active_stake_sorted.len()
            invariant
                i <= self@.active.len(),
                weights@.len() == i,
                forall|j: int|
                    0 <= j < i ==> (#[trigger] weights@[j]) == self@.active[j].balance,
            decreases self@.active.len() - i,
        {
            weights.push(self.active_stake_sorted[i].balance);
            i = i + 1;
        }
        proof {
            assert(weights@[0] == self@.active[0].balance);
            assert(self@.active[0].balance > 0);
            lemma_wsum_pos(weights@);
            assert(weights@ =~= Seq::new(self@.active.len(), |i: int| self@.active[i].balance));
        }
        let lookup = AliasMethod::new(&weights);
        let mut rng = seed.rng(VALIDATOR_SELECTION_USE_CASE, 0);
        let mut slots: Vec<Slot> = Vec::new();
        let mut k: usize = 0;
        proof {
            assert(sv(slots@) =~= Seq::<SlotV>::empty());
        }
        while k < SLOTS
            invariant
                k <= SLOTS,
                slots@.len() == k,
                alias_wf(lookup),
                lookup.prob@.len() == self@.active.len(),
                spec_select(self@.active, seed.entropy) == sv(slots@) + spec_select_loop(
                    self@.active,
                    lookup.prob@,
                    lookup.alias@,
                    lookup.total,
                    rng.state,
                    (SLOTS - k) as nat,
                ),
                forall|m: int|
                    0 <= m < k ==> exists|i2: int|
                        0 <= i2 < self@.active.len() && (#[trigger] slots@[m])@.validator_key
                            == self@.active[i2].validator_key && slots@[m]@.staker_address
                            == self@.active[i2].staker_address && slots@[m]@.reward_address
                            == self@.active[i2].reward_address,
            decreases SLOTS - k,
        {
            let idx = lookup.sample(&mut rng);
            let entry = &self.active_stake_sorted[idx];
            let slot = Slot {
                validator_key: clone_bytes(&entry.validator_key),
                staker_address: entry.staker_address,
                reward_address: entry.reward_address,
            };
            let ghost sv_before = sv(slots@.drop_last());
            slots.push(slot);
            proof {
                assert(slots@.drop_last() =~= slots@.subrange(0, k as int));
                assert(slots@[k as int]@.validator_key == self@.active[idx as int].validator_key
                    && slots@[k as int]@.staker_address == self@.active[idx as int].staker_address
                    && slots@[k as int]@.reward_address == self@.active[
                    idx as int
                ].reward_address);
                assert(sv(slots@) =~= sv(slots@.drop_last()) + seq![slot_of(
                    self@.active[idx as int],
                )]);
            }
            k = k + 1;
        }
        proof {
            assert(spec_select_loop(
                self@.active,
                lookup.prob@,
                lookup.alias@,
                lookup.total,
                rng.state,
                0,
            ) =~= Seq::<SlotV>::empty());
            assert(sv(slots@) + Seq::<SlotV>::empty() =~= sv(slots@));
        }
        slots
    }
}

} // verus!

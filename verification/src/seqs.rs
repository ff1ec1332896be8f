//! Mathematical model of the contract's three ordered tables.
//!
//! Each table is modelled as a sequence kept strictly sorted: active stakes
//! by (balance descending, address ascending), inactive stakes and parking
//! sets by address ascending.  The transforms here (`*_insert`, `*_remove`)
//! are the specification of every mutation of the contract, and the lemmas
//! prove that they keep the tables sorted, keep addresses unique, move sums
//! by exactly the touched balance, and undo one another exactly.

use vstd::prelude::*;
use crate::types::{ActiveStakeV, Address, InactiveStake, addr_lt, VALIDATOR_KEY_SIZE};

verus! {

// ---------------------------------------------------------------------------
// Active stakes: strictly ordered by (balance desc, staker address asc).
// ---------------------------------------------------------------------------

/// Strict order of the active table: higher balances first, ties broken by
/// ascending staker address.
pub open spec fn active_lt(a: ActiveStakeV, b: ActiveStakeV) -> bool {
    b.balance < a.balance || (a.balance == b.balance && addr_lt(
        a.staker_address,
        b.staker_address,
    ))
}

/// The sequence is strictly sorted by `active_lt`.
pub open spec fn active_sorted(s: Seq<ActiveStakeV>) -> bool {
    forall|i: int, j: int|
        #![trigger s[i], s[j]]
        0 <= i < j < s.len() ==> active_lt(s[i], s[j])
}

/// No two entries share a staker address.
pub open spec fn active_unique(s: Seq<ActiveStakeV>) -> bool {
    forall|i: int, j: int|
        #![trigger s[i], s[j]]
        0 <= i < j < s.len() ==> s[i].staker_address != s[j].staker_address
}

/// The entry of `a`, if the table holds one.
pub open spec fn active_find(s: Seq<ActiveStakeV>, a: Address) -> Option<ActiveStakeV>
    decreases s.len(),
{
    if s.len() == 0 {
        None
    } else if s[0].staker_address == a {
        Some(s[0])
    } else {
        active_find(s.drop_first(), a)
    }
}

/// Whether the table holds an entry of `a`.
pub open spec fn active_has(s: Seq<ActiveStakeV>, a: Address) -> bool {
    active_find(s, a) is Some
}

/// The table without the first entry of `a` (unchanged if there is none).
pub open spec fn active_remove(s: Seq<ActiveStakeV>, a: Address) -> Seq<ActiveStakeV>
    decreases s.len(),
{
    if s.len() == 0 {
        s
    } else if s[0].staker_address == a {
        s.drop_first()
    } else {
        seq![s[0]] + active_remove(s.drop_first(), a)
    }
}

/// The table with `e` inserted at its sorted position.
pub open spec fn active_insert(s: Seq<ActiveStakeV>, e: ActiveStakeV) -> Seq<ActiveStakeV>
    decreases s.len(),
{
    if s.len() == 0 {
        seq![e]
    } else if active_lt(e, s[0]) {
        seq![e] + s
    } else {
        seq![s[0]] + active_insert(s.drop_first(), e)
    }
}

/// Sum of the balances in the table.
pub open spec fn active_sum(s: Seq<ActiveStakeV>) -> int
    decreases s.len(),
{
    if s.len() == 0 {
        0
    } else {
        s[0].balance + active_sum(s.drop_first())
    }
}

/// `active_lt` is transitive.
pub proof fn lemma_active_lt_trans(a: ActiveStakeV, b: ActiveStakeV, c: ActiveStakeV)
    requires
        active_lt(a, b),
        active_lt(b, c),
    ensures
        active_lt(a, c),
{
}

/// Entries of distinct addresses are always ordered one way or the other.
pub proof fn lemma_active_lt_conn(a: ActiveStakeV, b: ActiveStakeV)
    requires
        a.staker_address != b.staker_address,
    ensures
        active_lt(a, b) || active_lt(b, a),
{
}

/// What `active_insert` does to a sorted table without the new address:
/// the result is sorted, one longer, finds the new entry under its address
/// and everything else as before, and its sum grows by the new balance.
pub proof fn lemma_active_insert_props(s: Seq<ActiveStakeV>, e: ActiveStakeV)
    requires
        active_sorted(s),
        !active_has(s, e.staker_address),
    ensures
        active_sorted(active_insert(s, e)),
        active_insert(s, e).len() == s.len() + 1,
        forall|a: Address| #[trigger]
            active_find(active_insert(s, e), a) == if a == e.staker_address {
                Some(e)
            } else {
                active_find(s, a)
            },
        active_sum(active_insert(s, e)) == active_sum(s) + e.balance,
        forall|i: int|
            0 <= i < active_insert(s, e).len() ==> #[trigger] active_insert(s, e)[i] == e
                || s.contains(active_insert(s, e)[i]),
    decreases s.len(),
{
    let r = active_insert(s, e);
    if s.len() == 0 {
        assert(r =~= seq![e]);
        assert(r.drop_first() =~= Seq::<ActiveStakeV>::empty());
        assert(active_sum(r) == e.balance + active_sum(r.drop_first()));
        assert(active_sum(r.drop_first()) == 0);
        assert(active_sum(s) == 0);
        assert forall|a: Address| #[trigger]
            active_find(r, a) == (if a == e.staker_address {
                Some(e)
            } else {
                active_find(s, a)
            }) by {
            if a == e.staker_address {
                assert(active_find(r, a) == Some(e));
            } else {
                assert(active_find(r, a) == active_find(r.drop_first(), a));
                assert(active_find(r.drop_first(), a) == None::<ActiveStakeV>);
            }
            assert(active_find(s, a) == None::<ActiveStakeV>);
        }
    } else if active_lt(e, s[0]) {
        assert(r == seq![e] + s);
        assert(r.drop_first() =~= s);
        assert(r[0] == e);
        assert forall|i: int, j: int| 0 <= i < j < r.len() implies active_lt(r[i], r[j]) by {
            if i == 0 {
                if j > 1 {
                    lemma_active_lt_trans(e, s[0], s[j - 1]);
                }
            }
        }
        assert forall|i: int| 0 <= i < r.len() implies r[i] == e || s.contains(r[i]) by {
            if i > 0 {
                assert(r[i] == s[i - 1]);
            }
        }
    } else {
        let d = s.drop_first();
        assert(s[0].staker_address != e.staker_address);
        lemma_active_insert_props(d, e);
        let r1 = active_insert(d, e);
        assert(r == seq![s[0]] + r1);
        assert(r[0] == s[0]);
        assert(r.drop_first() =~= r1);
        lemma_active_lt_conn(s[0], e);
        assert(active_lt(s[0], e));
        assert forall|i: int, j: int| 0 <= i < j < r.len() implies active_lt(r[i], r[j]) by {
            if i == 0 {
                let x = r1[j - 1];
                assert(x == e || d.contains(x));
                if x == e {
                } else {
                    let m = choose|m: int| 0 <= m < d.len() && d[m] == x;
                    assert(s[m + 1] == x);
                }
            } else {
                assert(active_lt(r1[i - 1], r1[j - 1]));
            }
        }
        assert forall|a: Address| #[trigger]
            active_find(r, a) == (if a == e.staker_address {
                Some(e)
            } else {
                active_find(s, a)
            }) by {
            if a == s[0].staker_address {
                assert(active_find(r, a) == Some(s[0]));
                assert(active_find(s, a) == Some(s[0]));
            } else {
                assert(active_find(r, a) == active_find(r1, a));
                assert(active_find(s, a) == active_find(d, a));
            }
        }
        assert(active_sum(r) == s[0].balance + active_sum(r1));
        assert(active_sum(s) == s[0].balance + active_sum(d));
        assert forall|i: int| 0 <= i < r.len() implies r[i] == e || s.contains(r[i]) by {
            if i == 0 {
                assert(s.contains(s[0])) by {
                    assert(s[0] == s[0]);
                }
            } else {
                let x = r1[i - 1];
                assert(r[i] == x);
                if x != e {
                    assert(d.contains(x));
                    let m = choose|m: int| 0 <= m < d.len() && d[m] == x;
                    assert(s[m + 1] == x);
                }
            }
        }
    }
}

/// What `active_remove` does to a sorted, address-unique table: the result
/// is sorted, the removed address is gone and everything else as before,
/// and the sum shrinks by the removed balance.
pub proof fn lemma_active_remove_props(s: Seq<ActiveStakeV>, a: Address)
    requires
        active_sorted(s),
        active_unique(s),
    ensures
        active_sorted(active_remove(s, a)),
        active_unique(active_remove(s, a)),
        active_has(s, a) ==> active_remove(s, a).len() == s.len() - 1,
        !active_has(s, a) ==> active_remove(s, a) == s,
        forall|b: Address| #[trigger]
            active_find(active_remove(s, a), b) == if b == a {
                None::<ActiveStakeV>
            } else {
                active_find(s, b)
            },
        active_sum(active_remove(s, a)) == active_sum(s) - (if active_has(s, a) {
            active_find(s, a)->Some_0.balance
        } else {
            0
        }),
        forall|i: int|
            0 <= i < active_remove(s, a).len() ==> s.contains(
                #[trigger] active_remove(s, a)[i],
            ),
    decreases s.len(),
{
    let r = active_remove(s, a);
    if s.len() == 0 {
        assert(r =~= s);
        assert(forall|b: Address| #[trigger]
            active_find(s, b) == None::<ActiveStakeV>);
    } else if s[0].staker_address == a {
        let d = s.drop_first();
        assert(r == d);
        assert forall|b: Address| #[trigger]
            active_find(r, b) == (if b == a {
                None::<ActiveStakeV>
            } else {
                active_find(s, b)
            }) by {
            if b == a {
                if active_find(d, b) is Some {
                    lemma_active_find_contains(d, b);
                    let m = choose|m: int|
                        0 <= m < d.len() && d[m] == active_find(d, b)->Some_0;
                    assert(s[m + 1].staker_address == a);
                    assert(s[0].staker_address == s[m + 1].staker_address);
                    assert(false);
                }
            }
        }
        assert forall|i: int| 0 <= i < r.len() implies s.contains(r[i]) by {
            assert(r[i] == s[i + 1]);
        }
    } else {
        let d = s.drop_first();
        lemma_active_remove_props(d, a);
        let r1 = active_remove(d, a);
        assert(r == seq![s[0]] + r1);
        assert(r[0] == s[0]);
        assert(r.drop_first() =~= r1);
        if !active_has(s, a) {
            assert(r1 == d);
            assert(r =~= s);
        }
        assert forall|i: int, j: int| 0 <= i < j < r.len() implies active_lt(r[i], r[j]) by {
            if i == 0 {
                let x = r1[j - 1];
                assert(d.contains(x));
                let m = choose|m: int| 0 <= m < d.len() && d[m] == x;
                assert(s[m + 1] == x);
            } else {
                assert(active_lt(r1[i - 1], r1[j - 1]));
            }
        }
        assert forall|i: int, j: int| 0 <= i < j < r.len() implies r[i].staker_address
            != r[j].staker_address by {
            if i == 0 {
                let x = r1[j - 1];
                assert(d.contains(x));
                let m = choose|m: int| 0 <= m < d.len() && d[m] == x;
                assert(s[m + 1] == x);
            } else {
                assert(r1[i - 1].staker_address != r1[j - 1].staker_address);
            }
        }
        assert forall|b: Address| #[trigger]
            active_find(r, b) == (if b == a {
                None::<ActiveStakeV>
            } else {
                active_find(s, b)
            }) by {
            if b == s[0].staker_address {
                assert(active_find(r, b) == Some(s[0]));
            } else {
                assert(active_find(r, b) == active_find(r1, b));
                assert(active_find(s, b) == active_find(d, b));
            }
        }
        assert(active_sum(r) == s[0].balance + active_sum(r1));
        assert(active_sum(s) == s[0].balance + active_sum(d));
        assert forall|i: int| 0 <= i < r.len() implies s.contains(r[i]) by {
            if i == 0 {
                assert(s[0] == s[0]);
            } else {
                let x = r1[i - 1];
                assert(d.contains(x));
                let m = choose|m: int| 0 <= m < d.len() && d[m] == x;
                assert(s[m + 1] == x);
            }
        }
    }
}

/// A found entry is an element of the table.
pub proof fn lemma_active_find_contains(s: Seq<ActiveStakeV>, a: Address)
    requires
        active_has(s, a),
    ensures
        s.contains(active_find(s, a)->Some_0),
        active_find(s, a)->Some_0.staker_address == a,
    decreases s.len(),
{
    if s[0].staker_address == a {
        assert(s[0] == s[0]);
    } else {
        lemma_active_find_contains(s.drop_first(), a);
        let x = active_find(s.drop_first(), a)->Some_0;
        let m = choose|m: int| 0 <= m < s.drop_first().len() && s.drop_first()[m] == x;
        assert(s[m + 1] == x);
    }
}

/// Removing a freshly inserted entry restores the table exactly.
pub proof fn lemma_active_remove_insert(s: Seq<ActiveStakeV>, e: ActiveStakeV)
    requires
        active_sorted(s),
        !active_has(s, e.staker_address),
    ensures
        active_remove(active_insert(s, e), e.staker_address) == s,
    decreases s.len(),
{
    let r = active_insert(s, e);
    if s.len() == 0 {
        assert(r == seq![e]);
        assert(r.drop_first() =~= s);
    } else if active_lt(e, s[0]) {
        assert(r == seq![e] + s);
        assert(r.drop_first() =~= s);
    } else {
        let d = s.drop_first();
        lemma_active_remove_insert(d, e);
        let r1 = active_insert(d, e);
        assert(r == seq![s[0]] + r1);
        assert(r[0] == s[0]);
        assert(r.drop_first() =~= r1);
        assert(s[0].staker_address != e.staker_address);
        assert(active_remove(r, e.staker_address) == seq![s[0]] + active_remove(
            r1,
            e.staker_address,
        ));
        assert(seq![s[0]] + d =~= s);
    }
}

/// Re-inserting a removed entry restores the table exactly.
pub proof fn lemma_active_insert_remove(s: Seq<ActiveStakeV>, a: Address)
    requires
        active_sorted(s),
        active_unique(s),
        active_has(s, a),
    ensures
        active_insert(active_remove(s, a), active_find(s, a)->Some_0) == s,
    decreases s.len(),
{
    let e = active_find(s, a)->Some_0;
    let r = active_remove(s, a);
    if s[0].staker_address == a {
        assert(e == s[0]);
        assert(r == s.drop_first());
        if r.len() == 0 {
            assert(active_insert(r, e) =~= seq![e]);
            assert(seq![e] =~= s);
        } else {
            assert(r[0] == s[1]);
            assert(active_lt(e, r[0]));
            assert(active_insert(r, e) == seq![e] + r);
            assert(seq![e] + r =~= s);
        }
    } else {
        let d = s.drop_first();
        lemma_active_insert_remove(d, a);
        assert(active_find(s, a) == active_find(d, a));
        assert(r == seq![s[0]] + active_remove(d, a));
        let r1 = active_remove(d, a);
        assert(r[0] == s[0]);
        assert(r.drop_first() =~= r1);
        // the removed entry sits behind the head, so it re-inserts behind it
        lemma_active_find_contains(s, a);
        let m = choose|m: int| 0 <= m < s.len() && s[m] == e;
        assert(m > 0) by {
            assert(s[m].staker_address == a);
        }
        assert(active_lt(s[0], e));
        assert(!active_lt(e, s[0]));
        if r.len() == 0 {
            assert(false);
        }
        assert(active_insert(r, e) == seq![s[0]] + active_insert(r1, e));
        assert(seq![s[0]] + d =~= s);
    }
}

/// Ties the recursive `active_find` to a scan position: if nothing before
/// `i` has address `a` and `s[i]` does, the find yields `s[i]`.
pub proof fn lemma_active_find_at(s: Seq<ActiveStakeV>, a: Address, i: int)
    requires
        0 <= i < s.len(),
        s[i].staker_address == a,
        forall|j: int| 0 <= j < i ==> s[j].staker_address != a,
    ensures
        active_find(s, a) == Some(s[i]),
        active_remove(s, a) == s.remove(i),
    decreases s.len(),
{
    if i == 0 {
        assert(s.drop_first() =~= s.remove(0));
    } else {
        let d = s.drop_first();
        lemma_active_find_at(d, a, i - 1);
        assert(active_remove(s, a) == seq![s[0]] + d.remove(i - 1));
        assert(seq![s[0]] + d.remove(i - 1) =~= s.remove(i));
    }
}

/// If no entry has address `a`, the find fails.
pub proof fn lemma_active_find_none(s: Seq<ActiveStakeV>, a: Address)
    requires
        forall|j: int| 0 <= j < s.len() ==> s[j].staker_address != a,
    ensures
        active_find(s, a) == None::<ActiveStakeV>,
    decreases s.len(),
{
    if s.len() > 0 {
        lemma_active_find_none(s.drop_first(), a);
    }
}

/// Ties the recursive `active_insert` to a scan position: if everything
/// before `i` precedes `e` and `s[i]` (if any) follows it, the insert puts
/// `e` at `i`.
pub proof fn lemma_active_insert_at(s: Seq<ActiveStakeV>, e: ActiveStakeV, i: int)
    requires
        0 <= i <= s.len(),
        forall|j: int| 0 <= j < i ==> !active_lt(e, #[trigger] s[j]),
        i < s.len() ==> active_lt(e, s[i]),
    ensures
        active_insert(s, e) == s.insert(i, e),
    decreases s.len(),
{
    if s.len() == 0 {
        assert(active_insert(s, e) =~= s.insert(0, e));
    } else if i == 0 {
        assert(active_insert(s, e) == seq![e] + s);
        assert(seq![e] + s =~= s.insert(0, e));
    } else {
        let d = s.drop_first();
        lemma_active_insert_at(d, e, i - 1);
        assert(active_insert(s, e) == seq![s[0]] + d.insert(i - 1, e));
        assert(seq![s[0]] + d.insert(i - 1, e) =~= s.insert(i, e));
    }
}

/// Every entry has a positive balance and a key of the canonical length.
pub open spec fn active_ok(s: Seq<ActiveStakeV>) -> bool {
    forall|i: int|
        0 <= i < s.len() ==> (#[trigger] s[i].balance > 0 && s[i].validator_key.len()
            == VALIDATOR_KEY_SIZE)
}

/// The address at any index is found by `active_find`.
pub proof fn lemma_active_has_index(s: Seq<ActiveStakeV>, i: int)
    requires
        0 <= i < s.len(),
    ensures
        active_has(s, s[i].staker_address),
    decreases s.len(),
{
    if i > 0 && s[0].staker_address != s[i].staker_address {
        lemma_active_has_index(s.drop_first(), i - 1);
        assert(s.drop_first()[i - 1] == s[i]);
    }
}

/// Inserting a fresh address keeps addresses unique.
pub proof fn lemma_active_insert_unique(s: Seq<ActiveStakeV>, e: ActiveStakeV)
    requires
        active_sorted(s),
        active_unique(s),
        !active_has(s, e.staker_address),
    ensures
        active_unique(active_insert(s, e)),
{
    lemma_active_insert_props(s, e);
    let r = active_insert(s, e);
    assert forall|i: int, j: int| 0 <= i < j < r.len() implies r[i].staker_address
        != r[j].staker_address by {
        if r[i].staker_address == r[j].staker_address {
            assert(active_lt(r[i], r[j]));
            assert(r[i] != r[j]);
            if r[i] == e {
                let m = choose|m: int| 0 <= m < s.len() && s[m] == r[j];
                lemma_active_has_index(s, m);
            } else if r[j] == e {
                let m = choose|m: int| 0 <= m < s.len() && s[m] == r[i];
                lemma_active_has_index(s, m);
            } else {
                let m1 = choose|m: int| 0 <= m < s.len() && s[m] == r[i];
                let m2 = choose|m: int| 0 <= m < s.len() && s[m] == r[j];
                assert(m1 != m2);
            }
        }
    }
}

/// Inserting a well-formed entry keeps the table well-formed.
pub proof fn lemma_active_insert_ok(s: Seq<ActiveStakeV>, e: ActiveStakeV)
    requires
        active_sorted(s),
        !active_has(s, e.staker_address),
        active_ok(s),
        e.balance > 0,
        e.validator_key.len() == VALIDATOR_KEY_SIZE,
    ensures
        active_ok(active_insert(s, e)),
{
    lemma_active_insert_props(s, e);
    let r = active_insert(s, e);
    assert forall|i: int|
        0 <= i < r.len() implies (#[trigger] r[i].balance > 0 && r[i].validator_key.len()
        == VALIDATOR_KEY_SIZE) by {
        if r[i] != e {
            let m = choose|m: int| 0 <= m < s.len() && s[m] == r[i];
        }
    }
}

/// Removal keeps the table well-formed.
pub proof fn lemma_active_remove_ok(s: Seq<ActiveStakeV>, a: Address)
    requires
        active_sorted(s),
        active_unique(s),
        active_ok(s),
    ensures
        active_ok(active_remove(s, a)),
{
    lemma_active_remove_props(s, a);
    let r = active_remove(s, a);
    assert forall|i: int|
        0 <= i < r.len() implies (#[trigger] r[i].balance > 0 && r[i].validator_key.len()
        == VALIDATOR_KEY_SIZE) by {
        let m = choose|m: int| 0 <= m < s.len() && s[m] == r[i];
    }
}

/// Balance sums are non-negative, and any held entry's balance is bounded
/// by the sum.
pub proof fn lemma_active_sum_bounds(s: Seq<ActiveStakeV>, a: Address)
    ensures
        active_sum(s) >= 0,
        active_has(s, a) ==> active_find(s, a)->Some_0.balance <= active_sum(s),
    decreases s.len(),
{
    if s.len() > 0 {
        lemma_active_sum_bounds(s.drop_first(), a);
    }
}

// ---------------------------------------------------------------------------
// Inactive stakes: pairs (address, stake), strictly ordered by address.
// ---------------------------------------------------------------------------

/// One row of the inactive table.
pub type InactiveEntry = (Address, InactiveStake);

/// The sequence is strictly sorted by address (which also makes addresses
/// unique).
pub open spec fn inact_sorted(s: Seq<InactiveEntry>) -> bool {
    forall|i: int, j: int|
        #![trigger s[i], s[j]]
        0 <= i < j < s.len() ==> addr_lt(s[i].0, s[j].0)
}

/// The stake of `a`, if the table holds one.
pub open spec fn inact_find(s: Seq<InactiveEntry>, a: Address) -> Option<InactiveStake>
    decreases s.len(),
{
    if s.len() == 0 {
        None
    } else if s[0].0 == a {
        Some(s[0].1)
    } else {
        inact_find(s.drop_first(), a)
    }
}

/// Whether the table holds a stake of `a`.
pub open spec fn inact_has(s: Seq<InactiveEntry>, a: Address) -> bool {
    inact_find(s, a) is Some
}

/// The table without the first row of `a` (unchanged if there is none).
pub open spec fn inact_remove(s: Seq<InactiveEntry>, a: Address) -> Seq<InactiveEntry>
    decreases s.len(),
{
    if s.len() == 0 {
        s
    } else if s[0].0 == a {
        s.drop_first()
    } else {
        seq![s[0]] + inact_remove(s.drop_first(), a)
    }
}

/// The table with the row `e` inserted at its sorted position.
pub open spec fn inact_insert(s: Seq<InactiveEntry>, e: InactiveEntry) -> Seq<InactiveEntry>
    decreases s.len(),
{
    if s.len() == 0 {
        seq![e]
    } else if addr_lt(e.0, s[0].0) {
        seq![e] + s
    } else {
        seq![s[0]] + inact_insert(s.drop_first(), e)
    }
}

/// Sum of the balances in the table.
pub open spec fn inact_sum(s: Seq<InactiveEntry>) -> int
    decreases s.len(),
{
    if s.len() == 0 {
        0
    } else {
        s[0].1.balance + inact_sum(s.drop_first())
    }
}

/// What `inact_insert` does to a sorted table without the new address.
pub proof fn lemma_inact_insert_props(s: Seq<InactiveEntry>, e: InactiveEntry)
    requires
        inact_sorted(s),
        !inact_has(s, e.0),
    ensures
        inact_sorted(inact_insert(s, e)),
        inact_insert(s, e).len() == s.len() + 1,
        forall|a: Address| #[trigger]
            inact_find(inact_insert(s, e), a) == if a == e.0 {
                Some(e.1)
            } else {
                inact_find(s, a)
            },
        inact_sum(inact_insert(s, e)) == inact_sum(s) + e.1.balance,
        forall|i: int|
            0 <= i < inact_insert(s, e).len() ==> #[trigger] inact_insert(s, e)[i] == e
                || s.contains(inact_insert(s, e)[i]),
    decreases s.len(),
{
    let r = inact_insert(s, e);
    if s.len() == 0 {
        assert(r =~= seq![e]);
        assert(r.drop_first() =~= Seq::<InactiveEntry>::empty());
        assert(inact_sum(r) == e.1.balance + inact_sum(r.drop_first()));
        assert(inact_sum(r.drop_first()) == 0);
        assert forall|a: Address| #[trigger]
            inact_find(r, a) == (if a == e.0 {
                Some(e.1)
            } else {
                inact_find(s, a)
            }) by {
            if a != e.0 {
                assert(inact_find(r, a) == inact_find(r.drop_first(), a));
            }
        }
    } else if addr_lt(e.0, s[0].0) {
        assert(r == seq![e] + s);
        assert(r.drop_first() =~= s);
        assert(r[0] == e);
        assert(s[0].0 != e.0);
        assert forall|i: int, j: int| 0 <= i < j < r.len() implies addr_lt(r[i].0, r[j].0) by {
            if i == 0 && j > 1 {
                assert(addr_lt(s[0].0, s[j - 1].0));
            }
        }
        assert forall|i: int| 0 <= i < r.len() implies r[i] == e || s.contains(r[i]) by {
            if i > 0 {
                assert(r[i] == s[i - 1]);
            }
        }
    } else {
        let d = s.drop_first();
        assert(s[0].0 != e.0);
        lemma_inact_insert_props(d, e);
        let r1 = inact_insert(d, e);
        assert(r == seq![s[0]] + r1);
        assert(r[0] == s[0]);
        assert(r.drop_first() =~= r1);
        assert(addr_lt(s[0].0, e.0));
        assert forall|i: int, j: int| 0 <= i < j < r.len() implies addr_lt(r[i].0, r[j].0) by {
            if i == 0 {
                let x = r1[j - 1];
                assert(x == e || d.contains(x));
                if x != e {
                    let m = choose|m: int| 0 <= m < d.len() && d[m] == x;
                    assert(s[m + 1] == x);
                }
            } else {
                assert(addr_lt(r1[i - 1].0, r1[j - 1].0));
            }
        }
        assert forall|a: Address| #[trigger]
            inact_find(r, a) == (if a == e.0 {
                Some(e.1)
            } else {
                inact_find(s, a)
            }) by {
            if a == s[0].0 {
                assert(inact_find(r, a) == Some(s[0].1));
            } else {
                assert(inact_find(r, a) == inact_find(r1, a));
                assert(inact_find(s, a) == inact_find(d, a));
            }
        }
        assert(inact_sum(r) == s[0].1.balance + inact_sum(r1));
        assert(inact_sum(s) == s[0].1.balance + inact_sum(d));
        assert forall|i: int| 0 <= i < r.len() implies r[i] == e || s.contains(r[i]) by {
            if i == 0 {
                assert(s[0] == s[0]);
            } else {
                let x = r1[i - 1];
                if x != e {
                    assert(d.contains(x));
                    let m = choose|m: int| 0 <= m < d.len() && d[m] == x;
                    assert(s[m + 1] == x);
                }
            }
        }
    }
}

/// What `inact_remove` does to a sorted table.
pub proof fn lemma_inact_remove_props(s: Seq<InactiveEntry>, a: Address)
    requires
        inact_sorted(s),
    ensures
        inact_sorted(inact_remove(s, a)),
        inact_has(s, a) ==> inact_remove(s, a).len() == s.len() - 1,
        !inact_has(s, a) ==> inact_remove(s, a) == s,
        forall|b: Address| #[trigger]
            inact_find(inact_remove(s, a), b) == if b == a {
                None::<InactiveStake>
            } else {
                inact_find(s, b)
            },
        inact_sum(inact_remove(s, a)) == inact_sum(s) - (if inact_has(s, a) {
            inact_find(s, a)->Some_0.balance
        } else {
            0
        }),
        forall|i: int|
            0 <= i < inact_remove(s, a).len() ==> s.contains(#[trigger] inact_remove(s, a)[i]),
    decreases s.len(),
{
    let r = inact_remove(s, a);
    if s.len() == 0 {
        assert(r =~= s);
    } else if s[0].0 == a {
        let d = s.drop_first();
        assert(r == d);
        assert forall|b: Address| #[trigger]
            inact_find(r, b) == (if b == a {
                None::<InactiveStake>
            } else {
                inact_find(s, b)
            }) by {
            if b == a {
                if inact_find(d, b) is Some {
                    lemma_inact_find_contains(d, b);
                    let m = choose|m: int| 0 <= m < d.len() && d[m].0 == a;
                    assert(addr_lt(s[0].0, s[m + 1].0));
                    assert(false);
                }
            }
        }
        assert forall|i: int| 0 <= i < r.len() implies s.contains(r[i]) by {
            assert(r[i] == s[i + 1]);
        }
    } else {
        let d = s.drop_first();
        lemma_inact_remove_props(d, a);
        let r1 = inact_remove(d, a);
        assert(r == seq![s[0]] + r1);
        assert(r[0] == s[0]);
        assert(r.drop_first() =~= r1);
        if !inact_has(s, a) {
            assert(r =~= s);
        }
        assert forall|i: int, j: int| 0 <= i < j < r.len() implies addr_lt(r[i].0, r[j].0) by {
            if i == 0 {
                let x = r1[j - 1];
                assert(d.contains(x));
                let m = choose|m: int| 0 <= m < d.len() && d[m] == x;
                assert(s[m + 1] == x);
            } else {
                assert(addr_lt(r1[i - 1].0, r1[j - 1].0));
            }
        }
        assert forall|b: Address| #[trigger]
            inact_find(r, b) == (if b == a {
                None::<InactiveStake>
            } else {
                inact_find(s, b)
            }) by {
            if b == s[0].0 {
                assert(inact_find(r, b) == Some(s[0].1));
            } else {
                assert(inact_find(r, b) == inact_find(r1, b));
                assert(inact_find(s, b) == inact_find(d, b));
            }
        }
        assert(inact_sum(r) == s[0].1.balance + inact_sum(r1));
        assert(inact_sum(s) == s[0].1.balance + inact_sum(d));
        assert forall|i: int| 0 <= i < r.len() implies s.contains(r[i]) by {
            if i == 0 {
                assert(s[0] == s[0]);
            } else {
                let x = r1[i - 1];
                assert(d.contains(x));
                let m = choose|m: int| 0 <= m < d.len() && d[m] == x;
                assert(s[m + 1] == x);
            }
        }
    }
}

/// A found row is an element of the table.
pub proof fn lemma_inact_find_contains(s: Seq<InactiveEntry>, a: Address)
    requires
        inact_has(s, a),
    ensures
        s.contains((a, inact_find(s, a)->Some_0)),
    decreases s.len(),
{
    if s[0].0 == a {
        assert(s[0] == (a, s[0].1));
    } else {
        lemma_inact_find_contains(s.drop_first(), a);
        let d = s.drop_first();
        let x = (a, inact_find(d, a)->Some_0);
        let m = choose|m: int| 0 <= m < d.len() && d[m] == x;
        assert(s[m + 1] == x);
    }
}

/// Removing a freshly inserted row restores the table exactly.
pub proof fn lemma_inact_remove_insert(s: Seq<InactiveEntry>, e: InactiveEntry)
    requires
        inact_sorted(s),
        !inact_has(s, e.0),
    ensures
        inact_remove(inact_insert(s, e), e.0) == s,
    decreases s.len(),
{
    let r = inact_insert(s, e);
    if s.len() == 0 {
        assert(r == seq![e]);
        assert(r.drop_first() =~= s);
    } else if addr_lt(e.0, s[0].0) {
        assert(r == seq![e] + s);
        assert(r.drop_first() =~= s);
        assert(s[0].0 != e.0);
    } else {
        let d = s.drop_first();
        lemma_inact_remove_insert(d, e);
        let r1 = inact_insert(d, e);
        assert(r == seq![s[0]] + r1);
        assert(r[0] == s[0]);
        assert(r.drop_first() =~= r1);
        assert(s[0].0 != e.0);
        assert(inact_remove(r, e.0) == seq![s[0]] + inact_remove(r1, e.0));
        assert(seq![s[0]] + d =~= s);
    }
}

/// Re-inserting a removed row restores the table exactly.
pub proof fn lemma_inact_insert_remove(s: Seq<InactiveEntry>, a: Address)
    requires
        inact_sorted(s),
        inact_has(s, a),
    ensures
        inact_insert(inact_remove(s, a), (a, inact_find(s, a)->Some_0)) == s,
    decreases s.len(),
{
    let e = (a, inact_find(s, a)->Some_0);
    let r = inact_remove(s, a);
    if s[0].0 == a {
        assert(e == s[0]);
        assert(r == s.drop_first());
        if r.len() == 0 {
            assert(inact_insert(r, e) =~= seq![e]);
            assert(seq![e] =~= s);
        } else {
            assert(r[0] == s[1]);
            assert(addr_lt(e.0, r[0].0));
            assert(inact_insert(r, e) == seq![e] + r);
            assert(seq![e] + r =~= s);
        }
    } else {
        let d = s.drop_first();
        lemma_inact_insert_remove(d, a);
        assert(inact_find(s, a) == inact_find(d, a));
        let r1 = inact_remove(d, a);
        assert(r == seq![s[0]] + r1);
        assert(r[0] == s[0]);
        assert(r.drop_first() =~= r1);
        lemma_inact_find_contains(s, a);
        let m = choose|m: int| 0 <= m < s.len() && s[m] == e;
        assert(m > 0);
        assert(addr_lt(s[0].0, e.0));
        assert(!addr_lt(e.0, s[0].0));
        assert(inact_insert(r, e) == seq![s[0]] + inact_insert(r1, e));
        assert(seq![s[0]] + d =~= s);
    }
}

/// Ties `inact_find` and `inact_remove` to a scan position.
pub proof fn lemma_inact_find_at(s: Seq<InactiveEntry>, a: Address, i: int)
    requires
        0 <= i < s.len(),
        s[i].0 == a,
        forall|j: int| 0 <= j < i ==> s[j].0 != a,
    ensures
        inact_find(s, a) == Some(s[i].1),
        inact_remove(s, a) == s.remove(i),
    decreases s.len(),
{
    if i == 0 {
        assert(s.drop_first() =~= s.remove(0));
    } else {
        let d = s.drop_first();
        lemma_inact_find_at(d, a, i - 1);
        assert(inact_remove(s, a) == seq![s[0]] + d.remove(i - 1));
        assert(seq![s[0]] + d.remove(i - 1) =~= s.remove(i));
    }
}

/// If no row has address `a`, the find fails.
pub proof fn lemma_inact_find_none(s: Seq<InactiveEntry>, a: Address)
    requires
        forall|j: int| 0 <= j < s.len() ==> s[j].0 != a,
    ensures
        inact_find(s, a) == None::<InactiveStake>,
    decreases s.len(),
{
    if s.len() > 0 {
        lemma_inact_find_none(s.drop_first(), a);
    }
}

/// Ties `inact_insert` to a scan position.
pub proof fn lemma_inact_insert_at(s: Seq<InactiveEntry>, e: InactiveEntry, i: int)
    requires
        0 <= i <= s.len(),
        forall|j: int| 0 <= j < i ==> !addr_lt(e.0, #[trigger] s[j].0),
        i < s.len() ==> addr_lt(e.0, s[i].0),
    ensures
        inact_insert(s, e) == s.insert(i, e),
    decreases s.len(),
{
    if s.len() == 0 {
        assert(inact_insert(s, e) =~= s.insert(0, e));
    } else if i == 0 {
        assert(inact_insert(s, e) == seq![e] + s);
        assert(seq![e] + s =~= s.insert(0, e));
    } else {
        let d = s.drop_first();
        lemma_inact_insert_at(d, e, i - 1);
        assert(inact_insert(s, e) == seq![s[0]] + d.insert(i - 1, e));
        assert(seq![s[0]] + d.insert(i - 1, e) =~= s.insert(i, e));
    }
}

/// Every row has a positive balance.
pub open spec fn inact_ok(s: Seq<InactiveEntry>) -> bool {
    forall|i: int| 0 <= i < s.len() ==> #[trigger] s[i].1.balance > 0
}

/// Inserting a positive-balance row keeps the table well-formed.
pub proof fn lemma_inact_insert_ok(s: Seq<InactiveEntry>, e: InactiveEntry)
    requires
        inact_sorted(s),
        !inact_has(s, e.0),
        inact_ok(s),
        e.1.balance > 0,
    ensures
        inact_ok(inact_insert(s, e)),
{
    lemma_inact_insert_props(s, e);
    let r = inact_insert(s, e);
    assert forall|i: int| 0 <= i < r.len() implies #[trigger] r[i].1.balance > 0 by {
        if r[i] != e {
            let m = choose|m: int| 0 <= m < s.len() && s[m] == r[i];
        }
    }
}

/// Removal keeps the table well-formed.
pub proof fn lemma_inact_remove_ok(s: Seq<InactiveEntry>, a: Address)
    requires
        inact_sorted(s),
        inact_ok(s),
    ensures
        inact_ok(inact_remove(s, a)),
{
    lemma_inact_remove_props(s, a);
    let r = inact_remove(s, a);
    assert forall|i: int| 0 <= i < r.len() implies #[trigger] r[i].1.balance > 0 by {
        let m = choose|m: int| 0 <= m < s.len() && s[m] == r[i];
    }
}

/// Balance sums are non-negative, and any held row's balance is bounded by
/// the sum.
pub proof fn lemma_inact_sum_bounds(s: Seq<InactiveEntry>, a: Address)
    ensures
        inact_sum(s) >= 0,
        inact_has(s, a) ==> inact_find(s, a)->Some_0.balance <= inact_sum(s),
    decreases s.len(),
{
    if s.len() > 0 {
        lemma_inact_sum_bounds(s.drop_first(), a);
    }
}

// ---------------------------------------------------------------------------
// Parking sets: addresses, strictly ordered ascending.
// ---------------------------------------------------------------------------

/// The sequence is strictly sorted ascending (which also makes it a set).
pub open spec fn addrs_sorted(s: Seq<Address>) -> bool {
    forall|i: int, j: int|
        #![trigger s[i], s[j]]
        0 <= i < j < s.len() ==> addr_lt(s[i], s[j])
}

/// Whether the set holds `a`.
pub open spec fn addrs_has(s: Seq<Address>, a: Address) -> bool
    decreases s.len(),
{
    if s.len() == 0 {
        false
    } else if s[0] == a {
        true
    } else {
        addrs_has(s.drop_first(), a)
    }
}

/// The set without `a` (unchanged if absent).
pub open spec fn addrs_remove(s: Seq<Address>, a: Address) -> Seq<Address>
    decreases s.len(),
{
    if s.len() == 0 {
        s
    } else if s[0] == a {
        s.drop_first()
    } else {
        seq![s[0]] + addrs_remove(s.drop_first(), a)
    }
}

/// The set with `a` inserted at its sorted position.
pub open spec fn addrs_insert(s: Seq<Address>, a: Address) -> Seq<Address>
    decreases s.len(),
{
    if s.len() == 0 {
        seq![a]
    } else if addr_lt(a, s[0]) {
        seq![a] + s
    } else {
        seq![s[0]] + addrs_insert(s.drop_first(), a)
    }
}

/// What `addrs_insert` does to a sorted set without the new address.
pub proof fn lemma_addrs_insert_props(s: Seq<Address>, a: Address)
    requires
        addrs_sorted(s),
        !addrs_has(s, a),
    ensures
        addrs_sorted(addrs_insert(s, a)),
        addrs_insert(s, a).len() == s.len() + 1,
        forall|b: Address| #[trigger]
            addrs_has(addrs_insert(s, a), b) == (b == a || addrs_has(s, b)),
    decreases s.len(),
{
    let r = addrs_insert(s, a);
    if s.len() == 0 {
        assert(r =~= seq![a]);
        assert forall|b: Address| #[trigger]
            addrs_has(r, b) == (b == a || addrs_has(s, b)) by {
            if b != a {
                assert(addrs_has(r, b) == addrs_has(r.drop_first(), b));
                assert(r.drop_first() =~= s);
            }
        }
    } else if addr_lt(a, s[0]) {
        assert(r == seq![a] + s);
        assert(r.drop_first() =~= s);
        assert(r[0] == a);
        assert forall|i: int, j: int| 0 <= i < j < r.len() implies addr_lt(r[i], r[j]) by {
            if i == 0 && j > 1 {
                assert(addr_lt(s[0], s[j - 1]));
            }
        }
    } else {
        let d = s.drop_first();
        assert(s[0] != a);
        lemma_addrs_insert_props(d, a);
        let r1 = addrs_insert(d, a);
        assert(r == seq![s[0]] + r1);
        assert(r[0] == s[0]);
        assert(r.drop_first() =~= r1);
        assert(addr_lt(s[0], a));
        assert forall|i: int, j: int| 0 <= i < j < r.len() implies addr_lt(r[i], r[j]) by {
            if i == 0 {
                let x = r1[j - 1];
                assert(addrs_has(r1, x)) by {
                    lemma_addrs_has_index(r1, j - 1);
                }
                if x != a {
                    lemma_addrs_has_to_index(d, x);
                    let m = choose|m: int| 0 <= m < d.len() && d[m] == x;
                    assert(s[m + 1] == x);
                }
            } else {
                assert(addr_lt(r1[i - 1], r1[j - 1]));
            }
        }
        assert forall|b: Address| #[trigger]
            addrs_has(r, b) == (b == a || addrs_has(s, b)) by {
            if b == s[0] {
            } else {
                assert(addrs_has(r, b) == addrs_has(r1, b));
                assert(addrs_has(s, b) == addrs_has(d, b));
            }
        }
    }
}

/// What `addrs_remove` does to a sorted set.
pub proof fn lemma_addrs_remove_props(s: Seq<Address>, a: Address)
    requires
        addrs_sorted(s),
    ensures
        addrs_sorted(addrs_remove(s, a)),
        addrs_has(s, a) ==> addrs_remove(s, a).len() == s.len() - 1,
        !addrs_has(s, a) ==> addrs_remove(s, a) == s,
        forall|b: Address| #[trigger]
            addrs_has(addrs_remove(s, a), b) == (b != a && addrs_has(s, b)),
    decreases s.len(),
{
    let r = addrs_remove(s, a);
    if s.len() == 0 {
        assert(r =~= s);
    } else if s[0] == a {
        let d = s.drop_first();
        assert(r == d);
        assert forall|b: Address| #[trigger]
            addrs_has(r, b) == (b != a && addrs_has(s, b)) by {
            if b == a {
                if addrs_has(d, b) {
                    lemma_addrs_has_to_index(d, b);
                    let m = choose|m: int| 0 <= m < d.len() && d[m] == b;
                    assert(addr_lt(s[0], s[m + 1]));
                    assert(false);
                }
            }
        }
    } else {
        let d = s.drop_first();
        lemma_addrs_remove_props(d, a);
        let r1 = addrs_remove(d, a);
        assert(r == seq![s[0]] + r1);
        assert(r[0] == s[0]);
        assert(r.drop_first() =~= r1);
        if !addrs_has(s, a) {
            assert(r =~= s);
        }
        assert forall|i: int, j: int| 0 <= i < j < r.len() implies addr_lt(r[i], r[j]) by {
            if i == 0 {
                let x = r1[j - 1];
                assert(addrs_has(r1, x)) by {
                    lemma_addrs_has_index(r1, j - 1);
                }
                assert(addrs_has(d, x));
                lemma_addrs_has_to_index(d, x);
                let m = choose|m: int| 0 <= m < d.len() && d[m] == x;
                assert(s[m + 1] == x);
            } else {
                assert(addr_lt(r1[i - 1], r1[j - 1]));
            }
        }
        assert forall|b: Address| #[trigger]
            addrs_has(r, b) == (b != a && addrs_has(s, b)) by {
            if b != s[0] {
                assert(addrs_has(r, b) == addrs_has(r1, b));
                assert(addrs_has(s, b) == addrs_has(d, b));
            }
        }
    }
}

/// An element of the sequence is in the set.
pub proof fn lemma_addrs_has_index(s: Seq<Address>, i: int)
    requires
        0 <= i < s.len(),
    ensures
        addrs_has(s, s[i]),
    decreases s.len(),
{
    if i > 0 {
        lemma_addrs_has_index(s.drop_first(), i - 1);
        assert(s.drop_first()[i - 1] == s[i]);
    }
}

/// A member of the set sits at some index.
pub proof fn lemma_addrs_has_to_index(s: Seq<Address>, a: Address)
    requires
        addrs_has(s, a),
    ensures
        exists|i: int| 0 <= i < s.len() && s[i] == a,
    decreases s.len(),
{
    if s[0] == a {
        assert(s[0] == a);
    } else {
        lemma_addrs_has_to_index(s.drop_first(), a);
        let m = choose|m: int| 0 <= m < s.drop_first().len() && s.drop_first()[m] == a;
        assert(s[m + 1] == a);
    }
}

/// Removing a freshly inserted address restores the set exactly.
pub proof fn lemma_addrs_remove_insert(s: Seq<Address>, a: Address)
    requires
        addrs_sorted(s),
        !addrs_has(s, a),
    ensures
        addrs_remove(addrs_insert(s, a), a) == s,
    decreases s.len(),
{
    let r = addrs_insert(s, a);
    if s.len() == 0 {
        assert(r == seq![a]);
        assert(r.drop_first() =~= s);
    } else if addr_lt(a, s[0]) {
        assert(r == seq![a] + s);
        assert(r.drop_first() =~= s);
    } else {
        let d = s.drop_first();
        lemma_addrs_remove_insert(d, a);
        let r1 = addrs_insert(d, a);
        assert(r == seq![s[0]] + r1);
        assert(r[0] == s[0]);
        assert(r.drop_first() =~= r1);
        assert(s[0] != a);
        assert(addrs_remove(r, a) == seq![s[0]] + addrs_remove(r1, a));
        assert(seq![s[0]] + d =~= s);
    }
}

/// Re-inserting a removed address restores the set exactly.
pub proof fn lemma_addrs_insert_remove(s: Seq<Address>, a: Address)
    requires
        addrs_sorted(s),
        addrs_has(s, a),
    ensures
        addrs_insert(addrs_remove(s, a), a) == s,
    decreases s.len(),
{
    let r = addrs_remove(s, a);
    if s[0] == a {
        assert(r == s.drop_first());
        if r.len() == 0 {
            assert(addrs_insert(r, a) =~= seq![a]);
            assert(seq![a] =~= s);
        } else {
            assert(r[0] == s[1]);
            assert(addr_lt(a, r[0]));
            assert(addrs_insert(r, a) == seq![a] + r);
            assert(seq![a] + r =~= s);
        }
    } else {
        let d = s.drop_first();
        lemma_addrs_insert_remove(d, a);
        let r1 = addrs_remove(d, a);
        assert(r == seq![s[0]] + r1);
        assert(r[0] == s[0]);
        assert(r.drop_first() =~= r1);
        lemma_addrs_has_to_index(s, a);
        let m = choose|m: int| 0 <= m < s.len() && s[m] == a;
        assert(m > 0);
        assert(addr_lt(s[0], a));
        assert(!addr_lt(a, s[0]));
        assert(addrs_insert(r, a) == seq![s[0]] + addrs_insert(r1, a));
        assert(seq![s[0]] + d =~= s);
    }
}

/// Ties `addrs_has` and `addrs_remove` to a scan position.
pub proof fn lemma_addrs_at(s: Seq<Address>, a: Address, i: int)
    requires
        0 <= i < s.len(),
        s[i] == a,
        forall|j: int| 0 <= j < i ==> s[j] != a,
    ensures
        addrs_has(s, a),
        addrs_remove(s, a) == s.remove(i),
    decreases s.len(),
{
    if i == 0 {
        assert(s.drop_first() =~= s.remove(0));
    } else {
        let d = s.drop_first();
        lemma_addrs_at(d, a, i - 1);
        assert(addrs_remove(s, a) == seq![s[0]] + d.remove(i - 1));
        assert(seq![s[0]] + d.remove(i - 1) =~= s.remove(i));
    }
}

/// If `a` is at no index, it is not in the set.
pub proof fn lemma_addrs_none(s: Seq<Address>, a: Address)
    requires
        forall|j: int| 0 <= j < s.len() ==> s[j] != a,
    ensures
        !addrs_has(s, a),
    decreases s.len(),
{
    if s.len() > 0 {
        lemma_addrs_none(s.drop_first(), a);
    }
}

/// Ties `addrs_insert` to a scan position.
pub proof fn lemma_addrs_insert_at(s: Seq<Address>, a: Address, i: int)
    requires
        0 <= i <= s.len(),
        forall|j: int| 0 <= j < i ==> !addr_lt(a, #[trigger] s[j]),
        i < s.len() ==> addr_lt(a, s[i]),
    ensures
        addrs_insert(s, a) == s.insert(i, a),
    decreases s.len(),
{
    if s.len() == 0 {
        assert(addrs_insert(s, a) =~= s.insert(0, a));
    } else if i == 0 {
        assert(addrs_insert(s, a) == seq![a] + s);
        assert(seq![a] + s =~= s.insert(0, a));
    } else {
        let d = s.drop_first();
        lemma_addrs_insert_at(d, a, i - 1);
        assert(addrs_insert(s, a) == seq![s[0]] + d.insert(i - 1, a));
        assert(seq![s[0]] + d.insert(i - 1, a) =~= s.insert(i, a));
    }
}

} // verus!

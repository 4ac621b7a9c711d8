//! The per-swap fee ledger: owner identifiers mapped to accumulated fee
//! values, kept in first-appearance order so that identical inputs always
//! produce identical ledgers.

use vstd::prelude::*;

verus! {

/// One owner's accumulated fee value.
#[derive(Clone, Debug)]
pub struct FeeEntry {
    /// Identifier of the owner.
    pub owner: String,
    /// Accumulated fee, scaled by `AMOUNT_SCALE`.
    pub amount: u128,
}

/// Fee values by owner, in first-appearance order.
#[derive(Clone, Debug)]
pub struct FeeLedger {
    /// The entries; owners are pairwise distinct.
    pub entries: Vec<FeeEntry>,
}

/// Addition that stops at the largest representable value.
pub open spec fn spec_sat_add(a: int, b: int) -> int {
    if a + b > u128::MAX {
        u128::MAX as int
    } else {
        a + b
    }
}

/// Index of the first entry with the given owner, or -1.
pub open spec fn spec_ledger_find(s: Seq<(Seq<char>, int)>, o: Seq<char>) -> int
    decreases s.len(),
{
    if s.len() == 0 {
        -1
    } else if s[0].0 == o {
        0
    } else {
        let r = spec_ledger_find(s.skip(1), o);
        if r < 0 {
            -1
        } else {
            r + 1
        }
    }
}

/// Add `amt` to the owner's entry, creating it at the end if absent.
pub open spec fn spec_ledger_add(s: Seq<(Seq<char>, int)>, o: Seq<char>, amt: int) -> Seq<
    (Seq<char>, int),
> {
    let k = spec_ledger_find(s, o);
    if k < 0 {
        s.push((o, amt))
    } else {
        s.update(k, (s[k].0, spec_sat_add(s[k].1, amt)))
    }
}

/// Sum of all entries.
pub open spec fn spec_ledger_total(s: Seq<(Seq<char>, int)>) -> int
    decreases s.len(),
{
    if s.len() == 0 {
        0
    } else {
        s[0].1 + spec_ledger_total(s.skip(1))
    }
}

/// Appending an entry adds its amount to the total.
proof fn lemma_total_push(s: Seq<(Seq<char>, int)>, e: (Seq<char>, int))
    ensures
        spec_ledger_total(s.push(e)) == spec_ledger_total(s) + e.1,
    decreases s.len(),
{
    if s.len() == 0 {
        assert(s.push(e).skip(1) =~= Seq::<(Seq<char>, int)>::empty());
        assert(s.push(e)[0] == e);
        assert(s.push(e).len() == 1);
        assert(spec_ledger_total(s.push(e)) == e.1 + spec_ledger_total(s.push(e).skip(1)));
        assert(spec_ledger_total(Seq::<(Seq<char>, int)>::empty()) == 0);
        assert(spec_ledger_total(s) == 0);
    } else {
        lemma_total_push(s.skip(1), e);
        assert(s.push(e).skip(1) =~= s.skip(1).push(e));
        assert(s.push(e)[0] == s[0]);
    }
}

/// Replacing an entry changes the total by the difference.
proof fn lemma_total_update(s: Seq<(Seq<char>, int)>, k: int, e: (Seq<char>, int))
    requires
        0 <= k < s.len(),
    ensures
        spec_ledger_total(s.update(k, e)) == spec_ledger_total(s) - s[k].1 + e.1,
    decreases k,
{
    if k == 0 {
        assert(s.update(0, e).skip(1) =~= s.skip(1));
        assert(s.update(0, e)[0] == e);
    } else {
        lemma_total_update(s.skip(1), k - 1, e);
        assert(s.update(k, e).skip(1) =~= s.skip(1).update(k - 1, e));
        assert(s.update(k, e)[0] == s[0]);
        assert(s.skip(1)[k - 1] == s[k]);
    }
}

/// With nonnegative entries, each entry is at most the total.
proof fn lemma_entry_le_total(s: Seq<(Seq<char>, int)>, k: int)
    requires
        0 <= k < s.len(),
        forall|i: int| 0 <= i < s.len() ==> (#[trigger] s[i]).1 >= 0,
    ensures
        s[k].1 <= spec_ledger_total(s),
        spec_ledger_total(s) >= 0,
    decreases k,
{
    lemma_total_nonneg(s.skip(1));
    if k > 0 {
        lemma_entry_le_total(s.skip(1), k - 1);
        assert(s.skip(1)[k - 1] == s[k]);
    }
}

/// With nonnegative entries, the total is nonnegative.
pub proof fn lemma_total_nonneg(s: Seq<(Seq<char>, int)>)
    requires
        forall|i: int| 0 <= i < s.len() ==> (#[trigger] s[i]).1 >= 0,
    ensures
        spec_ledger_total(s) >= 0,
    decreases s.len(),
{
    if s.len() > 0 {
        assert(forall|i: int|
            0 <= i < s.skip(1).len() ==> (#[trigger] s.skip(1)[i]).1 >= 0);
        lemma_total_nonneg(s.skip(1));
    }
}

/// Adding to a ledger of nonnegative entries, with headroom for the
/// addition, grows the total by exactly the amount added, and keeps every
/// entry nonnegative.
pub proof fn lemma_ledger_total_add(s: Seq<(Seq<char>, int)>, o: Seq<char>, amt: int)
    requires
        0 <= amt,
        forall|i: int| 0 <= i < s.len() ==> (#[trigger] s[i]).1 >= 0,
        spec_ledger_total(s) + amt <= u128::MAX,
    ensures
        spec_ledger_total(spec_ledger_add(s, o, amt)) == spec_ledger_total(s) + amt,
        forall|i: int|
            0 <= i < spec_ledger_add(s, o, amt).len() ==> (#[trigger] spec_ledger_add(
                s,
                o,
                amt,
            )[i]).1 >= 0,
{
    let k = spec_ledger_find(s, o);
    lemma_find_in_range(s, o);
    if k < 0 {
        lemma_total_push(s, (o, amt));
    } else {
        lemma_entry_le_total(s, k);
        lemma_total_update(s, k, (s[k].0, spec_sat_add(s[k].1, amt)));
    }
}

/// A found index lies inside the ledger.
proof fn lemma_find_in_range(s: Seq<(Seq<char>, int)>, o: Seq<char>)
    ensures
        spec_ledger_find(s, o) < s.len(),
    decreases s.len(),
{
    if s.len() > 0 && s[0].0 != o {
        lemma_find_in_range(s.skip(1), o);
    }
}

/// The first match is at `i` if nothing before `i` matches.
proof fn lemma_ledger_find_at(s: Seq<(Seq<char>, int)>, o: Seq<char>, i: int)
    requires
        0 <= i <= s.len(),
        forall|j: int| 0 <= j < i ==> s[j].0 != o,
        i < s.len() ==> s[i].0 == o,
    ensures
        i < s.len() ==> spec_ledger_find(s, o) == i,
        i == s.len() ==> spec_ledger_find(s, o) == -1,
    decreases i,
{
    if s.len() == 0 {
    } else if i == 0 {
    } else {
        assert(s[0].0 != o);
        lemma_ledger_find_at(s.skip(1), o, i - 1);
    }
}

impl FeeLedger {
    /// View of the ledger: owner character sequences with their amounts.
    pub open spec fn view_seq(&self) -> Seq<(Seq<char>, int)> {
        Seq::new(
            self.entries.len() as nat,
            |i: int| (self.entries[i].owner@, self.entries[i].amount as int),
        )
    }

    /// The empty ledger.
    pub fn new() -> (r: FeeLedger)
        ensures
            r.view_seq() == Seq::<(Seq<char>, int)>::empty(),
    {
        let r = FeeLedger { entries: Vec::new() };
        proof {
            assert(r.view_seq() =~= Seq::<(Seq<char>, int)>::empty());
        }
        r
    }

    /// Add `amt` to `owner`'s entry, creating it at the end if absent;
    /// the amount saturates rather than overflow.
    pub fn add(&mut self, owner: &String, amt: u128)
        ensures
            final(self).view_seq() == spec_ledger_add(old(self).view_seq(), owner@, amt as int),
    {
        let ghost s0 = self.view_seq();
        let mut i: usize = 0;
        while i < self.entries.len()
            invariant
                0 <= i <= self.entries.len(),
                self.view_seq() == s0,
                s0 == old(self).view_seq(),
                forall|j: int| 0 <= j < i ==> s0[j].0 != owner@,
            decreases self.entries.len() - i,
        {
            if self.entries[i].owner == *owner {
                proof {
                    lemma_ledger_find_at(s0, owner@, i as int);
                }
                let cur: u128 = self.entries[i].amount;
                let updated: u128 = if amt > u128::MAX - cur {
                    u128::MAX
                } else {
                    cur + amt
                };
                let owner_copy: String = self.entries[i].owner.clone();
                self.entries.set(i, FeeEntry { owner: owner_copy, amount: updated });
                proof {
                    assert(self.view_seq() =~~= spec_ledger_add(s0, owner@, amt as int));
                }
                return ;
            }
            i = i + 1;
        }
        proof {
            lemma_ledger_find_at(s0, owner@, self.entries.len() as int);
        }
        self.entries.push(FeeEntry { owner: owner.clone(), amount: amt });
        proof {
            assert(self.view_seq() =~~= spec_ledger_add(s0, owner@, amt as int));
        }
    }

    /// The amount recorded for an owner, if any.
    pub fn get(&self, owner: &String) -> (r: Option<u128>)
        ensures
            spec_ledger_find(self.view_seq(), owner@) < 0 ==> r is None,
            spec_ledger_find(self.view_seq(), owner@) >= 0 ==> r == Some(
                self.view_seq()[spec_ledger_find(self.view_seq(), owner@)].1 as u128,
            ),
    {
        let ghost s0 = self.view_seq();
        let mut i: usize = 0;
        while i < self.entries.len()
            invariant
                0 <= i <= self.entries.len(),
                s0 == self.view_seq(),
                s0.len() == self.entries.len(),
                forall|j: int| 0 <= j < i ==> s0[j].0 != owner@,
            decreases self.entries.len() - i,
        {
            if self.entries[i].owner == *owner {
                proof {
                    lemma_ledger_find_at(s0, owner@, i as int);
                }
                return Some(self.entries[i].amount);
            }
            i = i + 1;
        }
        proof {
            lemma_ledger_find_at(s0, owner@, self.entries.len() as int);
        }
        None
    }
}

} // verus!

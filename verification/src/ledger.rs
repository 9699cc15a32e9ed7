//! The balance ledger: a per-user, per-asset map of non-negative
//! amounts. Balances are unsigned, so no entry can ever be negative;
//! every operation that would otherwise drive a balance below zero is
//! rejected before any state changes.

use vstd::prelude::*;

verus! {

/// One (user, asset) balance.
#[derive(Debug)]
pub struct BalanceEntry {
    pub user: String,
    pub asset: String,
    pub amount: u128,
}

impl Clone for BalanceEntry {
    fn clone(&self) -> (r: Self)
        ensures
            r == *self,
    {
        BalanceEntry { user: self.user.clone(), asset: self.asset.clone(), amount: self.amount }
    }
}

/// The balance a sequence of entries gives to `(user, asset)`: the
/// amount of the first entry with that key, or zero when there is none.
pub open spec fn lookup(s: Seq<BalanceEntry>, user: Seq<char>, asset: Seq<char>) -> u128
    decreases s.len(),
{
    if s.len() == 0 {
        0
    } else if s[0].user@ == user && s[0].asset@ == asset {
        s[0].amount
    } else {
        lookup(s.drop_first(), user, asset)
    }
}

/// Whether the sequence holds an entry for `(user, asset)`.
pub open spec fn has_key(s: Seq<BalanceEntry>, user: Seq<char>, asset: Seq<char>) -> bool {
    exists|i: int| 0 <= i < s.len() && (#[trigger] s[i]).user@ == user && s[i].asset@ == asset
}

/// The set of users the entries mention.
pub open spec fn users_of(s: Seq<BalanceEntry>) -> Set<Seq<char>>
    decreases s.len(),
{
    if s.len() == 0 {
        Set::empty()
    } else {
        users_of(s.drop_last()).insert(s.last().user@)
    }
}

/// The per-user, per-asset balance map. Unknown keys hold zero.
pub struct Ledger {
    entries: Vec<BalanceEntry>,
}

impl View for Ledger {
    type V = Map<(Seq<char>, Seq<char>), u128>;

    closed spec fn view(&self) -> Map<(Seq<char>, Seq<char>), u128> {
        Map::new(
            |k: (Seq<char>, Seq<char>)| true,
            |k: (Seq<char>, Seq<char>)| lookup(self.entries@, k.0, k.1),
        )
    }
}

/// A balance map with `(user, asset)` raised by `amount`, saturating at
/// the largest representable amount.
pub open spec fn credited(
    m: Map<(Seq<char>, Seq<char>), u128>,
    user: Seq<char>,
    asset: Seq<char>,
    amount: u128,
) -> Map<(Seq<char>, Seq<char>), u128> {
    m.insert(
        (user, asset),
        if m[(user, asset)] + amount <= u128::MAX {
            (m[(user, asset)] + amount) as u128
        } else {
            u128::MAX
        },
    )
}

/// A balance map with `amount` taken from `(user, asset)` when the
/// balance covers it; the debit is rejected (nothing changes) when it
/// does not, so no balance ever goes below zero.
pub open spec fn debited(
    m: Map<(Seq<char>, Seq<char>), u128>,
    user: Seq<char>,
    asset: Seq<char>,
    amount: u128,
) -> Map<(Seq<char>, Seq<char>), u128> {
    m.insert(
        (user, asset),
        if m[(user, asset)] >= amount {
            (m[(user, asset)] - amount) as u128
        } else {
            m[(user, asset)]
        },
    )
}

/// The balance of a key is the amount of its first matching entry.
proof fn lemma_lookup_first(s: Seq<BalanceEntry>, i: int, user: Seq<char>, asset: Seq<char>)
    requires
        0 <= i < s.len(),
        s[i].user@ == user,
        s[i].asset@ == asset,
        forall|j: int| 0 <= j < i ==> !((#[trigger] s[j]).user@ == user && s[j].asset@ == asset),
    ensures
        lookup(s, user, asset) == s[i].amount,
    decreases i,
{
    if i > 0 {
        assert(forall|j: int| 0 <= j < i - 1 ==> s.drop_first()[j] == s[j + 1]);
        lemma_lookup_first(s.drop_first(), i - 1, user, asset);
    }
}

/// A key that no entry carries has balance zero.
proof fn lemma_lookup_absent(s: Seq<BalanceEntry>, user: Seq<char>, asset: Seq<char>)
    requires
        !has_key(s, user, asset),
    ensures
        lookup(s, user, asset) == 0,
    decreases s.len(),
{
    if s.len() > 0 {
        assert(forall|j: int| 0 <= j < s.drop_first().len() ==> s.drop_first()[j] == s[j + 1]);
        lemma_lookup_absent(s.drop_first(), user, asset);
    }
}

/// Replacing the entry at `i` with one under the same key leaves the
/// balance of every other key unchanged.
proof fn lemma_lookup_update_other(
    s: Seq<BalanceEntry>,
    i: int,
    e: BalanceEntry,
    u: Seq<char>,
    a: Seq<char>,
)
    requires
        0 <= i < s.len(),
        e.user@ == s[i].user@,
        e.asset@ == s[i].asset@,
        !(u == e.user@ && a == e.asset@),
    ensures
        lookup(s.update(i, e), u, a) == lookup(s, u, a),
    decreases i,
{
    if i == 0 {
        assert(s.update(0, e)[0] == e);
        assert(s.update(0, e).drop_first() =~= s.drop_first());
    } else {
        assert(s.update(i, e)[0] == s[0]);
        assert(s.update(i, e).drop_first() =~= s.drop_first().update(i - 1, e));
        assert(s.drop_first()[i - 1] == s[i]);
        lemma_lookup_update_other(s.drop_first(), i - 1, e, u, a);
    }
}

/// Replacing the first entry that matches a key sets that key's balance
/// to the new amount.
proof fn lemma_lookup_update_key(s: Seq<BalanceEntry>, i: int, e: BalanceEntry)
    requires
        0 <= i < s.len(),
        e.user@ == s[i].user@,
        e.asset@ == s[i].asset@,
        forall|j: int|
            0 <= j < i ==> !((#[trigger] s[j]).user@ == e.user@ && s[j].asset@ == e.asset@),
    ensures
        lookup(s.update(i, e), e.user@, e.asset@) == e.amount,
    decreases i,
{
    if i == 0 {
        assert(s.update(0, e)[0] == e);
    } else {
        assert(s.update(i, e)[0] == s[0]);
        assert(s.update(i, e).drop_first() =~= s.drop_first().update(i - 1, e));
        assert(forall|j: int| 0 <= j < i - 1 ==> s.drop_first()[j] == s[j + 1]);
        assert(s.drop_first()[i - 1] == s[i]);
        lemma_lookup_update_key(s.drop_first(), i - 1, e);
    }
}

/// Appending an entry leaves the balance of every other key unchanged.
proof fn lemma_lookup_push_other(s: Seq<BalanceEntry>, e: BalanceEntry, u: Seq<char>, a: Seq<char>)
    requires
        !(u == e.user@ && a == e.asset@),
    ensures
        lookup(s.push(e), u, a) == lookup(s, u, a),
    decreases s.len(),
{
    if s.len() == 0 {
        assert(s.push(e)[0] == e);
        assert(s.push(e).drop_first() =~= s);
    } else {
        assert(s.push(e)[0] == s[0]);
        assert(s.push(e).drop_first() =~= s.drop_first().push(e));
        lemma_lookup_push_other(s.drop_first(), e, u, a);
    }
}

/// Appending an entry whose key is not yet present sets that key's
/// balance to the entry's amount.
proof fn lemma_lookup_push_key(s: Seq<BalanceEntry>, e: BalanceEntry)
    requires
        !has_key(s, e.user@, e.asset@),
    ensures
        lookup(s.push(e), e.user@, e.asset@) == e.amount,
    decreases s.len(),
{
    if s.len() == 0 {
        assert(s.push(e)[0] == e);
    } else {
        assert(s.push(e)[0] == s[0]);
        assert(s.push(e).drop_first() =~= s.drop_first().push(e));
        assert(forall|j: int| 0 <= j < s.drop_first().len() ==> s.drop_first()[j] == s[j + 1]);
        assert(!has_key(s.drop_first(), e.user@, e.asset@));
        lemma_lookup_push_key(s.drop_first(), e);
    }
}

/// `users_of` is a finite set no larger than the entry count.
proof fn lemma_users_of_finite(s: Seq<BalanceEntry>)
    ensures
        users_of(s).finite(),
        users_of(s).len() <= s.len(),
    decreases s.len(),
{
    if s.len() > 0 {
        lemma_users_of_finite(s.drop_last());
        vstd::set::axiom_set_insert_len(users_of(s.drop_last()), s.last().user@);
    }
}

/// `users_of` contains exactly the users the entries name.
proof fn lemma_users_of_contains(s: Seq<BalanceEntry>, u: Seq<char>)
    ensures
        users_of(s).contains(u) <==> exists|k: int|
            0 <= k < s.len() && (#[trigger] s[k]).user@ == u,
    decreases s.len(),
{
    if s.len() > 0 {
        lemma_users_of_contains(s.drop_last(), u);
        if exists|k: int| 0 <= k < s.len() - 1 && (#[trigger] s.drop_last()[k]).user@ == u {
            let k = choose|k: int|
                0 <= k < s.len() - 1 && (#[trigger] s.drop_last()[k]).user@ == u;
            assert(s[k].user@ == u);
        }
        if s.last().user@ == u {
            assert(s[s.len() - 1].user@ == u);
        }
        if users_of(s).contains(u) && s.last().user@ != u {
            assert(users_of(s.drop_last()).contains(u));
        }
        if exists|k: int| 0 <= k < s.len() && (#[trigger] s[k]).user@ == u {
            let k = choose|k: int| 0 <= k < s.len() && (#[trigger] s[k]).user@ == u;
            if k < s.len() - 1 {
                assert(s.drop_last()[k].user@ == u);
            }
        }
    }
}

/// Updating an entry in place keeps the user set, provided the user is
/// unchanged.
proof fn lemma_users_of_update(s: Seq<BalanceEntry>, i: int, e: BalanceEntry)
    requires
        0 <= i < s.len(),
        e.user@ == s[i].user@,
    ensures
        users_of(s.update(i, e)) == users_of(s).insert(e.user@),
{
    let s2 = s.update(i, e);
    lemma_users_of_contains(s, e.user@);
    assert forall|u: Seq<char>| users_of(s2).contains(u) implies users_of(s).insert(
        e.user@,
    ).contains(u) by {
        lemma_users_of_contains(s2, u);
        let k = choose|k: int| 0 <= k < s2.len() && (#[trigger] s2[k]).user@ == u;
        if k != i {
            assert(s[k].user@ == u);
            lemma_users_of_contains(s, u);
        }
    };
    assert forall|u: Seq<char>| users_of(s).insert(e.user@).contains(u) implies users_of(
        s2,
    ).contains(u) by {
        lemma_users_of_contains(s2, u);
        if u == e.user@ {
            assert(s2[i].user@ == u);
        } else {
            lemma_users_of_contains(s, u);
            let k = choose|k: int| 0 <= k < s.len() && (#[trigger] s[k]).user@ == u;
            assert(s2[k].user@ == u);
        }
    };
    assert(users_of(s2) =~= users_of(s).insert(e.user@));
}

impl Ledger {
    pub fn new() -> (r: Ledger)
        ensures
            forall|k: (Seq<char>, Seq<char>)| r@[k] == 0,
            r.spec_entries() == Seq::<BalanceEntry>::empty(),
            users_of(r.spec_entries()) == Set::<Seq<char>>::empty(),
    {
        let r = Ledger { entries: Vec::new() };
        proof {
            assert(r.spec_entries() =~= Seq::<BalanceEntry>::empty());
        }
        r
    }

    pub closed spec fn spec_entries(&self) -> Seq<BalanceEntry> {
        self.entries@
    }

    /// How many entries the ledger holds; used only for statistics.
    pub fn entry_count(&self) -> (r: usize)
        ensures
            r == self.spec_entries().len(),
    {
        self.entries.len()
    }

    /// The balance of `(user, asset)`; zero for an unknown key.
    pub fn get(&self, user: &str, asset: &str) -> (r: u128)
        ensures
            r == self@[(user@, asset@)],
    {
        let n = self.entries.len();
        let mut i: usize = 0;
        while i < n
            invariant
                n == self.entries@.len(),
                0 <= i <= n,
                forall|j: int|
                    0 <= j < i ==> !((#[trigger] self.entries@[j]).user@ == user@
                        && self.entries@[j].asset@ == asset@),
            decreases n - i,
        {
            let e = &self.entries[i];
            if crate::text::str_eq(e.user.as_str(), user) && crate::text::str_eq(e.asset.as_str(), asset) {
                proof {
                    lemma_lookup_first(self.entries@, i as int, user@, asset@);
                }
                return e.amount;
            }
            i = i + 1;
        }
        proof {
            assert(!has_key(self.entries@, user@, asset@));
            lemma_lookup_absent(self.entries@, user@, asset@);
        }
        0
    }

    /// Sets the balance of `(user, asset)` to `amount`, leaving every
    /// other key untouched.
    pub fn set(&mut self, user: &str, asset: &str, amount: u128)
        ensures
            final(self)@ == old(self)@.insert((user@, asset@), amount),
            final(self).spec_entries().len() <= old(self).spec_entries().len() + 1,
            users_of(final(self).spec_entries()) == users_of(old(self).spec_entries()).insert(
                user@,
            ),
    {
        let ghost s0 = self.entries@;
        let n = self.entries.len();
        let mut i: usize = 0;
        while i < n
            invariant
                n == self.entries@.len(),
                0 <= i <= n,
                self.entries@ == s0,
                forall|j: int|
                    0 <= j < i ==> !((#[trigger] s0[j]).user@ == user@ && s0[j].asset@ == asset@),
            decreases n - i,
        {
            let found = crate::text::str_eq(self.entries[i].user.as_str(), user)
                && crate::text::str_eq(self.entries[i].asset.as_str(), asset);
            if found {
                let e = BalanceEntry {
                    user: self.entries[i].user.clone(),
                    asset: self.entries[i].asset.clone(),
                    amount,
                };
                proof {
                    lemma_lookup_update_key(s0, i as int, e);
                    assert forall|u: Seq<char>, a: Seq<char>|
                        !(u == user@ && a == asset@) implies lookup(s0.update(i as int, e), u, a)
                        == lookup(s0, u, a) by {
                        lemma_lookup_update_other(s0, i as int, e, u, a);
                    };
                    lemma_users_of_update(s0, i as int, e);
                }
                self.entries[i] = e;
                proof {
                    assert(self@ =~= old(self)@.insert((user@, asset@), amount));
                }
                return ;
            }
            i = i + 1;
        }
        let e = BalanceEntry { user: user.to_owned(), asset: asset.to_owned(), amount };
        proof {
            assert(!has_key(s0, user@, asset@));
            lemma_lookup_push_key(s0, e);
            assert forall|u: Seq<char>, a: Seq<char>|
                !(u == user@ && a == asset@) implies lookup(s0.push(e), u, a) == lookup(
                s0,
                u,
                a,
            ) by {
                lemma_lookup_push_other(s0, e, u, a);
            };
        }
        self.entries.push(e);
        proof {
            assert(self@ =~= old(self)@.insert((user@, asset@), amount));
            assert(self.entries@.drop_last() =~= s0);
        }
    }

    /// Adds `amount` to the balance of `(user, asset)`, saturating at the
    /// largest representable amount.
    pub fn credit(&mut self, user: &str, asset: &str, amount: u128)
        ensures
            final(self)@ == credited(old(self)@, user@, asset@, amount),
            users_of(final(self).spec_entries()) == users_of(old(self).spec_entries()).insert(
                user@,
            ),
    {
        let current = self.get(user, asset);
        let updated = if current <= u128::MAX - amount {
            current + amount
        } else {
            u128::MAX
        };
        self.set(user, asset, updated);
    }

    /// Takes `amount` from the balance of `(user, asset)` when the balance
    /// covers it; rejects the debit (changing nothing) when it does not,
    /// so no balance can ever go below zero.
    pub fn debit(&mut self, user: &str, asset: &str, amount: u128)
        ensures
            final(self)@ == debited(old(self)@, user@, asset@, amount),
            users_of(final(self).spec_entries()) == users_of(old(self).spec_entries()).insert(
                user@,
            ),
    {
        let current = self.get(user, asset);
        let updated = if current >= amount {
            current - amount
        } else {
            current
        };
        self.set(user, asset, updated);
    }

    /// The number of distinct users the ledger has entries for.
    pub fn user_count(&self) -> (r: usize)
        ensures
            r == users_of(self.spec_entries()).len(),
    {
        let n = self.entries.len();
        let mut count: usize = 0;
        let mut i: usize = 0;
        proof {
            assert(self.entries@.subrange(0, 0) =~= Seq::<BalanceEntry>::empty());
        }
        while i < n
            invariant
                n == self.entries@.len(),
                0 <= i <= n,
                users_of(self.entries@.subrange(0, i as int)).finite(),
                count == users_of(self.entries@.subrange(0, i as int)).len(),
                count <= i,
            decreases n - i,
        {
            let ghost prefix = self.entries@.subrange(0, i as int);
            let mut seen = false;
            let mut j: usize = 0;
            while j < i
                invariant
                    n == self.entries@.len(),
                    0 <= j <= i < n,
                    seen == exists|k: int|
                        0 <= k < j && (#[trigger] self.entries@[k]).user@
                            == self.entries@[i as int].user@,
                decreases i - j,
            {
                if crate::text::str_eq(self.entries[j].user.as_str(), self.entries[i].user.as_str()) {
                    seen = true;
                    proof {
                        assert(self.entries@[j as int].user@ == self.entries@[i as int].user@);
                    }
                }
                j = j + 1;
            }
            let ghost u = self.entries@[i as int].user@;
            proof {
                lemma_users_of_contains(prefix, u);
                assert(forall|k: int| 0 <= k < i ==> prefix[k] == self.entries@[k]);
                if seen {
                    let k = choose|k: int|
                        0 <= k < i && (#[trigger] self.entries@[k]).user@ == u;
                    assert(prefix[k].user@ == u);
                    assert(users_of(prefix).contains(u));
                } else if users_of(prefix).contains(u) {
                    let k = choose|k: int|
                        0 <= k < prefix.len() && (#[trigger] prefix[k]).user@ == u;
                    assert(self.entries@[k].user@ == u);
                    assert(false);
                }
                assert(self.entries@.subrange(0, i as int + 1).drop_last() =~= prefix);
                assert(self.entries@.subrange(0, i as int + 1).last() == self.entries@[i as int]);
                lemma_users_of_finite(prefix);
                vstd::set::axiom_set_insert_len(users_of(prefix), u);
            }
            if !seen {
                count = count + 1;
            }
            i = i + 1;
        }
        proof {
            assert(self.entries@.subrange(0, n as int) =~= self.entries@);
        }
        count
    }
}

} // verus!

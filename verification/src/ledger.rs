//! The fungible-balance ledger the control plane moves funds through.
//!
//! Balances live in a table of accounts; the view is the total map from
//! identity bytes to balance, zero for absent accounts.  The ledger tracks
//! its total issuance, every balance is bounded by it, and a transfer
//! either keeps the source alive (the remainder stays at or above the
//! minimum balance) or may remove it, burning any sub-minimum remainder.

use vstd::prelude::*;

use crate::account::{account_eq, clone_account, AccountId};
use crate::table::{distinct_keys, lemma_map_of_contains, lemma_map_of_index, map_of};

verus! {

/// Why a ledger operation was refused.
#[derive(Clone, Copy, Debug, PartialEq, Eq, Structural)]
pub enum LedgerError {
    /// The source holds less than the amount.
    InsufficientFunds,
    /// A keep-alive transfer would push the source below the minimum.
    WouldKillSource,
    /// Issuing would push the total issuance past its bound.
    IssuanceOverflow,
}

/// The sum of the balances in a sequence of entries.
pub open spec fn sum_of(s: Seq<(AccountId, u128)>) -> int
    decreases s.len(),
{
    if s.len() == 0 {
        0
    } else {
        sum_of(s.drop_last()) + s.last().1
    }
}

/// The sum of balances is never negative.
pub proof fn lemma_sum_nonneg(s: Seq<(AccountId, u128)>)
    ensures
        sum_of(s) >= 0,
    decreases s.len(),
{
    if s.len() > 0 {
        lemma_sum_nonneg(s.drop_last());
    }
}

/// Replacing entry `i` shifts the sum by the difference of the balances.
pub proof fn lemma_sum_update(s: Seq<(AccountId, u128)>, i: int, p: (AccountId, u128))
    ensures
        0 <= i < s.len() ==> sum_of(s.update(i, p)) == sum_of(s) - s[i].1 + p.1,
    decreases s.len(),
{
    if s.len() > 0 && 0 <= i < s.len() {
        let t = s.update(i, p);
        if i == s.len() - 1 {
            assert(t.drop_last() =~= s.drop_last());
        } else {
            lemma_sum_update(s.drop_last(), i, p);
            assert(t.drop_last() =~= s.drop_last().update(i, p));
            assert(t.last() == s.last());
        }
    }
}

/// Removing entry `i` takes its balance out of the sum.
pub proof fn lemma_sum_remove(s: Seq<(AccountId, u128)>, i: int)
    ensures
        0 <= i < s.len() ==> sum_of(s.remove(i)) == sum_of(s) - s[i].1,
    decreases s.len(),
{
    if s.len() > 0 && 0 <= i < s.len() {
        let t = s.remove(i);
        if i == s.len() - 1 {
            assert(t =~= s.drop_last());
        } else {
            lemma_sum_remove(s.drop_last(), i);
            assert(t.drop_last() =~= s.drop_last().remove(i));
            assert(t.last() == s.last());
        }
    }
}

/// One balance never exceeds the sum.
pub proof fn lemma_sum_entry(s: Seq<(AccountId, u128)>, i: int)
    requires
        0 <= i < s.len(),
    ensures
        s[i].1 <= sum_of(s),
{
    lemma_sum_remove(s, i);
    lemma_sum_nonneg(s.remove(i));
}

/// Two distinct balances never exceed the sum together.
pub proof fn lemma_sum_two(s: Seq<(AccountId, u128)>, i: int, j: int)
    requires
        0 <= i < s.len(),
        0 <= j < s.len(),
        i != j,
    ensures
        s[i].1 + s[j].1 <= sum_of(s),
{
    lemma_sum_remove(s, i);
    let t = s.remove(i);
    let j2: int = if j < i {
        j
    } else {
        j - 1
    };
    assert(t[j2] == s[j]);
    lemma_sum_entry(t, j2);
}

/// A destination balance plus an admissible amount stays within bounds,
/// because both balances are covered by the sum.
proof fn lemma_transfer_no_overflow(
    s: Seq<(AccountId, u128)>,
    from: Seq<u8>,
    to: Seq<u8>,
    bf: u128,
    bt: u128,
    amount: u128,
)
    requires
        distinct_keys(s),
        sum_of(s) <= u128::MAX,
        from != to,
        bf == if map_of(s).contains_key(from) {
            map_of(s)[from]
        } else {
            0u128
        },
        bt == if map_of(s).contains_key(to) {
            map_of(s)[to]
        } else {
            0u128
        },
        amount <= bf,
    ensures
        bt + amount <= u128::MAX,
{
    lemma_map_of_contains(s, from);
    lemma_map_of_contains(s, to);
    if map_of(s).contains_key(to) && map_of(s).contains_key(from) {
        let i = choose|i: int| 0 <= i < s.len() && s[i].0@ == from;
        let j = choose|j: int| 0 <= j < s.len() && s[j].0@ == to;
        lemma_map_of_index(s, i);
        lemma_map_of_index(s, j);
        lemma_sum_two(s, i, j);
    }
}

/// The ledger's mathematical state.
#[verifier::ext_equal]
pub ghost struct LedgerView {
    /// Balance per identity, zero where no account exists.
    pub balances: Map<Seq<u8>, u128>,
    /// The minimum balance an account must keep to stay alive.
    pub minimum: u128,
    /// The total issuance: the sum of all balances.
    pub issued: u128,
}

/// Whether a transfer of `amount` from `from` to `to` is admissible.
pub open spec fn can_transfer(
    b: Map<Seq<u8>, u128>,
    min: u128,
    from: Seq<u8>,
    to: Seq<u8>,
    amount: u128,
    keep_alive: bool,
) -> bool {
    &&& amount <= b[from]
    &&& (keep_alive && from != to ==> b[from] - amount >= min)
}

/// What an allow-removal transfer burns: a sub-minimum remainder.
pub open spec fn transfer_dust(
    b: Map<Seq<u8>, u128>,
    min: u128,
    from: Seq<u8>,
    to: Seq<u8>,
    amount: u128,
    keep_alive: bool,
) -> u128 {
    if from != to && !keep_alive && b[from] - amount < min {
        (b[from] - amount) as u128
    } else {
        0
    }
}

/// The balances after an admissible transfer.
pub open spec fn transfer_map(
    b: Map<Seq<u8>, u128>,
    min: u128,
    from: Seq<u8>,
    to: Seq<u8>,
    amount: u128,
    keep_alive: bool,
) -> Map<Seq<u8>, u128> {
    if from == to {
        b
    } else {
        let rem = (b[from] - amount) as u128;
        let fin: u128 = if !keep_alive && rem < min {
            0
        } else {
            rem
        };
        b.insert(from, fin).insert(to, (b[to] + amount) as u128)
    }
}

/// The fungible-balance ledger.
pub struct Ledger {
    pub accounts: Vec<(AccountId, u128)>,
    pub minimum: u128,
    pub issued: u128,
}

impl View for Ledger {
    type V = LedgerView;

    open spec fn view(&self) -> LedgerView {
        LedgerView {
            balances: Map::new(
                |k: Seq<u8>| true,
                |k: Seq<u8>|
                    if map_of(self.accounts@).contains_key(k) {
                        map_of(self.accounts@)[k]
                    } else {
                        0u128
                    },
            ),
            minimum: self.minimum,
            issued: self.issued,
        }
    }
}

impl Ledger {
    /// Accounts are distinct and the issuance equals the sum of balances.
    pub open spec fn wf(self) -> bool {
        &&& distinct_keys(self.accounts@)
        &&& sum_of(self.accounts@) == self.issued as int
    }

    /// An empty ledger with the given minimum balance.
    pub fn new(minimum: u128) -> (r: Self)
        ensures
            r.wf(),
            r@.minimum == minimum,
            r@.issued == 0,
            forall|k: Seq<u8>| r@.balances[k] == 0,
    {
        Ledger { accounts: Vec::new(), minimum, issued: 0 }
    }

    /// The minimum balance an account must keep to stay alive.
    pub fn minimum_balance(&self) -> (r: u128)
        ensures
            r == self@.minimum,
    {
        self.minimum
    }

    /// The total issuance.
    pub fn total_issued(&self) -> (r: u128)
        ensures
            r == self@.issued,
    {
        self.issued
    }

    /// The position of an account's entry, if the account exists.
    fn position_of(&self, who: &AccountId) -> (r: Option<usize>)
        ensures
            match r {
                Some(i) => i < self.accounts@.len() && self.accounts@[i as int].0@ == who@,
                None => forall|j: int|
                    0 <= j < self.accounts@.len() ==> self.accounts@[j].0@ != who@,
            },
    {
        let n = self.accounts.len();
        let mut i: usize = 0;
        while i < n
            invariant
                n == self.accounts@.len(),
                i <= n,
                forall|j: int| 0 <= j < i ==> self.accounts@[j].0@ != who@,
            decreases n - i,
        {
            if account_eq(&self.accounts[i].0, who) {
                return Some(i);
            }
            i = i + 1;
        }
        None
    }

    /// The free balance of an identity; zero where no account exists.
    pub fn free_balance(&self, who: &AccountId) -> (r: u128)
        requires
            distinct_keys(self.accounts@),
        ensures
            r == self@.balances[who@],
    {
        match self.position_of(who) {
            Some(i) => {
                proof {
                    lemma_map_of_index(self.accounts@, i as int);
                }
                self.accounts[i].1
            },
            None => {
                proof {
                    lemma_map_of_contains(self.accounts@, who@);
                }
                0
            },
        }
    }

    /// Creates `amount` new units at `who`.
    pub fn issue(&mut self, who: &AccountId, amount: u128) -> (r: Result<(), LedgerError>)
        requires
            old(self).wf(),
        ensures
            final(self).wf(),
            final(self)@.minimum == old(self)@.minimum,
            match r {
                Ok(_) => {
                    &&& old(self)@.issued + amount <= u128::MAX
                    &&& final(self)@.balances == old(self)@.balances.insert(
                        who@,
                        (old(self)@.balances[who@] + amount) as u128,
                    )
                    &&& final(self)@.issued == old(self)@.issued + amount
                },
                Err(e) => {
                    &&& e == LedgerError::IssuanceOverflow
                    &&& old(self)@.issued + amount > u128::MAX
                    &&& final(self)@ == old(self)@
                },
            },
    {
        let ghost s = self.accounts@;
        match self.issued.checked_add(amount) {
            None => Err(LedgerError::IssuanceOverflow),
            Some(ni) => {
                match self.position_of(who) {
                    Some(i) => {
                        proof {
                            lemma_map_of_index(s, i as int);
                            lemma_sum_entry(s, i as int);
                        }
                        let b = self.accounts[i].1;
                        let p = (clone_account(who), b + amount);
                        proof {
                            crate::table::lemma_map_of_update(s, i as int, p);
                            lemma_sum_update(s, i as int, p);
                        }
                        self.accounts.set(i, p);
                    },
                    None => {
                        proof {
                            lemma_map_of_contains(s, who@);
                        }
                        self.accounts.push((clone_account(who), amount));
                        proof {
                            let t = self.accounts@;
                            assert(t.drop_last() =~= s);
                        }
                    },
                }
                self.issued = ni;
                proof {
                    assert(self@.balances =~= old(self)@.balances.insert(
                        who@,
                        (old(self)@.balances[who@] + amount) as u128,
                    ));
                }
                Ok(())
            },
        }
    }

    /// Moves `amount` from `from` to `to`.
    ///
    /// With `keep_alive` the source must retain the minimum balance; without
    /// it the source may be removed, and a remainder below the minimum is
    /// burnt as dust.
    pub fn transfer(
        &mut self,
        from: &AccountId,
        to: &AccountId,
        amount: u128,
        keep_alive: bool,
    ) -> (r: Result<(), LedgerError>)
        requires
            old(self).wf(),
        ensures
            final(self).wf(),
            final(self)@.minimum == old(self)@.minimum,
            match r {
                Ok(_) => {
                    &&& can_transfer(
                        old(self)@.balances,
                        old(self)@.minimum,
                        from@,
                        to@,
                        amount,
                        keep_alive,
                    )
                    &&& final(self)@.balances == transfer_map(
                        old(self)@.balances,
                        old(self)@.minimum,
                        from@,
                        to@,
                        amount,
                        keep_alive,
                    )
                    &&& final(self)@.issued == old(self)@.issued - transfer_dust(
                        old(self)@.balances,
                        old(self)@.minimum,
                        from@,
                        to@,
                        amount,
                        keep_alive,
                    )
                },
                Err(LedgerError::InsufficientFunds) => {
                    &&& amount > old(self)@.balances[from@]
                    &&& final(self)@ == old(self)@
                },
                Err(LedgerError::WouldKillSource) => {
                    &&& amount <= old(self)@.balances[from@]
                    &&& keep_alive
                    &&& from@ != to@
                    &&& old(self)@.balances[from@] - amount < old(self)@.minimum
                    &&& final(self)@ == old(self)@
                },
                Err(LedgerError::IssuanceOverflow) => false,
            },
    {
        let ghost s = self.accounts@;
        let bf = self.free_balance(from);
        if amount > bf {
            return Err(LedgerError::InsufficientFunds);
        }
        if account_eq(from, to) {
            return Ok(());
        }
        let rem = bf - amount;
        if keep_alive && rem < self.minimum {
            return Err(LedgerError::WouldKillSource);
        }
        // Update the source side.
        match self.position_of(from) {
            Some(i) => {
                proof {
                    lemma_map_of_index(s, i as int);
                    lemma_sum_entry(s, i as int);
                }
                if !keep_alive && rem < self.minimum {
                    // The source is removed; the remainder is burnt.
                    proof {
                        crate::table::lemma_map_of_remove(s, i as int);
                        lemma_sum_remove(s, i as int);
                        lemma_sum_nonneg(s.remove(i as int));
                    }
                    self.accounts.remove(i);
                    proof {
                        let t = self.accounts@;
                        assert forall|a: int, b: int|
                            0 <= a < b < t.len() implies t[a].0@ != t[b].0@ by {
                            if b < i {
                                assert(t[a] == s[a] && t[b] == s[b]);
                            } else if a < i {
                                assert(t[a] == s[a] && t[b] == s[b + 1]);
                            } else {
                                assert(t[a] == s[a + 1] && t[b] == s[b + 1]);
                            }
                        }
                    }
                    self.issued = self.issued - rem;
                } else {
                    let p = (clone_account(from), rem);
                    proof {
                        crate::table::lemma_map_of_update(s, i as int, p);
                        lemma_sum_update(s, i as int, p);
                    }
                    self.accounts.set(i, p);
                }
            },
            None => {
                proof {
                    lemma_map_of_contains(s, from@);
                    assert(old(self)@.balances[from@] == 0);
                }
                // No entry: the balance is zero, so the amount is zero too.
            },
        }
        let ghost s2 = self.accounts@;
        // Update the destination side.
        let bt = self.free_balance(to);
        proof {
            assert(self@.balances[to@] == old(self)@.balances[to@]);
            lemma_transfer_no_overflow(s, from@, to@, bf, bt, amount);
        }
        match self.position_of(to) {
            Some(j) => {
                proof {
                    lemma_map_of_index(s2, j as int);
                    lemma_sum_entry(s2, j as int);
                }
                let p = (clone_account(to), bt + amount);
                proof {
                    crate::table::lemma_map_of_update(s2, j as int, p);
                    lemma_sum_update(s2, j as int, p);
                }
                self.accounts.set(j, p);
            },
            None => {
                proof {
                    lemma_map_of_contains(s2, to@);
                }
                self.accounts.push((clone_account(to), bt + amount));
                proof {
                    let t = self.accounts@;
                    assert(t.drop_last() =~= s2);
                }
            },
        }
        proof {
            assert(self@.balances =~= transfer_map(
                old(self)@.balances,
                old(self)@.minimum,
                from@,
                to@,
                amount,
                keep_alive,
            ));
        }
        Ok(())
    }
}

} // verus!

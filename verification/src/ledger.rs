//! The balance-reservation ledger: each account holds a free balance and a
//! reserved balance; reserving escrows free funds, unreserving releases them,
//! and transfers move free funds between accounts.

use vstd::prelude::*;
use crate::assoc::{assoc_get, keys_unique, lemma_assoc_get_at, lemma_assoc_get_absent,
    lemma_assoc_get_update, lemma_assoc_get_push, lemma_assoc_get_some_index, find_key};

verus! {

/// An account's balances: freely spendable funds and funds escrowed against
/// owned assets.
#[derive(Clone, Copy)]
pub struct Balance {
    pub free: u128,
    pub reserved: u128,
}

/// The ledger: one balance per account, absent accounts holding nothing.
pub struct Ledger {
    pub accounts: Vec<(u64, Balance)>,
}

impl Ledger {
    /// The balance of `who`; zero for accounts never endowed.
    pub open spec fn balance_of(self, who: u64) -> Balance {
        match assoc_get(self.accounts@, who) {
            Some(b) => b,
            None => Balance { free: 0, reserved: 0 },
        }
    }

    /// Free balance of `who`.
    pub open spec fn free_of(self, who: u64) -> u128 {
        self.balance_of(who).free
    }

    /// Reserved balance of `who`.
    pub open spec fn reserved_of(self, who: u64) -> u128 {
        self.balance_of(who).reserved
    }

    /// Well-formed: one entry per account, and no account's total holdings
    /// overflow the balance type.
    pub open spec fn wf(self) -> bool {
        &&& keys_unique(self.accounts@)
        &&& forall|i: int| 0 <= i < self.accounts@.len()
            ==> (#[trigger] self.accounts@[i].1).free + self.accounts@[i].1.reserved <= u128::MAX
    }

    /// `who` can have `amount` moved from free into reserve.
    pub open spec fn spec_can_reserve(self, who: u64, amount: u128) -> bool {
        self.free_of(who) >= amount
    }

    /// In a sound ledger, no account's holdings overflow the balance type.
    pub proof fn lemma_balance_bound(self, who: u64)
        requires
            self.wf(),
        ensures
            self.free_of(who) + self.reserved_of(who) <= u128::MAX,
    {
        if assoc_get(self.accounts@, who) is Some {
            lemma_assoc_get_some_index(self.accounts@, who);
        }
    }

    /// An empty ledger.
    pub fn new() -> (r: Ledger)
        ensures
            r.wf(),
            forall|a: u64| #[trigger] r.balance_of(a) == (Balance { free: 0, reserved: 0 }),
    {
        let r = Ledger { accounts: Vec::new() };
        proof {
            assert forall|a: u64| #[trigger] r.balance_of(a) == (Balance { free: 0, reserved: 0 }) by {
                lemma_assoc_get_absent(r.accounts@, a);
            }
        }
        r
    }

    /// Writes `entry` for the account at index `i`, keeping the same key.
    fn write_at(&mut self, i: usize, entry: Balance)
        requires
            old(self).wf(),
            i < old(self).accounts@.len(),
            entry.free + entry.reserved <= u128::MAX,
        ensures
            final(self).wf(),
            final(self).balance_of(old(self).accounts@[i as int].0) == entry,
            forall|a: u64| a != old(self).accounts@[i as int].0
                ==> #[trigger] final(self).balance_of(a) == old(self).balance_of(a),
    {
        let who = self.accounts[i].0;
        self.accounts[i] = (who, entry);
        proof {
            let s = old(self).accounts@;
            assert(self.accounts@ == s.update(i as int, (s[i as int].0, entry)));
            assert forall|a: u64| true implies #[trigger] self.balance_of(a) == (if a == s[i as int].0 {
                entry
            } else {
                old(self).balance_of(a)
            }) by {
                lemma_assoc_get_update(s, i as int, entry, a);
            }
            lemma_assoc_get_update(s, i as int, entry, who);
            assert forall|j: int| 0 <= j < self.accounts@.len()
                implies (#[trigger] self.accounts@[j].1).free + self.accounts@[j].1.reserved
                    <= u128::MAX by {
                if j != i as int {
                    assert(self.accounts@[j] == s[j]);
                }
            }
        }
    }

    /// Appends an entry for the absent account `who`.
    fn push_entry(&mut self, who: u64, entry: Balance)
        requires
            old(self).wf(),
            forall|i: int| 0 <= i < old(self).accounts@.len()
                ==> (#[trigger] old(self).accounts@[i].0) != who,
            entry.free + entry.reserved <= u128::MAX,
        ensures
            final(self).wf(),
            final(self).balance_of(who) == entry,
            forall|a: u64| a != who ==> #[trigger] final(self).balance_of(a) == old(self).balance_of(a),
    {
        self.accounts.push((who, entry));
        proof {
            let s = old(self).accounts@;
            assert forall|a: u64| true implies #[trigger] self.balance_of(a) == (if a == who {
                entry
            } else {
                old(self).balance_of(a)
            }) by {
                lemma_assoc_get_push(s, who, entry, a);
            }
            lemma_assoc_get_push(s, who, entry, who);
            assert forall|j: int| 0 <= j < self.accounts@.len()
                implies (#[trigger] self.accounts@[j].1).free + self.accounts@[j].1.reserved
                    <= u128::MAX by {
                if j < s.len() {
                    assert(self.accounts@[j] == s[j]);
                }
            }
        }
    }

    /// Endows `who` with `free` spendable funds and nothing reserved,
    /// replacing whatever the account held.
    pub fn set_balance(&mut self, who: u64, free: u128)
        requires
            old(self).wf(),
        ensures
            final(self).wf(),
            final(self).balance_of(who) == (Balance { free, reserved: 0 }),
            forall|a: u64| a != who ==> #[trigger] final(self).balance_of(a) == old(self).balance_of(a),
    {
        let b = Balance { free, reserved: 0 };
        match find_key(&self.accounts, who) {
            Some(i) => {
                self.write_at(i, b);
            },
            None => {
                self.push_entry(who, b);
            },
        }
    }

    /// True when `who` has at least `amount` free.
    pub fn can_reserve(&self, who: u64, amount: u128) -> (r: bool)
        requires
            self.wf(),
        ensures
            r == self.spec_can_reserve(who, amount),
    {
        match find_key(&self.accounts, who) {
            Some(i) => {
                proof {
                    lemma_assoc_get_at(self.accounts@, i as int);
                }
                self.accounts[i].1.free >= amount
            },
            None => {
                proof {
                    lemma_assoc_get_absent(self.accounts@, who);
                }
                amount == 0
            },
        }
    }

    /// Moves `amount` from `who`'s free balance into reserve. Fails, changing
    /// nothing, when the free balance does not cover it.
    pub fn reserve(&mut self, who: u64, amount: u128) -> (r: Result<(), ()>)
        requires
            old(self).wf(),
        ensures
            final(self).wf(),
            r is Ok <==> old(self).spec_can_reserve(who, amount),
            r is Ok ==> old(self).reserved_of(who) + amount <= u128::MAX,
            r is Ok ==> final(self).balance_of(who) == (Balance {
                free: (old(self).free_of(who) - amount) as u128,
                reserved: (old(self).reserved_of(who) + amount) as u128,
            }),
            r is Err ==> *final(self) == *old(self),
            forall|a: u64| a != who ==> #[trigger] final(self).balance_of(a) == old(self).balance_of(a),
    {
        match find_key(&self.accounts, who) {
            Some(i) => {
                proof {
                    lemma_assoc_get_at(self.accounts@, i as int);
                }
                let b = self.accounts[i].1;
                if b.free >= amount {
                    self.write_at(i, Balance { free: b.free - amount, reserved: b.reserved + amount });
                    Ok(())
                } else {
                    Err(())
                }
            },
            None => {
                proof {
                    lemma_assoc_get_absent(self.accounts@, who);
                }
                if amount == 0 {
                    self.push_entry(who, Balance { free: 0, reserved: 0 });
                    Ok(())
                } else {
                    Err(())
                }
            },
        }
    }

    /// Releases up to `amount` from `who`'s reserve back into the free
    /// balance; when less than `amount` is reserved, releases what there is.
    pub fn unreserve(&mut self, who: u64, amount: u128)
        requires
            old(self).wf(),
        ensures
            final(self).wf(),
            old(self).free_of(who) + min_u128(amount, old(self).reserved_of(who)) <= u128::MAX,
            final(self).balance_of(who) == (Balance {
                free: (old(self).free_of(who) + min_u128(amount, old(self).reserved_of(who))) as u128,
                reserved: (old(self).reserved_of(who) - min_u128(amount, old(self).reserved_of(who))) as u128,
            }),
            forall|a: u64| a != who ==> #[trigger] final(self).balance_of(a) == old(self).balance_of(a),
    {
        match find_key(&self.accounts, who) {
            Some(i) => {
                proof {
                    lemma_assoc_get_at(self.accounts@, i as int);
                }
                let b = self.accounts[i].1;
                let actual: u128 = if amount <= b.reserved { amount } else { b.reserved };
                self.write_at(i, Balance { free: b.free + actual, reserved: b.reserved - actual });
            },
            None => {
                proof {
                    lemma_assoc_get_absent(self.accounts@, who);
                }
                self.push_entry(who, Balance { free: 0, reserved: 0 });
            },
        }
    }

    /// Moves `amount` of free funds from `from` to `to`. Fails, changing
    /// nothing, when `from` cannot spare the funds or `to` cannot hold them.
    pub fn transfer(&mut self, from: u64, to: u64, amount: u128) -> (r: Result<(), ()>)
        requires
            old(self).wf(),
            from != to,
        ensures
            final(self).wf(),
            r is Ok <==> old(self).free_of(from) >= amount
                && old(self).free_of(to) + amount + old(self).reserved_of(to) <= u128::MAX,
            r is Ok ==> final(self).balance_of(from) == (Balance {
                free: (old(self).free_of(from) - amount) as u128,
                reserved: old(self).reserved_of(from),
            }) && final(self).balance_of(to) == (Balance {
                free: (old(self).free_of(to) + amount) as u128,
                reserved: old(self).reserved_of(to),
            }),
            r is Err ==> *final(self) == *old(self),
            forall|a: u64| a != from && a != to
                ==> #[trigger] final(self).balance_of(a) == old(self).balance_of(a),
    {
        let from_free: u128 = match find_key(&self.accounts, from) {
            Some(i) => {
                proof {
                    lemma_assoc_get_at(self.accounts@, i as int);
                }
                self.accounts[i].1.free
            },
            None => {
                proof {
                    lemma_assoc_get_absent(self.accounts@, from);
                }
                0
            },
        };
        if from_free < amount {
            return Err(());
        }
        let to_bal = match find_key(&self.accounts, to) {
            Some(i) => {
                proof {
                    lemma_assoc_get_at(self.accounts@, i as int);
                }
                self.accounts[i].1
            },
            None => {
                proof {
                    lemma_assoc_get_absent(self.accounts@, to);
                }
                Balance { free: 0, reserved: 0 }
            },
        };
        match to_bal.free.checked_add(amount) {
            Some(to_free_new) => {
                if to_free_new > u128::MAX - to_bal.reserved {
                    return Err(());
                }
                match find_key(&self.accounts, from) {
                    Some(i) => {
                        proof {
                            lemma_assoc_get_at(self.accounts@, i as int);
                        }
                        let b = self.accounts[i].1;
                        proof {
                            assert(b.free == from_free);
                        }
                        self.write_at(i, Balance { free: b.free - amount, reserved: b.reserved });
                    },
                    None => {
                        proof {
                            lemma_assoc_get_absent(self.accounts@, from);
                        }
                        assert(amount == 0);
                        self.push_entry(from, Balance { free: 0, reserved: 0 });
                    },
                }
                proof {
                    assert(self.balance_of(from) == (Balance {
                        free: (old(self).free_of(from) - amount) as u128,
                        reserved: old(self).reserved_of(from),
                    }));
                    assert(self.balance_of(to) == to_bal);
                }
                match find_key(&self.accounts, to) {
                    Some(i) => {
                        proof {
                            lemma_assoc_get_at(self.accounts@, i as int);
                        }
                        let b = self.accounts[i].1;
                        proof {
                            assert(b == to_bal);
                        }
                        self.write_at(i, Balance { free: b.free + amount, reserved: b.reserved });
                    },
                    None => {
                        proof {
                            lemma_assoc_get_absent(self.accounts@, to);
                        }
                        self.push_entry(to, Balance { free: amount, reserved: 0 });
                    },
                }
                Ok(())
            },
            None => Err(()),
        }
    }

    /// The reserved balance of `who`.
    pub fn reserved_balance(&self, who: u64) -> (r: u128)
        requires
            self.wf(),
        ensures
            r == self.reserved_of(who),
    {
        match find_key(&self.accounts, who) {
            Some(i) => {
                proof {
                    lemma_assoc_get_at(self.accounts@, i as int);
                }
                self.accounts[i].1.reserved
            },
            None => {
                proof {
                    lemma_assoc_get_absent(self.accounts@, who);
                }
                0
            },
        }
    }

    /// The free balance of `who`.
    pub fn free_balance(&self, who: u64) -> (r: u128)
        requires
            self.wf(),
        ensures
            r == self.free_of(who),
    {
        match find_key(&self.accounts, who) {
            Some(i) => {
                proof {
                    lemma_assoc_get_at(self.accounts@, i as int);
                }
                self.accounts[i].1.free
            },
            None => {
                proof {
                    lemma_assoc_get_absent(self.accounts@, who);
                }
                0
            },
        }
    }
}

/// The smaller of two balances.
pub open spec fn min_u128(a: u128, b: u128) -> u128 {
    if a <= b {
        a
    } else {
        b
    }
}

} // verus!

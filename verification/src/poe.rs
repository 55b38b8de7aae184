//! Proof-of-existence claims: a byte string of bounded length can be claimed
//! once, revoked by its owner, or handed to another account, each claim
//! recording its owner and the block it was last claimed in.

use vstd::prelude::*;

verus! {

/// Why a claim operation was refused. Refused operations change nothing.
#[derive(Clone, Copy, PartialEq, Eq, Debug)]
pub enum Error {
    /// The claim has already been stored.
    ClaimAlreadyExist,
    /// The claim is longer than the configured maximum.
    ClaimTooLong,
    /// The claim does not exist, so it cannot be revoked or transferred.
    ClaimNotExist,
    /// The claim is owned by another account.
    NotClaimOwner,
}

/// Notification describing a successful claim operation.
#[derive(PartialEq, Eq, Debug)]
pub enum Event {
    /// A claim was stored. (owner, claim)
    ClaimCreated(u64, Vec<u8>),
    /// A claim was revoked by its owner. (owner, claim)
    ClaimRevoked(u64, Vec<u8>),
    /// A claim was handed to another account. (sender, recipient, claim)
    ClaimTransfered(u64, u64, Vec<u8>),
}

/// Configuration, fixed when the pallet is created.
#[derive(Clone, Copy)]
pub struct Config {
    /// The longest claim, in bytes, the store accepts.
    pub max_claim_length: u32,
}

/// The first entry stored under the claim `c`, searching from the front.
pub open spec fn claim_in(s: Seq<(Vec<u8>, (u64, u64))>, c: Seq<u8>) -> Option<(u64, u64)>
    decreases s.len(),
{
    if s.len() == 0 {
        None
    } else if s[0].0@ == c {
        Some(s[0].1)
    } else {
        claim_in(s.drop_first(), c)
    }
}

/// No claim appears twice.
pub open spec fn claims_unique(s: Seq<(Vec<u8>, (u64, u64))>) -> bool {
    forall|i: int, j: int| 0 <= i < j < s.len() ==> (#[trigger] s[i].0)@ != (#[trigger] s[j].0)@
}

/// Under unique claims, the entry at any index is the one lookup finds.
pub proof fn lemma_claim_at(s: Seq<(Vec<u8>, (u64, u64))>, i: int)
    requires
        claims_unique(s),
        0 <= i < s.len(),
    ensures
        claim_in(s, s[i].0@) == Some(s[i].1),
    decreases s.len(),
{
    if i > 0 {
        assert forall|p: int, q: int| 0 <= p < q < s.drop_first().len() implies
            (#[trigger] s.drop_first()[p].0)@ != (#[trigger] s.drop_first()[q].0)@ by {
            assert(s.drop_first()[p] == s[p + 1]);
            assert(s.drop_first()[q] == s[q + 1]);
        }
        assert(s.drop_first()[i - 1] == s[i]);
        lemma_claim_at(s.drop_first(), i - 1);
        assert(s[0].0@ != s[i].0@);
    }
}

/// A claim at no index is found at none.
pub proof fn lemma_claim_absent(s: Seq<(Vec<u8>, (u64, u64))>, c: Seq<u8>)
    requires
        forall|i: int| 0 <= i < s.len() ==> (#[trigger] s[i].0)@ != c,
    ensures
        claim_in(s, c) is None,
    decreases s.len(),
{
    if s.len() > 0 {
        assert forall|i: int| 0 <= i < s.drop_first().len() implies
            (#[trigger] s.drop_first()[i].0)@ != c by {
            assert(s.drop_first()[i] == s[i + 1]);
        }
        lemma_claim_absent(s.drop_first(), c);
    }
}

/// Appending a fresh claim changes lookup only for it.
pub proof fn lemma_claim_push(s: Seq<(Vec<u8>, (u64, u64))>, e: (Vec<u8>, (u64, u64)), c: Seq<u8>)
    requires
        forall|i: int| 0 <= i < s.len() ==> (#[trigger] s[i].0)@ != e.0@,
    ensures
        claim_in(s.push(e), c) == (if c == e.0@ {
            Some(e.1)
        } else {
            claim_in(s, c)
        }),
        claims_unique(s) ==> claims_unique(s.push(e)),
    decreases s.len(),
{
    let s2 = s.push(e);
    if s.len() == 0 {
        assert(s2.len() == 1);
        assert(s2[0] == e);
        if c != e.0@ {
            assert(claim_in(s, c) is None);
        }
    } else {
        assert(s2.drop_first() =~= s.drop_first().push(e));
        assert forall|i: int| 0 <= i < s.drop_first().len() implies
            (#[trigger] s.drop_first()[i].0)@ != e.0@ by {
            assert(s.drop_first()[i] == s[i + 1]);
        }
        lemma_claim_push(s.drop_first(), e, c);
        assert(s2[0] == s[0]);
        if s[0].0@ == c {
            assert(claim_in(s2, c) == Some(s[0].1));
            assert(claim_in(s, c) == Some(s[0].1));
        } else {
            assert(claim_in(s2, c) == claim_in(s2.drop_first(), c));
            assert(claim_in(s, c) == claim_in(s.drop_first(), c));
        }
    }
    if claims_unique(s) {
        assert forall|p: int, q: int| 0 <= p < q < s2.len() implies
            (#[trigger] s2[p].0)@ != (#[trigger] s2[q].0)@ by {
            if q < s.len() {
                assert(s2[p] == s[p]);
                assert(s2[q] == s[q]);
            } else {
                assert(s2[p] == s[p]);
                assert(s2[q] == e);
            }
        }
    }
}

/// Replacing the value at one index, keeping the claim, changes lookup only
/// for that claim.
pub proof fn lemma_claim_update(s: Seq<(Vec<u8>, (u64, u64))>, i: int, v: (u64, u64), c: Seq<u8>)
    requires
        claims_unique(s),
        0 <= i < s.len(),
    ensures
        claim_in(s.update(i, (s[i].0, v)), c) == (if c == s[i].0@ {
            Some(v)
        } else {
            claim_in(s, c)
        }),
        claims_unique(s.update(i, (s[i].0, v))),
    decreases s.len(),
{
    let s2 = s.update(i, (s[i].0, v));
    assert forall|p: int, q: int| 0 <= p < q < s2.len() implies
        (#[trigger] s2[p].0)@ != (#[trigger] s2[q].0)@ by {
        assert(s2[p].0 == s[p].0);
        assert(s2[q].0 == s[q].0);
    }
    if i == 0 {
        if c != s[0].0@ {
            assert(s2.drop_first() =~= s.drop_first());
        }
    } else {
        assert forall|p: int, q: int| 0 <= p < q < s.drop_first().len() implies
            (#[trigger] s.drop_first()[p].0)@ != (#[trigger] s.drop_first()[q].0)@ by {
            assert(s.drop_first()[p] == s[p + 1]);
            assert(s.drop_first()[q] == s[q + 1]);
        }
        assert(s2.drop_first() =~= s.drop_first().update(i - 1, (s.drop_first()[i - 1].0, v)));
        lemma_claim_update(s.drop_first(), i - 1, v, c);
        assert(s2[0] == s[0]);
    }
}

/// Removing the entry at one index removes exactly its claim from lookup.
pub proof fn lemma_claim_remove(s: Seq<(Vec<u8>, (u64, u64))>, i: int, c: Seq<u8>)
    requires
        claims_unique(s),
        0 <= i < s.len(),
    ensures
        claim_in(s.remove(i), c) == (if c == s[i].0@ {
            None
        } else {
            claim_in(s, c)
        }),
        claims_unique(s.remove(i)),
    decreases s.len(),
{
    let s2 = s.remove(i);
    assert forall|p: int, q: int| 0 <= p < q < s2.len() implies
        (#[trigger] s2[p].0)@ != (#[trigger] s2[q].0)@ by {
        assert(s2[p] == (if p < i { s[p] } else { s[p + 1] }));
        assert(s2[q] == (if q < i { s[q] } else { s[q + 1] }));
    }
    if i == 0 {
        assert(s2 =~= s.drop_first());
        if c == s[0].0@ {
            assert forall|p: int| 0 <= p < s2.len() implies (#[trigger] s2[p].0)@ != c by {
                assert(s2[p] == s[p + 1]);
            }
            lemma_claim_absent(s2, c);
        }
    } else {
        assert forall|p: int, q: int| 0 <= p < q < s.drop_first().len() implies
            (#[trigger] s.drop_first()[p].0)@ != (#[trigger] s.drop_first()[q].0)@ by {
            assert(s.drop_first()[p] == s[p + 1]);
            assert(s.drop_first()[q] == s[q + 1]);
        }
        assert(s2.drop_first() =~= s.drop_first().remove(i - 1));
        assert(s.drop_first()[i - 1] == s[i]);
        lemma_claim_remove(s.drop_first(), i - 1, c);
        assert(s2[0] == s[0]);
    }
}

/// The claim store and the host context it reads.
pub struct Pallet {
    /// One entry per stored claim: the claim bytes, then the owner and the
    /// block it was last claimed in.
    pub claims: Vec<(Vec<u8>, (u64, u64))>,
    /// Fixed configuration.
    pub config: Config,
    /// Current block number, set by the host.
    pub block_number: u64,
}

impl Pallet {
    /// Lookup of a claim's owner and block, if stored.
    pub open spec fn spec_claim(self, c: Seq<u8>) -> Option<(u64, u64)> {
        claim_in(self.claims@, c)
    }

    /// Well-formed: claims are unique and within the configured length.
    pub open spec fn wf(self) -> bool {
        &&& claims_unique(self.claims@)
        &&& forall|i: int| 0 <= i < self.claims@.len()
            ==> (#[trigger] self.claims@[i].0)@.len() <= self.config.max_claim_length
    }

    /// A fresh, empty claim store.
    pub fn new(config: Config) -> (r: Pallet)
        ensures
            r.wf(),
            r.config == config,
            r.block_number == 0,
            forall|c: Seq<u8>| #[trigger] r.spec_claim(c) is None,
    {
        let r = Pallet { claims: Vec::new(), config, block_number: 0 };
        proof {
            assert forall|c: Seq<u8>| #[trigger] r.spec_claim(c) is None by {
                lemma_claim_absent(r.claims@, c);
            }
        }
        r
    }

    /// Sets the current block number.
    pub fn set_block_number(&mut self, number: u64)
        requires
            old(self).wf(),
        ensures
            final(self).wf(),
            final(self).block_number == number,
            final(self).claims == old(self).claims,
            final(self).config == old(self).config,
    {
        self.block_number = number;
    }

    /// The owner and block stored for a claim, if any.
    pub fn claims(&self, claim: &Vec<u8>) -> (r: Option<(u64, u64)>)
        requires
            self.wf(),
        ensures
            r == self.spec_claim(claim@),
    {
        match Self::find_claim_index(&self.claims, claim) {
            Some(i) => {
                proof {
                    lemma_claim_at(self.claims@, i as int);
                }
                Some(self.claims[i].1)
            },
            None => {
                proof {
                    lemma_claim_absent(self.claims@, claim@);
                }
                None
            },
        }
    }

    /// Index of the entry holding `claim`, if any.
    fn find_claim_index(s: &Vec<(Vec<u8>, (u64, u64))>, claim: &Vec<u8>) -> (r: Option<usize>)
        ensures
            match r {
                Some(i) => i < s@.len() && s@[i as int].0@ == claim@,
                None => forall|j: int| 0 <= j < s@.len() ==> (#[trigger] s@[j].0)@ != claim@,
            },
    {
        let mut i: usize = 0;
        while i < s.len()
            invariant
                i <= s@.len(),
                forall|j: int| 0 <= j < i ==> (#[trigger] s@[j].0)@ != claim@,
            decreases s@.len() - i,
        {
            if Self::bytes_eq(&s[i].0, claim) {
                return Some(i);
            }
            i += 1;
        }
        None
    }

    /// Tests two byte strings for equality.
    fn bytes_eq(a: &Vec<u8>, b: &Vec<u8>) -> (r: bool)
        ensures
            r == (a@ == b@),
    {
        if a.len() != b.len() {
            return false;
        }
        let mut i: usize = 0;
        while i < a.len()
            invariant
                a@.len() == b@.len(),
                i <= a@.len(),
                forall|j: int| 0 <= j < i ==> a@[j] == b@[j],
            decreases a@.len() - i,
        {
            if a[i] != b[i] {
                return false;
            }
            i += 1;
        }
        proof {
            assert(a@ =~= b@);
        }
        true
    }

    /// Copies a byte string.
    fn bytes_copy(a: &Vec<u8>) -> (r: Vec<u8>)
        ensures
            r@ == a@,
    {
        let mut r: Vec<u8> = Vec::new();
        let mut i: usize = 0;
        while i < a.len()
            invariant
                i <= a@.len(),
                r@ == a@.subrange(0, i as int),
            decreases a@.len() - i,
        {
            r.push(a[i]);
            proof {
                assert(r@ =~= a@.subrange(0, i + 1));
            }
            i += 1;
        }
        proof {
            assert(r@ =~= a@);
        }
        r
    }

    /// Why creating a claim would be refused, if it would be.
    pub open spec fn create_error(self, claim: Seq<u8>) -> Option<Error> {
        if claim.len() > self.config.max_claim_length {
            Some(Error::ClaimTooLong)
        } else if self.spec_claim(claim) is Some {
            Some(Error::ClaimAlreadyExist)
        } else {
            None
        }
    }

    /// Stores a claim for `sender` at the current block, provided it is
    /// within the length bound and not already stored.
    pub fn create_claim(&mut self, sender: u64, claim: Vec<u8>) -> (r: Result<Event, Error>)
        requires
            old(self).wf(),
        ensures
            final(self).wf(),
            old(self).create_error(claim@) matches Some(e)
                ==> r == Err::<Event, Error>(e) && *final(self) == *old(self),
            old(self).create_error(claim@) is None ==> (
                (r matches Ok(ev) && ev matches Event::ClaimCreated(w, c) && w == sender
                    && c@ == claim@)
                && final(self).spec_claim(claim@)
                    == Some((sender, old(self).block_number))
                && (forall|x: Seq<u8>| x != claim@
                    ==> #[trigger] final(self).spec_claim(x) == old(self).spec_claim(x))),
            final(self).config == old(self).config,
            final(self).block_number == old(self).block_number,
    {
        if claim.len() > self.config.max_claim_length as usize {
            return Err(Error::ClaimTooLong);
        }
        match Self::find_claim_index(&self.claims, &claim) {
            Some(i) => {
                proof {
                    lemma_claim_at(self.claims@, i as int);
                }
                Err(Error::ClaimAlreadyExist)
            },
            None => {
                proof {
                    lemma_claim_absent(self.claims@, claim@);
                }
                let stored = Self::bytes_copy(&claim);
                let entry = (stored, (sender, self.block_number));
                self.claims.push(entry);
                proof {
                    let s = old(self).claims@;
                    assert forall|x: Seq<u8>| true implies #[trigger] self.spec_claim(x)
                        == (if x == claim@ {
                        Some((sender, old(self).block_number))
                    } else {
                        old(self).spec_claim(x)
                    }) by {
                        lemma_claim_push(s, entry, x);
                    }
                    lemma_claim_push(s, entry, claim@);
                    assert forall|i: int| 0 <= i < self.claims@.len() implies
                        (#[trigger] self.claims@[i].0)@.len() <= self.config.max_claim_length by {
                        if i < s.len() {
                            assert(self.claims@[i] == s[i]);
                        }
                    }
                }
                Ok(Event::ClaimCreated(sender, claim))
            },
        }
    }

    /// Why revoking a claim would be refused, if it would be.
    pub open spec fn revoke_error(self, sender: u64, claim: Seq<u8>) -> Option<Error> {
        if claim.len() > self.config.max_claim_length {
            Some(Error::ClaimTooLong)
        } else {
            match self.spec_claim(claim) {
                None => Some(Error::ClaimNotExist),
                Some(entry) => if entry.0 != sender {
                    Some(Error::NotClaimOwner)
                } else {
                    None
                },
            }
        }
    }

    /// Removes a claim owned by `sender` from the store.
    pub fn revoke_claim(&mut self, sender: u64, claim: Vec<u8>) -> (r: Result<Event, Error>)
        requires
            old(self).wf(),
        ensures
            final(self).wf(),
            old(self).revoke_error(sender, claim@) matches Some(e)
                ==> r == Err::<Event, Error>(e) && *final(self) == *old(self),
            old(self).revoke_error(sender, claim@) is None ==> (
                (r matches Ok(ev) && ev matches Event::ClaimRevoked(w, c) && w == sender
                    && c@ == claim@)
                && final(self).spec_claim(claim@) is None
                && (forall|x: Seq<u8>| x != claim@
                    ==> #[trigger] final(self).spec_claim(x) == old(self).spec_claim(x))),
            final(self).config == old(self).config,
            final(self).block_number == old(self).block_number,
    {
        if claim.len() > self.config.max_claim_length as usize {
            return Err(Error::ClaimTooLong);
        }
        match Self::find_claim_index(&self.claims, &claim) {
            Some(i) => {
                proof {
                    lemma_claim_at(self.claims@, i as int);
                }
                if self.claims[i].1.0 != sender {
                    return Err(Error::NotClaimOwner);
                }
                let _removed = self.claims.remove(i);
                proof {
                    let s = old(self).claims@;
                    assert forall|x: Seq<u8>| true implies #[trigger] self.spec_claim(x)
                        == (if x == claim@ {
                        None
                    } else {
                        old(self).spec_claim(x)
                    }) by {
                        lemma_claim_remove(s, i as int, x);
                    }
                    lemma_claim_remove(s, i as int, claim@);
                    assert forall|p: int| 0 <= p < self.claims@.len() implies
                        (#[trigger] self.claims@[p].0)@.len() <= self.config.max_claim_length by {
                        assert(self.claims@[p] == (if p < i as int { s[p] } else { s[p + 1] }));
                    }
                }
                Ok(Event::ClaimRevoked(sender, claim))
            },
            None => {
                proof {
                    lemma_claim_absent(self.claims@, claim@);
                }
                Err(Error::ClaimNotExist)
            },
        }
    }

    /// Why handing a claim over would be refused, if it would be.
    pub open spec fn transfer_error(self, sender: u64, claim: Seq<u8>) -> Option<Error> {
        self.revoke_error(sender, claim)
    }

    /// Hands a claim owned by `sender` to `dest`, restamping it with the
    /// current block.
    pub fn transfer_claim(&mut self, sender: u64, claim: Vec<u8>, dest: u64)
        -> (r: Result<Event, Error>)
        requires
            old(self).wf(),
        ensures
            final(self).wf(),
            old(self).transfer_error(sender, claim@) matches Some(e)
                ==> r == Err::<Event, Error>(e) && *final(self) == *old(self),
            old(self).transfer_error(sender, claim@) is None ==> (
                (r matches Ok(ev) && ev matches Event::ClaimTransfered(w, d, c) && w == sender
                    && d == dest && c@ == claim@)
                && final(self).spec_claim(claim@)
                    == Some((dest, old(self).block_number))
                && (forall|x: Seq<u8>| x != claim@
                    ==> #[trigger] final(self).spec_claim(x) == old(self).spec_claim(x))),
            final(self).config == old(self).config,
            final(self).block_number == old(self).block_number,
    {
        if claim.len() > self.config.max_claim_length as usize {
            return Err(Error::ClaimTooLong);
        }
        match Self::find_claim_index(&self.claims, &claim) {
            Some(i) => {
                proof {
                    lemma_claim_at(self.claims@, i as int);
                }
                if self.claims[i].1.0 != sender {
                    return Err(Error::NotClaimOwner);
                }
                self.claims[i].1 = (dest, self.block_number);
                proof {
                    let s = old(self).claims@;
                    let v = (dest, old(self).block_number);
                    assert(self.claims@ == s.update(i as int, (s[i as int].0, v)));
                    assert forall|x: Seq<u8>| true implies #[trigger] self.spec_claim(x)
                        == (if x == claim@ {
                        Some(v)
                    } else {
                        old(self).spec_claim(x)
                    }) by {
                        lemma_claim_update(s, i as int, v, x);
                    }
                    lemma_claim_update(s, i as int, v, claim@);
                    assert forall|p: int| 0 <= p < self.claims@.len() implies
                        (#[trigger] self.claims@[p].0)@.len() <= self.config.max_claim_length by {
                        assert(self.claims@[p].0 == s[p].0);
                    }
                }
                Ok(Event::ClaimTransfered(sender, dest, claim))
            },
            None => {
                proof {
                    lemma_claim_absent(self.claims@, claim@);
                }
                Err(Error::ClaimNotExist)
            },
        }
    }
}

} // verus!

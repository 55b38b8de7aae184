//! The asset registry and its lifecycle controller: minting, breeding,
//! transferring, repricing and purchasing uniquely identified assets, with
//! per-owner capacity bounds, a global creation cap, and funds reserved
//! against every owned asset.

use vstd::prelude::*;
use crate::assoc::{assoc_get, keys_unique, lemma_assoc_get_at, lemma_assoc_get_absent,
    lemma_assoc_get_update, lemma_assoc_get_push, lemma_assoc_get_some_index, find_key};
use crate::dna::{KittyDna, combine, combine_code, dna_eq};
use crate::encode::{u32_le_bytes, u64_le_bytes, push_u32_le, push_u64_le};
use crate::hashing::{blake2_128_of, blake2_128};
use crate::ledger::{Balance, Ledger, min_u128};

verus! {

/// An asset record: its identifier (the genetic code), its current price and
/// its owner.
#[derive(Clone, Copy)]
pub struct Kitty {
    pub dna: KittyDna,
    pub price: u128,
    pub owner: u64,
}

/// Configuration, fixed when the pallet is created and never changed.
#[derive(Clone, Copy)]
pub struct Config {
    /// Price charged, and reserved, when an asset is minted or bred.
    pub kitty_price: u128,
    /// How many assets one account may own at once.
    pub max_kitties_owned: u32,
    /// How many assets may ever be created.
    pub max_kitties_count: u32,
}

/// Notification describing a successful operation, for the host to emit.
#[derive(Clone, Copy, PartialEq, Eq, Debug)]
pub enum Event {
    /// A new asset was minted. (identifier, owner)
    KittyCreated(KittyDna, u64),
    /// A new asset was bred from two parents. (identifier, owner)
    KittyBred(KittyDna, u64),
    /// An asset changed hands. (sender, recipient, identifier)
    KittyTransferred(u64, u64, KittyDna),
    /// An asset's price was set by its owner. (identifier, price)
    PriceSet(KittyDna, u128),
    /// An asset was purchased. (seller, buyer, identifier, price)
    Sold(u64, u64, KittyDna, u128),
}

/// Why an operation was refused. Refused operations change nothing.
#[derive(Clone, Copy, PartialEq, Eq, Debug)]
pub enum Error {
    /// The account cannot reserve or pay the required funds.
    InsufficientBalance,
    /// The receiving account already owns the configured maximum.
    OwnerCapacityExceeded,
    /// Creating the asset would exceed the global creation cap.
    TotalCapacityExceeded,
    /// The generated identifier collides with an existing asset.
    DuplicateAsset,
    /// No asset with the given identifier exists.
    AssetNotFound,
    /// The caller does not own the asset.
    NotOwner,
    /// Both breeding parents are the same asset.
    IdenticalParents,
    /// Sender and recipient are the same account.
    TransferToSelf,
    /// The bid is below the asking price.
    BidTooLow,
    /// The asset is not offered for sale. (Reserved: every asset in this
    /// registry carries a price, so no operation currently returns it.)
    NotForSale,
}

/// The first record carrying the identifier `d`, searching from the front.
pub open spec fn kitty_in(s: Seq<Kitty>, d: Seq<u8>) -> Option<Kitty>
    decreases s.len(),
{
    if s.len() == 0 {
        None
    } else if s[0].dna@ == d {
        Some(s[0])
    } else {
        kitty_in(s.drop_first(), d)
    }
}

/// No identifier appears twice in the registry.
pub open spec fn dnas_unique(s: Seq<Kitty>) -> bool {
    forall|i: int, j: int| 0 <= i < j < s.len() ==> (#[trigger] s[i].dna)@ != (#[trigger] s[j].dna)@
}

/// What a record contributes to its owner's reserved funds.
pub open spec fn price_contrib(k: Kitty, a: u64) -> int {
    if k.owner == a {
        k.price as int
    } else {
        0
    }
}

/// Sum of the prices of the records owned by `a`.
pub open spec fn sum_owned_prices(s: Seq<Kitty>, a: u64) -> int
    decreases s.len(),
{
    if s.len() == 0 {
        0
    } else {
        sum_owned_prices(s.drop_last(), a) + price_contrib(s.last(), a)
    }
}

/// Under unique identifiers, the record at any index is the one lookup finds.
pub proof fn lemma_kitty_at(s: Seq<Kitty>, i: int)
    requires
        dnas_unique(s),
        0 <= i < s.len(),
    ensures
        kitty_in(s, s[i].dna@) == Some(s[i]),
    decreases s.len(),
{
    if i > 0 {
        assert forall|p: int, q: int| 0 <= p < q < s.drop_first().len() implies
            (#[trigger] s.drop_first()[p].dna)@ != (#[trigger] s.drop_first()[q].dna)@ by {
            assert(s.drop_first()[p] == s[p + 1]);
            assert(s.drop_first()[q] == s[q + 1]);
        }
        assert(s.drop_first()[i - 1] == s[i]);
        lemma_kitty_at(s.drop_first(), i - 1);
        assert(s[0].dna@ != s[i].dna@);
    }
}

/// An identifier at no index is found at none.
pub proof fn lemma_kitty_absent(s: Seq<Kitty>, d: Seq<u8>)
    requires
        forall|i: int| 0 <= i < s.len() ==> (#[trigger] s[i].dna)@ != d,
    ensures
        kitty_in(s, d) is None,
    decreases s.len(),
{
    if s.len() > 0 {
        assert forall|i: int| 0 <= i < s.drop_first().len() implies
            (#[trigger] s.drop_first()[i].dna)@ != d by {
            assert(s.drop_first()[i] == s[i + 1]);
        }
        lemma_kitty_absent(s.drop_first(), d);
    }
}

/// Appending a record with a fresh identifier changes lookup only for it.
pub proof fn lemma_kitty_push(s: Seq<Kitty>, k: Kitty, d: Seq<u8>)
    requires
        forall|i: int| 0 <= i < s.len() ==> (#[trigger] s[i].dna)@ != k.dna@,
    ensures
        kitty_in(s.push(k), d) == (if d == k.dna@ {
            Some(k)
        } else {
            kitty_in(s, d)
        }),
        dnas_unique(s) ==> dnas_unique(s.push(k)),
    decreases s.len(),
{
    let s2 = s.push(k);
    if s.len() == 0 {
        if d != k.dna@ {
            assert(kitty_in(s, d) is None);
        }
    } else {
        assert(s2.drop_first() =~= s.drop_first().push(k));
        assert forall|i: int| 0 <= i < s.drop_first().len() implies
            (#[trigger] s.drop_first()[i].dna)@ != k.dna@ by {
            assert(s.drop_first()[i] == s[i + 1]);
        }
        lemma_kitty_push(s.drop_first(), k, d);
        assert(s2[0] == s[0]);
    }
    if dnas_unique(s) {
        assert forall|p: int, q: int| 0 <= p < q < s2.len() implies
            (#[trigger] s2[p].dna)@ != (#[trigger] s2[q].dna)@ by {
            if q < s.len() {
                assert(s2[p] == s[p]);
                assert(s2[q] == s[q]);
            } else {
                assert(s2[p] == s[p]);
                assert(s2[q] == k);
            }
        }
    }
}

/// Replacing the record at one index, keeping its identifier, changes lookup
/// only for that identifier.
pub proof fn lemma_kitty_update(s: Seq<Kitty>, i: int, k2: Kitty, d: Seq<u8>)
    requires
        dnas_unique(s),
        0 <= i < s.len(),
        k2.dna@ == s[i].dna@,
    ensures
        kitty_in(s.update(i, k2), d) == (if d == s[i].dna@ {
            Some(k2)
        } else {
            kitty_in(s, d)
        }),
        dnas_unique(s.update(i, k2)),
    decreases s.len(),
{
    let s2 = s.update(i, k2);
    assert forall|p: int, q: int| 0 <= p < q < s2.len() implies
        (#[trigger] s2[p].dna)@ != (#[trigger] s2[q].dna)@ by {
        assert(s2[p].dna@ == s[p].dna@);
        assert(s2[q].dna@ == s[q].dna@);
    }
    if i == 0 {
        if d != s[0].dna@ {
            assert(s2.drop_first() =~= s.drop_first());
        }
    } else {
        assert forall|p: int, q: int| 0 <= p < q < s.drop_first().len() implies
            (#[trigger] s.drop_first()[p].dna)@ != (#[trigger] s.drop_first()[q].dna)@ by {
            assert(s.drop_first()[p] == s[p + 1]);
            assert(s.drop_first()[q] == s[q + 1]);
        }
        assert(s2.drop_first() =~= s.drop_first().update(i - 1, k2));
        assert(s.drop_first()[i - 1] == s[i]);
        lemma_kitty_update(s.drop_first(), i - 1, k2, d);
        assert(s2[0] == s[0]);
    }
}

/// Appending a record adds its contribution to its owner's price sum.
pub proof fn lemma_sum_push(s: Seq<Kitty>, k: Kitty, a: u64)
    ensures
        sum_owned_prices(s.push(k), a) == sum_owned_prices(s, a) + price_contrib(k, a),
{
    assert(s.push(k).drop_last() =~= s);
}

/// Replacing the record at one index adjusts its owner's price sums by the
/// two contributions.
pub proof fn lemma_sum_update(s: Seq<Kitty>, i: int, k2: Kitty, a: u64)
    requires
        0 <= i < s.len(),
    ensures
        sum_owned_prices(s.update(i, k2), a) == sum_owned_prices(s, a) - price_contrib(s[i], a)
            + price_contrib(k2, a),
    decreases s.len(),
{
    let s2 = s.update(i, k2);
    if i == s.len() - 1 {
        assert(s2.drop_last() =~= s.drop_last());
        assert(s2.last() == k2);
    } else {
        assert(s2.drop_last() =~= s.drop_last().update(i, k2));
        lemma_sum_update(s.drop_last(), i, k2, a);
        assert(s2.last() == s.last());
    }
}

/// A price sum is never negative.
pub proof fn lemma_sum_nonneg(s: Seq<Kitty>, a: u64)
    ensures
        sum_owned_prices(s, a) >= 0,
    decreases s.len(),
{
    if s.len() > 0 {
        lemma_sum_nonneg(s.drop_last(), a);
    }
}

/// A record owned by `a` contributes no more than the whole sum.
pub proof fn lemma_sum_ge_elem(s: Seq<Kitty>, i: int, a: u64)
    requires
        0 <= i < s.len(),
        s[i].owner == a,
    ensures
        sum_owned_prices(s, a) >= s[i].price,
    decreases s.len(),
{
    if i == s.len() - 1 {
        lemma_sum_nonneg(s.drop_last(), a);
    } else {
        lemma_sum_ge_elem(s.drop_last(), i, a);
        assert(price_contrib(s.last(), a) >= 0);
    }
}

/// Whether an identifier occurs in an owner's list.
pub open spec fn list_contains(l: Seq<KittyDna>, d: Seq<u8>) -> bool {
    exists|j: int| 0 <= j < l.len() && (#[trigger] l[j])@ == d
}

/// Swapping the last element into position `j` and dropping the last entry
/// removes exactly the identifier at `j` from a duplicate-free list.
pub proof fn lemma_swap_remove(l: Seq<KittyDna>, j: int, d: Seq<u8>)
    requires
        0 <= j < l.len(),
        l[j]@ == d,
        forall|p: int, q: int| 0 <= p < q < l.len() ==> (#[trigger] l[p])@ != (#[trigger] l[q])@,
    ensures
        l.update(j, l.last()).drop_last().len() == l.len() - 1,
        forall|x: Seq<u8>| #[trigger] list_contains(l.update(j, l.last()).drop_last(), x)
            <==> (list_contains(l, x) && x != d),
        forall|p: int, q: int| 0 <= p < q < l.update(j, l.last()).drop_last().len()
            ==> (#[trigger] l.update(j, l.last()).drop_last()[p])@
                != (#[trigger] l.update(j, l.last()).drop_last()[q])@,
        forall|p: int| 0 <= p < l.update(j, l.last()).drop_last().len()
            ==> list_contains(l, (#[trigger] l.update(j, l.last()).drop_last()[p])@)
                && (l.update(j, l.last()).drop_last()[p])@ != d,
{
    let l2 = l.update(j, l.last()).drop_last();
    let n = l.len() - 1;
    assert forall|p: int| 0 <= p < n implies l2[p] == (if p == j {
        l[n]
    } else {
        l[p]
    }) by {}
    assert forall|p: int| 0 <= p < n implies list_contains(l, (#[trigger] l2[p])@)
        && (l2[p])@ != d by {
        if p == j {
            assert(l2[p] == l[n]);
            assert(list_contains(l, l[n]@));
            assert(j < n ==> l[j]@ != l[n]@);
        } else {
            assert(l2[p] == l[p]);
            assert(list_contains(l, l[p]@));
        }
    }
    assert forall|p: int, q: int| 0 <= p < q < n implies (#[trigger] l2[p])@ != (#[trigger] l2[q])@ by {
        if p == j {
            assert(l2[p] == l[n] && l2[q] == l[q] && q != n);
        } else if q == j {
            assert(l2[q] == l[n] && l2[p] == l[p] && p != n);
        } else {
            assert(l2[p] == l[p] && l2[q] == l[q]);
        }
    }
    assert forall|x: Seq<u8>| #[trigger] list_contains(l2, x)
        <==> (list_contains(l, x) && x != d) by {
        if list_contains(l2, x) {
            let p = choose|p: int| 0 <= p < l2.len() && (#[trigger] l2[p])@ == x;
            assert(list_contains(l, l2[p]@) && l2[p]@ != d);
        }
        if list_contains(l, x) && x != d {
            let q = choose|q: int| 0 <= q < l.len() && (#[trigger] l[q])@ == x;
            assert(q != j);
            if q == n {
                assert(j < n);
                assert(l2[j] == l[n]);
                assert(list_contains(l2, x));
            } else {
                assert(l2[q] == l[q]);
                assert(list_contains(l2, x));
            }
        }
    }
}

/// The bytes hashed to derive a fresh identifier: entropy, then the caller,
/// then the sequencing context.
pub open spec fn payload_bytes(seed: Seq<u8>, sender: u64, extrinsic_index: u32, block: u64) -> Seq<u8> {
    seed + u64_le_bytes(sender) + u32_le_bytes(extrinsic_index) + u64_le_bytes(block)
}

/// The registry, ownership index, creation counter and ledger, together with
/// the host context (block number, extrinsic index, entropy) that identifier
/// generation mixes in.
pub struct Pallet {
    /// Every asset ever created, in creation order. Assets are never removed.
    pub kitties: Vec<Kitty>,
    /// Per-account list of owned identifiers; insertion-ordered, except that
    /// removal swaps the last element into the gap.
    pub owned: Vec<(u64, Vec<KittyDna>)>,
    /// Number of assets ever created.
    pub count: u32,
    /// The balance-reservation ledger.
    pub currency: Ledger,
    /// Fixed configuration.
    pub config: Config,
    /// Current block number, set by the host.
    pub block_number: u64,
    /// Index of the current extrinsic within the block, set by the host.
    pub extrinsic_index: u32,
    /// Entropy supplied by the host's randomness source.
    pub random_seed: [u8; 32],
}

impl Pallet {
    /// Registry lookup by identifier.
    pub open spec fn spec_kitty(self, d: Seq<u8>) -> Option<Kitty> {
        kitty_in(self.kitties@, d)
    }

    /// Whether an asset with identifier `d` exists.
    pub open spec fn has_kitty(self, d: Seq<u8>) -> bool {
        self.spec_kitty(d) is Some
    }

    /// The identifiers owned by `a`; empty for accounts that own nothing.
    pub open spec fn owned_of(self, a: u64) -> Seq<KittyDna> {
        match assoc_get(self.owned@, a) {
            Some(l) => l@,
            None => Seq::empty(),
        }
    }

    /// The identifier the generator would derive for `sender` in the current
    /// host context.
    pub open spec fn spec_gen_dna(self, sender: u64) -> Seq<u8> {
        blake2_128_of(payload_bytes(self.random_seed@, sender, self.extrinsic_index, self.block_number))
    }

    /// The index entry at `i` is sound: within capacity, duplicate-free, and
    /// every listed identifier resolves to a record owned by that account.
    pub open spec fn owned_entry_ok(self, i: int) -> bool {
        let a = self.owned@[i].0;
        let l = self.owned@[i].1@;
        &&& l.len() <= self.config.max_kitties_owned
        &&& forall|p: int, q: int| 0 <= p < q < l.len() ==> (#[trigger] l[p])@ != (#[trigger] l[q])@
        &&& forall|j: int| 0 <= j < l.len() ==> (kitty_in(self.kitties@, (#[trigger] l[j])@) matches Some(k)
            && k.owner == a)
    }

    /// Well-formedness: identifier uniqueness, counter agreement and bound,
    /// index-registry coherence in both directions, and a sound ledger.
    pub open spec fn wf(self) -> bool {
        &&& dnas_unique(self.kitties@)
        &&& self.kitties@.len() == self.count
        &&& self.count <= self.config.max_kitties_count
        &&& keys_unique(self.owned@)
        &&& forall|i: int| 0 <= i < self.owned@.len() ==> #[trigger] self.owned_entry_ok(i)
        &&& forall|i: int| 0 <= i < self.kitties@.len()
            ==> list_contains(self.owned_of((#[trigger] self.kitties@[i]).owner), self.kitties@[i].dna@)
        &&& self.currency.wf()
    }

    /// Every account's reserved balance is exactly the sum of the prices of
    /// the assets it owns.
    pub open spec fn reservation_consistent(self) -> bool {
        forall|a: u64| #[trigger] self.currency.reserved_of(a) as int == sum_owned_prices(self.kitties@, a)
    }

    /// A fresh pallet: empty registry and index, zero counter, empty ledger.
    pub fn new(config: Config) -> (r: Pallet)
        ensures
            r.wf(),
            r.reservation_consistent(),
            r.config == config,
            r.kitties@ == Seq::<Kitty>::empty(),
            r.count == 0,
            forall|a: u64| #[trigger] r.owned_of(a) == Seq::<KittyDna>::empty(),
            forall|a: u64| #[trigger] r.currency.balance_of(a) == (Balance { free: 0, reserved: 0 }),
            r.block_number == 0,
            r.extrinsic_index == 0,
            r.random_seed@ == Seq::new(32, |i: int| 0u8),
    {
        let r = Pallet {
            kitties: Vec::new(),
            owned: Vec::new(),
            count: 0,
            currency: Ledger::new(),
            config,
            block_number: 0,
            extrinsic_index: 0,
            random_seed: [0u8; 32],
        };
        proof {
            assert forall|a: u64| #[trigger] r.owned_of(a) == Seq::<KittyDna>::empty() by {
                lemma_assoc_get_absent(r.owned@, a);
            }
            assert(r.random_seed@ =~= Seq::new(32, |i: int| 0u8));
        }
        r
    }

    /// Derives a fresh identifier by hashing the host entropy, the caller and
    /// the sequencing context; deterministic for identical inputs.
    fn gen_random_value(&self, sender: u64) -> (r: KittyDna)
        ensures
            r@ == self.spec_gen_dna(sender),
    {
        let mut payload: Vec<u8> = Vec::new();
        let mut i: usize = 0;
        while i < 32
            invariant
                i <= 32,
                payload@ == self.random_seed@.subrange(0, i as int),
            decreases 32 - i,
        {
            payload.push(self.random_seed[i]);
            proof {
                assert(payload@ =~= self.random_seed@.subrange(0, i + 1));
            }
            i += 1;
        }
        proof {
            assert(payload@ =~= self.random_seed@);
        }
        push_u64_le(&mut payload, sender);
        push_u32_le(&mut payload, self.extrinsic_index);
        push_u64_le(&mut payload, self.block_number);
        blake2_128(payload.as_slice())
    }

    /// Registry index of the record with identifier `dna`, if any.
    fn find_kitty_index(&self, dna: &KittyDna) -> (r: Option<usize>)
        ensures
            match r {
                Some(i) => i < self.kitties@.len() && self.kitties@[i as int].dna@ == dna@,
                None => forall|j: int| 0 <= j < self.kitties@.len()
                    ==> (#[trigger] self.kitties@[j].dna)@ != dna@,
            },
    {
        let mut i: usize = 0;
        while i < self.kitties.len()
            invariant
                i <= self.kitties@.len(),
                forall|j: int| 0 <= j < i ==> (#[trigger] self.kitties@[j].dna)@ != dna@,
            decreases self.kitties@.len() - i,
        {
            if dna_eq(&self.kitties[i].dna, dna) {
                return Some(i);
            }
            i += 1;
        }
        None
    }

    /// In a well-formed pallet, the creation counter equals the number of
    /// live records and never exceeds the configured cap.
    pub proof fn lemma_counter_consistent(self)
        requires
            self.wf(),
        ensures
            self.count as int == self.kitties@.len(),
            self.count <= self.config.max_kitties_count,
    {
    }

    /// In a well-formed pallet, no account's list exceeds the configured
    /// capacity, no identifier appears in it twice, and every listed
    /// identifier resolves to a registry record owned by that account.
    pub proof fn lemma_owned_props(self, a: u64)
        requires
            self.wf(),
        ensures
            self.owned_of(a).len() <= self.config.max_kitties_owned,
            forall|p: int, q: int| 0 <= p < q < self.owned_of(a).len()
                ==> (#[trigger] self.owned_of(a)[p])@ != (#[trigger] self.owned_of(a)[q])@,
            forall|j: int| 0 <= j < self.owned_of(a).len()
                ==> (kitty_in(self.kitties@, (#[trigger] self.owned_of(a)[j])@) matches Some(k)
                    && k.owner == a),
    {
        if assoc_get(self.owned@, a) is Some {
            lemma_assoc_get_some_index(self.owned@, a);
            let i = choose|i: int| 0 <= i < self.owned@.len() && (#[trigger] self.owned@[i].0) == a
                && Some(self.owned@[i].1) == assoc_get(self.owned@, a);
            assert(self.owned_entry_ok(i));
            assert(self.owned@[i].1@ == self.owned_of(a));
        }
    }

    /// Appends `dna` to `owner`'s index entry, creating the entry if absent.
    /// The caller has already checked capacity.
    fn append_owned(&mut self, owner: u64, dna: KittyDna)
        requires
            old(self).wf(),
            old(self).owned_of(owner).len() < old(self).config.max_kitties_owned,
        ensures
            final(self).owned_of(owner) == old(self).owned_of(owner).push(dna),
            forall|a: u64| a != owner ==> #[trigger] final(self).owned_of(a) == old(self).owned_of(a),
            keys_unique(final(self).owned@),
            final(self).kitties == old(self).kitties,
            final(self).count == old(self).count,
            final(self).currency == old(self).currency,
            final(self).config == old(self).config,
            final(self).block_number == old(self).block_number,
            final(self).extrinsic_index == old(self).extrinsic_index,
            final(self).random_seed == old(self).random_seed,
    {
        match find_key(&self.owned, owner) {
            Some(i) => {
                proof {
                    lemma_assoc_get_at(self.owned@, i as int);
                }
                self.owned[i].1.push(dna);
                proof {
                    let s = old(self).owned@;
                    let l2 = self.owned@[i as int].1;
                    assert(l2@ == old(self).owned_of(owner).push(dna));
                    assert(self.owned@ == s.update(i as int, (s[i as int].0, l2)));
                    assert forall|a: u64| true implies #[trigger] self.owned_of(a) == (if a == owner {
                        old(self).owned_of(owner).push(dna)
                    } else {
                        old(self).owned_of(a)
                    }) by {
                        lemma_assoc_get_update(s, i as int, l2, a);
                    }
                    lemma_assoc_get_update(s, i as int, l2, owner);
                }
            },
            None => {
                proof {
                    lemma_assoc_get_absent(self.owned@, owner);
                }
                let mut l: Vec<KittyDna> = Vec::new();
                l.push(dna);
                self.owned.push((owner, l));
                proof {
                    let s = old(self).owned@;
                    let l2 = self.owned@[s.len() as int].1;
                    assert forall|a: u64| true implies #[trigger] self.owned_of(a) == (if a == owner {
                        old(self).owned_of(owner).push(dna)
                    } else {
                        old(self).owned_of(a)
                    }) by {
                        lemma_assoc_get_push(s, owner, l2, a);
                        if a == owner {
                            assert(old(self).owned_of(owner) == Seq::<KittyDna>::empty());
                            assert(l2@ =~= old(self).owned_of(owner).push(dna));
                        }
                    }
                    lemma_assoc_get_push(s, owner, l2, owner);
                }
            },
        }
    }

    /// Two states with the same index agree on every account's list.
    pub proof fn lemma_owned_frame(self, other: Pallet)
        requires
            self.owned == other.owned,
        ensures
            forall|a: u64|
                #![trigger self.owned_of(a)]
                #![trigger other.owned_of(a)]
                self.owned_of(a) == other.owned_of(a),
    {
    }

    /// Two states with the same registry agree on every lookup.
    pub proof fn lemma_kitty_frame(self, other: Pallet)
        requires
            self.kitties == other.kitties,
        ensures
            forall|x: Seq<u8>|
                #![trigger self.spec_kitty(x)]
                #![trigger other.spec_kitty(x)]
                self.spec_kitty(x) == other.spec_kitty(x),
    {
    }

    /// A change confined to the ledger preserves well-formedness, provided
    /// the new ledger is itself sound.
    pub proof fn lemma_wf_currency_change(self, other: Pallet)
        requires
            self.wf(),
            other.currency.wf(),
            other.kitties == self.kitties,
            other.owned == self.owned,
            other.count == self.count,
            other.config == self.config,
        ensures
            other.wf(),
    {
        self.lemma_owned_frame(other);
        assert forall|i: int| 0 <= i < other.owned@.len() implies #[trigger] other.owned_entry_ok(i) by {
            assert(self.owned_entry_ok(i));
        }
        assert forall|i: int| 0 <= i < other.kitties@.len() implies
            list_contains(other.owned_of((#[trigger] other.kitties@[i]).owner),
                other.kitties@[i].dna@) by {
            assert(other.kitties@[i] == self.kitties@[i]);
            assert(list_contains(self.owned_of(self.kitties@[i].owner), self.kitties@[i].dna@));
            assert(other.owned_of(self.kitties@[i].owner) == self.owned_of(self.kitties@[i].owner));
        }
    }

    /// Position of `dna` within a list of identifiers, if present.
    fn find_dna_pos(l: &Vec<KittyDna>, dna: &KittyDna) -> (r: Option<usize>)
        ensures
            match r {
                Some(j) => j < l@.len() && (l@[j as int])@ == dna@,
                None => forall|j: int| 0 <= j < l@.len() ==> (#[trigger] l@[j])@ != dna@,
            },
    {
        let mut j: usize = 0;
        while j < l.len()
            invariant
                j <= l@.len(),
                forall|p: int| 0 <= p < j ==> (#[trigger] l@[p])@ != dna@,
            decreases l@.len() - j,
        {
            if dna_eq(&l[j], dna) {
                return Some(j);
            }
            j += 1;
        }
        None
    }

    /// Removes `dna` from `from`'s index entry by swapping the last listed
    /// identifier into its place.
    fn remove_owned(&mut self, from: u64, dna: &KittyDna)
        requires
            keys_unique(old(self).owned@),
            list_contains(old(self).owned_of(from), dna@),
        ensures
            keys_unique(final(self).owned@),
            exists|j: int| 0 <= j < old(self).owned_of(from).len()
                && (#[trigger] old(self).owned_of(from)[j])@ == dna@
                && final(self).owned_of(from) == old(self).owned_of(from).update(j,
                    old(self).owned_of(from).last()).drop_last(),
            forall|a: u64| a != from ==> #[trigger] final(self).owned_of(a) == old(self).owned_of(a),
            final(self).kitties == old(self).kitties,
            final(self).count == old(self).count,
            final(self).currency == old(self).currency,
            final(self).config == old(self).config,
            final(self).block_number == old(self).block_number,
            final(self).extrinsic_index == old(self).extrinsic_index,
            final(self).random_seed == old(self).random_seed,
    {
        match find_key(&self.owned, from) {
            Some(i) => {
                proof {
                    lemma_assoc_get_at(self.owned@, i as int);
                }
                match Self::find_dna_pos(&self.owned[i].1, dna) {
                    Some(j) => {
                        let _removed = self.owned[i].1.swap_remove(j);
                        proof {
                            let s = old(self).owned@;
                            let l2 = self.owned@[i as int].1;
                            assert(l2@ == old(self).owned_of(from).update(j as int,
                                old(self).owned_of(from).last()).drop_last());
                            assert(self.owned@ == s.update(i as int, (s[i as int].0, l2)));
                            assert forall|a: u64| a != from implies #[trigger] self.owned_of(a)
                                == old(self).owned_of(a) by {
                                lemma_assoc_get_update(s, i as int, l2, a);
                            }
                            lemma_assoc_get_update(s, i as int, l2, from);
                        }
                    },
                    None => {
                        proof {
                            assert(false);
                        }
                    },
                }
            },
            None => {
                proof {
                    lemma_assoc_get_absent(self.owned@, from);
                    assert(old(self).owned_of(from) == Seq::<KittyDna>::empty());
                    assert(false);
                }
            },
        }
    }

    /// Hands the record at registry index `reg_i` to `to`: appends its
    /// identifier to the recipient's entry, swap-removes it from the current
    /// owner's entry, and rewrites the record's owner field. The caller has
    /// already checked capacity; the ledger is untouched.
    fn reassign_owner(&mut self, reg_i: usize, to: u64)
        requires
            old(self).wf(),
            reg_i < old(self).kitties@.len(),
            old(self).kitties@[reg_i as int].owner != to,
            old(self).owned_of(to).len() < old(self).config.max_kitties_owned,
        ensures
            final(self).wf(),
            final(self).kitties@ == old(self).kitties@.update(reg_i as int, Kitty {
                dna: old(self).kitties@[reg_i as int].dna,
                price: old(self).kitties@[reg_i as int].price,
                owner: to,
            }),
            final(self).owned_of(to) == old(self).owned_of(to).push(
                old(self).kitties@[reg_i as int].dna),
            final(self).owned_of(old(self).kitties@[reg_i as int].owner).len()
                == old(self).owned_of(old(self).kitties@[reg_i as int].owner).len() - 1,
            forall|x: Seq<u8>| #[trigger] list_contains(final(self).owned_of(
                old(self).kitties@[reg_i as int].owner), x)
                <==> (list_contains(old(self).owned_of(old(self).kitties@[reg_i as int].owner), x)
                    && x != old(self).kitties@[reg_i as int].dna@),
            forall|a: u64| a != to && a != old(self).kitties@[reg_i as int].owner
                ==> #[trigger] final(self).owned_of(a) == old(self).owned_of(a),
            final(self).count == old(self).count,
            final(self).currency == old(self).currency,
            final(self).config == old(self).config,
            final(self).block_number == old(self).block_number,
            final(self).extrinsic_index == old(self).extrinsic_index,
            final(self).random_seed == old(self).random_seed,
    {
        let k = self.kitties[reg_i];
        let from = k.owner;
        proof {
            lemma_kitty_at(self.kitties@, reg_i as int);
            old(self).lemma_owned_props(from);
            old(self).lemma_owned_props(to);
        }
        self.append_owned(to, k.dna);
        let ghost mid1 = *self;
        proof {
            assert(mid1.owned_of(from) == old(self).owned_of(from));
            assert(list_contains(mid1.owned_of(from), k.dna@));
        }
        self.remove_owned(from, &k.dna);
        let ghost mid2 = *self;
        let k2 = Kitty { dna: k.dna, price: k.price, owner: to };
        self.kitties[reg_i] = k2;
        proof {
            let s0 = *old(self);
            let s = s0.kitties@;
            let s2 = self.kitties@;
            let d = k.dna@;
            assert(s2 == s.update(reg_i as int, k2));
            lemma_kitty_update(s, reg_i as int, k2, d);
            assert forall|x: Seq<u8>| x != d implies kitty_in(s2, x) == kitty_in(s, x) by {
                lemma_kitty_update(s, reg_i as int, k2, x);
            }
            // The index after both list edits, seen from the final state.
            let l0 = s0.owned_of(from);
            let j = choose|j: int| 0 <= j < l0.len() && (#[trigger] l0[j])@ == d
                && mid2.owned_of(from) == l0.update(j, l0.last()).drop_last();
            lemma_swap_remove(l0, j, d);
            assert forall|a: u64| true implies #[trigger] self.owned_of(a) == mid2.owned_of(a) by {
                assert(self.owned@ == mid2.owned@);
            }
            assert(self.owned_of(to) == s0.owned_of(to).push(k.dna));
            assert(self.owned_of(from) == l0.update(j, l0.last()).drop_last());
            assert forall|a: u64| a != to && a != from implies #[trigger] self.owned_of(a)
                == s0.owned_of(a) by {
                assert(mid2.owned_of(a) == mid1.owned_of(a));
                assert(mid1.owned_of(a) == s0.owned_of(a));
            }
            // No listed identifier of another account is this record's: it
            // resolves to a record with a different owner.
            assert forall|a: u64, p: int| a != from && 0 <= p < s0.owned_of(a).len() implies
                (#[trigger] s0.owned_of(a)[p])@ != d by {
                s0.lemma_owned_props(a);
                assert(kitty_in(s, s0.owned_of(a)[p]@) matches Some(kk) && kk.owner == a);
            }
            // Index entries are sound in the final state.
            assert forall|i: int| 0 <= i < self.owned@.len() implies #[trigger] self.owned_entry_ok(i) by {
                let a = self.owned@[i].0;
                let l = self.owned@[i].1@;
                lemma_assoc_get_at(self.owned@, i);
                assert(self.owned_of(a) == l);
                s0.lemma_owned_props(a);
                if a == to {
                    let lt = s0.owned_of(to);
                    assert(l == lt.push(k.dna));
                    assert forall|p: int, q: int| 0 <= p < q < l.len() implies
                        (#[trigger] l[p])@ != (#[trigger] l[q])@ by {
                        if q < lt.len() {
                            assert(l[p] == lt[p] && l[q] == lt[q]);
                        } else {
                            assert(l[p] == lt[p] && l[q] == k.dna);
                        }
                    }
                    assert forall|p: int| 0 <= p < l.len() implies
                        (kitty_in(s2, (#[trigger] l[p])@) matches Some(kk) && kk.owner == a) by {
                        if p < lt.len() {
                            assert(l[p] == lt[p]);
                            assert(l[p]@ != d);
                            assert(kitty_in(s2, l[p]@) == kitty_in(s, l[p]@));
                        } else {
                            assert(l[p] == k.dna);
                        }
                    }
                } else if a == from {
                    assert(l == l0.update(j, l0.last()).drop_last());
                    assert(l.len() == l0.len() - 1);
                    assert forall|p: int| 0 <= p < l.len() implies
                        (kitty_in(s2, (#[trigger] l[p])@) matches Some(kk) && kk.owner == a) by {
                        assert(list_contains(l0, l[p]@) && l[p]@ != d);
                        let q = choose|q: int| 0 <= q < l0.len() && (#[trigger] l0[q])@ == l[p]@;
                        assert(kitty_in(s, l0[q]@) matches Some(kk) && kk.owner == from);
                        assert(kitty_in(s2, l[p]@) == kitty_in(s, l[p]@));
                    }
                } else {
                    assert(l == s0.owned_of(a));
                    assert forall|p: int| 0 <= p < l.len() implies
                        (kitty_in(s2, (#[trigger] l[p])@) matches Some(kk) && kk.owner == a) by {
                        assert(l[p]@ != d);
                        assert(kitty_in(s2, l[p]@) == kitty_in(s, l[p]@));
                    }
                }
            }
            // Every record is still listed by its owner.
            assert forall|i: int| 0 <= i < s2.len() implies
                list_contains(self.owned_of((#[trigger] s2[i]).owner), s2[i].dna@) by {
                if i == reg_i as int {
                    let lt2 = self.owned_of(to);
                    assert(lt2[lt2.len() - 1] == k.dna);
                    assert(list_contains(lt2, d));
                } else {
                    let rec = s[i];
                    assert(s2[i] == rec);
                    assert(rec.dna@ != d);
                    assert(list_contains(s0.owned_of(rec.owner), rec.dna@));
                    if rec.owner == from {
                        assert(list_contains(self.owned_of(from), rec.dna@));
                    } else if rec.owner == to {
                        let lt = s0.owned_of(to);
                        let q = choose|q: int| 0 <= q < lt.len() && (#[trigger] lt[q])@ == rec.dna@;
                        assert(self.owned_of(to)[q] == lt[q]);
                        assert(list_contains(self.owned_of(to), rec.dna@));
                    } else {
                        assert(self.owned_of(rec.owner) == s0.owned_of(rec.owner));
                    }
                }
            }
        }
    }

    /// Registers a freshly generated asset for `owner`: appends it to the
    /// owner's index entry, reserves its price, inserts the record and
    /// commits the counter. The caller has already performed every check.
    fn commit_new_kitty(&mut self, owner: u64, dna: KittyDna)
        requires
            old(self).wf(),
            old(self).currency.spec_can_reserve(owner, old(self).config.kitty_price),
            !old(self).has_kitty(dna@),
            old(self).owned_of(owner).len() < old(self).config.max_kitties_owned,
            old(self).count < old(self).config.max_kitties_count,
        ensures
            final(self).wf(),
            final(self).kitties@ == old(self).kitties@.push(Kitty {
                dna,
                price: old(self).config.kitty_price,
                owner,
            }),
            final(self).count == old(self).count + 1,
            final(self).owned_of(owner) == old(self).owned_of(owner).push(dna),
            forall|a: u64| a != owner ==> #[trigger] final(self).owned_of(a) == old(self).owned_of(a),
            final(self).currency.balance_of(owner) == (Balance {
                free: (old(self).currency.free_of(owner) - old(self).config.kitty_price) as u128,
                reserved: (old(self).currency.reserved_of(owner) + old(self).config.kitty_price) as u128,
            }),
            forall|a: u64| a != owner
                ==> #[trigger] final(self).currency.balance_of(a) == old(self).currency.balance_of(a),
            final(self).config == old(self).config,
            final(self).block_number == old(self).block_number,
            final(self).extrinsic_index == old(self).extrinsic_index,
            final(self).random_seed == old(self).random_seed,
            old(self).reservation_consistent() ==> final(self).reservation_consistent(),
    {
        let price = self.config.kitty_price;
        proof {
            assert forall|j: int| 0 <= j < self.kitties@.len() implies
                (#[trigger] self.kitties@[j].dna)@ != dna@ by {
                if self.kitties@[j].dna@ == dna@ {
                    lemma_kitty_at(self.kitties@, j);
                }
            }
        }
        self.append_owned(owner, dna);
        let ghost mid = *self;
        let reserved = self.currency.reserve(owner, price);
        proof {
            assert(reserved is Ok);
        }
        let record = Kitty { dna, price, owner };
        self.kitties.push(record);
        self.count = self.count + 1;
        proof {
            let s0 = *old(self);
            let k = record;
            let s = s0.kitties@;
            let s2 = self.kitties@;
            assert(s2 == s.push(k));
            lemma_kitty_push(s, k, dna@);
            // Lookup of any other identifier is unchanged; the fresh one now
            // resolves to the new record.
            assert forall|x: Seq<u8>| x != dna@ implies kitty_in(s2, x) == kitty_in(s, x) by {
                lemma_kitty_push(s, k, x);
            }
            // The index is as the append left it.
            assert forall|a: u64| true implies #[trigger] self.owned_of(a) == (if a == owner {
                s0.owned_of(owner).push(dna)
            } else {
                s0.owned_of(a)
            }) by {
                assert(self.owned@ == mid.owned@);
                assert(self.owned_of(a) == mid.owned_of(a));
                if a == owner {
                    assert(mid.owned_of(owner) == s0.owned_of(owner).push(dna));
                } else {
                    assert(mid.owned_of(a) == s0.owned_of(a));
                }
            }
            // Index entries remain sound.
            assert forall|i: int| 0 <= i < self.owned@.len() implies #[trigger] self.owned_entry_ok(i) by {
                let a = self.owned@[i].0;
                let l = self.owned@[i].1@;
                lemma_assoc_get_at(self.owned@, i);
                assert(self.owned_of(a) == l);
                s0.lemma_owned_props(a);
                let l0 = s0.owned_of(a);
                assert forall|j: int| 0 <= j < l0.len() implies (#[trigger] l0[j])@ != dna@ by {
                    assert(kitty_in(s, l0[j]@) is Some);
                }
                if a == owner {
                    assert(l == l0.push(dna));
                    assert(l0.len() < s0.config.max_kitties_owned);
                    assert forall|p: int, q: int| 0 <= p < q < l.len() implies
                        (#[trigger] l[p])@ != (#[trigger] l[q])@ by {
                        if q < l0.len() {
                            assert(l[p] == l0[p]);
                            assert(l[q] == l0[q]);
                        } else {
                            assert(l[p] == l0[p]);
                            assert(l[q] == dna);
                        }
                    }
                    assert forall|j: int| 0 <= j < l.len() implies
                        (kitty_in(s2, (#[trigger] l[j])@) matches Some(kk) && kk.owner == a) by {
                        if j < l0.len() {
                            assert(l[j] == l0[j]);
                            assert(l[j]@ != dna@);
                        } else {
                            assert(l[j] == dna);
                        }
                    }
                } else {
                    // An entry of another account is untouched, and its
                    // identifiers are all old, so they resolve as before.
                    assert(l == l0);
                    assert forall|j: int| 0 <= j < l.len() implies
                        (kitty_in(s2, (#[trigger] l[j])@) matches Some(kk) && kk.owner == a) by {
                        assert(kitty_in(s, l[j]@) is Some);
                        assert(l[j]@ != dna@);
                    }
                }
            }
            // Every record is still listed by its owner.
            assert forall|i: int| 0 <= i < s2.len() implies
                list_contains(self.owned_of((#[trigger] s2[i]).owner), s2[i].dna@) by {
                if i < s.len() {
                    let kown = s2[i].owner;
                    assert(s2[i] == s[i]);
                    assert(list_contains(s0.owned_of(kown), s[i].dna@));
                    let j = choose|j: int| 0 <= j < s0.owned_of(kown).len()
                        && (#[trigger] s0.owned_of(kown)[j])@ == s[i].dna@;
                    if kown == owner {
                        assert(self.owned_of(kown)[j] == s0.owned_of(kown)[j]);
                    } else {
                        assert(self.owned_of(kown) == s0.owned_of(kown));
                    }
                    assert(list_contains(self.owned_of(kown), s2[i].dna@));
                } else {
                    let l = self.owned_of(owner);
                    assert(l[l.len() - 1] == dna);
                    assert(list_contains(l, dna@));
                }
            }
            // Reserved balances still mirror the price sums.
            if s0.reservation_consistent() {
                assert forall|a: u64| true implies #[trigger] self.currency.reserved_of(a) as int
                    == sum_owned_prices(s2, a) by {
                    lemma_sum_push(s, k, a);
                    assert(s0.currency.reserved_of(a) as int == sum_owned_prices(s, a));
                    if a == owner {
                        assert(s0.currency.reserved_of(owner) + price <= u128::MAX);
                        assert(self.currency.balance_of(owner).reserved
                            == (s0.currency.reserved_of(owner) + price) as u128);
                    } else {
                        assert(self.currency.balance_of(a) == s0.currency.balance_of(a));
                    }
                }
            }
        }
    }

    /// Why a mint by `owner` would be refused, if it would be.
    pub open spec fn mint_error(self, owner: u64) -> Option<Error> {
        if !self.currency.spec_can_reserve(owner, self.config.kitty_price) {
            Some(Error::InsufficientBalance)
        } else if self.count >= self.config.max_kitties_count {
            Some(Error::TotalCapacityExceeded)
        } else if self.has_kitty(self.spec_gen_dna(owner)) {
            Some(Error::DuplicateAsset)
        } else if self.owned_of(owner).len() >= self.config.max_kitties_owned {
            Some(Error::OwnerCapacityExceeded)
        } else {
            None
        }
    }

    /// Mints a new asset for `owner`: charges and reserves the configured
    /// price, derives a fresh identifier, and registers the asset, provided
    /// the owner can pay, neither the global cap nor the owner's capacity is
    /// exceeded, and the identifier does not collide.
    pub fn create_kitty(&mut self, owner: u64) -> (r: Result<Event, Error>)
        requires
            old(self).wf(),
        ensures
            final(self).wf(),
            old(self).mint_error(owner) matches Some(e) ==> r == Err::<Event, Error>(e)
                && *final(self) == *old(self),
            old(self).mint_error(owner) is None ==> (r matches Ok(ev)
                && ev matches Event::KittyCreated(d, w)
                && w == owner
                && d@ == old(self).spec_gen_dna(owner)
                && !old(self).has_kitty(d@)
                && final(self).spec_kitty(d@) == Some(Kitty {
                    dna: d,
                    price: old(self).config.kitty_price,
                    owner,
                })
                && final(self).kitties@ == old(self).kitties@.push(Kitty {
                    dna: d,
                    price: old(self).config.kitty_price,
                    owner,
                })
                && final(self).count == old(self).count + 1
                && final(self).owned_of(owner) == old(self).owned_of(owner).push(d)
                && (forall|a: u64| a != owner
                    ==> #[trigger] final(self).owned_of(a) == old(self).owned_of(a))
                && final(self).currency.balance_of(owner) == (Balance {
                    free: (old(self).currency.free_of(owner) - old(self).config.kitty_price) as u128,
                    reserved: (old(self).currency.reserved_of(owner)
                        + old(self).config.kitty_price) as u128,
                })
                && (forall|a: u64| a != owner
                    ==> #[trigger] final(self).currency.balance_of(a)
                        == old(self).currency.balance_of(a))),
            final(self).config == old(self).config,
            final(self).block_number == old(self).block_number,
            final(self).extrinsic_index == old(self).extrinsic_index,
            final(self).random_seed == old(self).random_seed,
            old(self).reservation_consistent() ==> final(self).reservation_consistent(),
    {
        let price = self.config.kitty_price;
        if !self.currency.can_reserve(owner, price) {
            return Err(Error::InsufficientBalance);
        }
        if self.count >= self.config.max_kitties_count {
            return Err(Error::TotalCapacityExceeded);
        }
        let dna = self.gen_random_value(owner);
        match self.find_kitty_index(&dna) {
            Some(i) => {
                proof {
                    lemma_kitty_at(self.kitties@, i as int);
                }
                return Err(Error::DuplicateAsset);
            },
            None => {
                proof {
                    lemma_kitty_absent(self.kitties@, dna@);
                }
            },
        }
        let owned_len: usize = match find_key(&self.owned, owner) {
            Some(i) => {
                proof {
                    lemma_assoc_get_at(self.owned@, i as int);
                }
                self.owned[i].1.len()
            },
            None => {
                proof {
                    lemma_assoc_get_absent(self.owned@, owner);
                }
                0
            },
        };
        if owned_len >= self.config.max_kitties_owned as usize {
            return Err(Error::OwnerCapacityExceeded);
        }
        self.commit_new_kitty(owner, dna);
        proof {
            lemma_kitty_push(old(self).kitties@, Kitty { dna, price, owner }, dna@);
        }
        Ok(Event::KittyCreated(dna, owner))
    }

    /// The child code a breeding by `owner` would produce from the two
    /// parents in the current host context: the crossover of the parents'
    /// codes under a freshly derived selector.
    pub open spec fn spec_child_dna(self, owner: u64, parent_1: Seq<u8>, parent_2: Seq<u8>) -> Seq<u8> {
        match (self.spec_kitty(parent_1), self.spec_kitty(parent_2)) {
            (Some(k1), Some(k2)) => combine_code(k1.dna@, k2.dna@, self.spec_gen_dna(owner)),
            _ => Seq::empty(),
        }
    }

    /// Why a breeding by `owner` would be refused, if it would be.
    pub open spec fn breed_error(self, owner: u64, parent_1: Seq<u8>, parent_2: Seq<u8>) -> Option<Error> {
        match (self.spec_kitty(parent_1), self.spec_kitty(parent_2)) {
            (Some(k1), Some(k2)) => {
                if k1.owner != owner || k2.owner != owner {
                    Some(Error::NotOwner)
                } else if parent_1 == parent_2 {
                    Some(Error::IdenticalParents)
                } else if !self.currency.spec_can_reserve(owner, self.config.kitty_price) {
                    Some(Error::InsufficientBalance)
                } else if self.has_kitty(self.spec_child_dna(owner, parent_1, parent_2)) {
                    Some(Error::DuplicateAsset)
                } else if self.count >= self.config.max_kitties_count {
                    Some(Error::TotalCapacityExceeded)
                } else if self.owned_of(owner).len() >= self.config.max_kitties_owned {
                    Some(Error::OwnerCapacityExceeded)
                } else {
                    None
                }
            },
            _ => Some(Error::AssetNotFound),
        }
    }

    /// Breeds a new asset for `owner` from two parents the owner holds:
    /// derives a selector, crosses the parents' codes into a child code, and
    /// registers the child at the configured price, under the same funding,
    /// collision and capacity rules as minting.
    pub fn breed_kitty(&mut self, owner: u64, parent_1: KittyDna, parent_2: KittyDna)
        -> (r: Result<Event, Error>)
        requires
            old(self).wf(),
        ensures
            final(self).wf(),
            old(self).breed_error(owner, parent_1@, parent_2@) matches Some(e)
                ==> r == Err::<Event, Error>(e) && *final(self) == *old(self),
            old(self).breed_error(owner, parent_1@, parent_2@) is None ==> (r matches Ok(ev)
                && ev matches Event::KittyBred(d, w)
                && w == owner
                && d@ == old(self).spec_child_dna(owner, parent_1@, parent_2@)
                && !old(self).has_kitty(d@)
                && final(self).spec_kitty(d@) == Some(Kitty {
                    dna: d,
                    price: old(self).config.kitty_price,
                    owner,
                })
                && final(self).kitties@ == old(self).kitties@.push(Kitty {
                    dna: d,
                    price: old(self).config.kitty_price,
                    owner,
                })
                && final(self).count == old(self).count + 1
                && final(self).owned_of(owner) == old(self).owned_of(owner).push(d)
                && (forall|a: u64| a != owner
                    ==> #[trigger] final(self).owned_of(a) == old(self).owned_of(a))
                && final(self).currency.balance_of(owner) == (Balance {
                    free: (old(self).currency.free_of(owner) - old(self).config.kitty_price) as u128,
                    reserved: (old(self).currency.reserved_of(owner)
                        + old(self).config.kitty_price) as u128,
                })
                && (forall|a: u64| a != owner
                    ==> #[trigger] final(self).currency.balance_of(a)
                        == old(self).currency.balance_of(a))),
            final(self).config == old(self).config,
            final(self).block_number == old(self).block_number,
            final(self).extrinsic_index == old(self).extrinsic_index,
            final(self).random_seed == old(self).random_seed,
            old(self).reservation_consistent() ==> final(self).reservation_consistent(),
    {
        let kitty_1 = match self.find_kitty_index(&parent_1) {
            Some(i) => {
                proof {
                    lemma_kitty_at(self.kitties@, i as int);
                }
                self.kitties[i]
            },
            None => {
                proof {
                    lemma_kitty_absent(self.kitties@, parent_1@);
                }
                return Err(Error::AssetNotFound);
            },
        };
        let kitty_2 = match self.find_kitty_index(&parent_2) {
            Some(i) => {
                proof {
                    lemma_kitty_at(self.kitties@, i as int);
                }
                self.kitties[i]
            },
            None => {
                proof {
                    lemma_kitty_absent(self.kitties@, parent_2@);
                }
                return Err(Error::AssetNotFound);
            },
        };
        if kitty_1.owner != owner {
            return Err(Error::NotOwner);
        }
        if kitty_2.owner != owner {
            return Err(Error::NotOwner);
        }
        if dna_eq(&parent_1, &parent_2) {
            return Err(Error::IdenticalParents);
        }
        let price = self.config.kitty_price;
        if !self.currency.can_reserve(owner, price) {
            return Err(Error::InsufficientBalance);
        }
        let selector = self.gen_random_value(owner);
        let dna = combine(&kitty_1.dna, &kitty_2.dna, &selector);
        match self.find_kitty_index(&dna) {
            Some(i) => {
                proof {
                    lemma_kitty_at(self.kitties@, i as int);
                }
                return Err(Error::DuplicateAsset);
            },
            None => {
                proof {
                    lemma_kitty_absent(self.kitties@, dna@);
                }
            },
        }
        if self.count >= self.config.max_kitties_count {
            return Err(Error::TotalCapacityExceeded);
        }
        let owned_len: usize = match find_key(&self.owned, owner) {
            Some(i) => {
                proof {
                    lemma_assoc_get_at(self.owned@, i as int);
                }
                self.owned[i].1.len()
            },
            None => {
                proof {
                    lemma_assoc_get_absent(self.owned@, owner);
                }
                0
            },
        };
        if owned_len >= self.config.max_kitties_owned as usize {
            return Err(Error::OwnerCapacityExceeded);
        }
        self.commit_new_kitty(owner, dna);
        proof {
            lemma_kitty_push(old(self).kitties@, Kitty { dna, price, owner }, dna@);
        }
        Ok(Event::KittyBred(dna, owner))
    }

    /// Why a transfer would be refused, if it would be.
    pub open spec fn transfer_error(self, from: u64, to: u64, dna: Seq<u8>) -> Option<Error> {
        if from == to {
            Some(Error::TransferToSelf)
        } else {
            match self.spec_kitty(dna) {
                None => Some(Error::AssetNotFound),
                Some(k) => if k.owner != from {
                    Some(Error::NotOwner)
                } else if !self.currency.spec_can_reserve(to, k.price) {
                    Some(Error::InsufficientBalance)
                } else if self.owned_of(to).len() >= self.config.max_kitties_owned {
                    Some(Error::OwnerCapacityExceeded)
                } else {
                    None
                },
            }
        }
    }

    /// Transfers an asset from its owner `from` to `to`: the recipient
    /// reserves the asset's price, the sender's reservation for it is
    /// released, and the record and both index entries change hands. Any
    /// failed check leaves every list and every balance untouched.
    pub fn transfer_kitty(&mut self, from: u64, to: u64, dna: KittyDna) -> (r: Result<Event, Error>)
        requires
            old(self).wf(),
        ensures
            final(self).wf(),
            old(self).transfer_error(from, to, dna@) matches Some(e)
                ==> r == Err::<Event, Error>(e) && *final(self) == *old(self),
            old(self).transfer_error(from, to, dna@) is None ==> (
                r == Ok::<Event, Error>(Event::KittyTransferred(from, to, dna))
                && (old(self).spec_kitty(dna@) matches Some(k)
                    && final(self).spec_kitty(dna@) == Some(Kitty {
                        dna: k.dna,
                        price: k.price,
                        owner: to,
                    })
                    && (forall|x: Seq<u8>| x != dna@
                        ==> #[trigger] final(self).spec_kitty(x) == old(self).spec_kitty(x))
                    && final(self).kitties@.len() == old(self).kitties@.len()
                    && final(self).owned_of(to) == old(self).owned_of(to).push(k.dna)
                    && final(self).owned_of(from).len() == old(self).owned_of(from).len() - 1
                    && (forall|x: Seq<u8>| #[trigger] list_contains(final(self).owned_of(from), x)
                        <==> (list_contains(old(self).owned_of(from), x) && x != dna@))
                    && (forall|a: u64| a != from && a != to
                        ==> #[trigger] final(self).owned_of(a) == old(self).owned_of(a))
                    && final(self).currency.balance_of(to) == (Balance {
                        free: (old(self).currency.free_of(to) - k.price) as u128,
                        reserved: (old(self).currency.reserved_of(to) + k.price) as u128,
                    })
                    && final(self).currency.balance_of(from) == (Balance {
                        free: (old(self).currency.free_of(from)
                            + min_u128(k.price, old(self).currency.reserved_of(from))) as u128,
                        reserved: (old(self).currency.reserved_of(from)
                            - min_u128(k.price, old(self).currency.reserved_of(from))) as u128,
                    })
                    && (forall|a: u64| a != from && a != to
                        ==> #[trigger] final(self).currency.balance_of(a)
                            == old(self).currency.balance_of(a)))),
            final(self).count == old(self).count,
            final(self).config == old(self).config,
            final(self).block_number == old(self).block_number,
            final(self).extrinsic_index == old(self).extrinsic_index,
            final(self).random_seed == old(self).random_seed,
            old(self).reservation_consistent() ==> final(self).reservation_consistent(),
    {
        if from == to {
            return Err(Error::TransferToSelf);
        }
        let reg_i: usize = match self.find_kitty_index(&dna) {
            Some(i) => {
                proof {
                    lemma_kitty_at(self.kitties@, i as int);
                }
                i
            },
            None => {
                proof {
                    lemma_kitty_absent(self.kitties@, dna@);
                }
                return Err(Error::AssetNotFound);
            },
        };
        let k = self.kitties[reg_i];
        if k.owner != from {
            return Err(Error::NotOwner);
        }
        if !self.currency.can_reserve(to, k.price) {
            return Err(Error::InsufficientBalance);
        }
        let owned_len: usize = match find_key(&self.owned, to) {
            Some(i) => {
                proof {
                    lemma_assoc_get_at(self.owned@, i as int);
                }
                self.owned[i].1.len()
            },
            None => {
                proof {
                    lemma_assoc_get_absent(self.owned@, to);
                }
                0
            },
        };
        if owned_len >= self.config.max_kitties_owned as usize {
            return Err(Error::OwnerCapacityExceeded);
        }
        let reserved = self.currency.reserve(to, k.price);
        proof {
            assert(reserved is Ok);
        }
        let ghost mid1 = *self;
        proof {
            old(self).lemma_wf_currency_change(mid1);
            old(self).lemma_owned_frame(mid1);
            old(self).lemma_kitty_frame(mid1);
        }
        self.reassign_owner(reg_i, to);
        let ghost mid2 = *self;
        self.currency.unreserve(from, k.price);
        proof {
            let s0 = *old(self);
            let k2 = Kitty { dna: k.dna, price: k.price, owner: to };
            mid2.lemma_wf_currency_change(*self);
            mid2.lemma_owned_frame(*self);
            mid2.lemma_kitty_frame(*self);
            mid1.lemma_owned_frame(s0);
            mid1.lemma_kitty_frame(s0);
            assert(self.kitties@ == s0.kitties@.update(reg_i as int, k2));
            lemma_kitty_update(s0.kitties@, reg_i as int, k2, dna@);
            assert forall|x: Seq<u8>| x != dna@ implies #[trigger] self.spec_kitty(x)
                == s0.spec_kitty(x) by {
                lemma_kitty_update(s0.kitties@, reg_i as int, k2, x);
            }
            if s0.reservation_consistent() {
                assert forall|a: u64| true implies #[trigger] self.currency.reserved_of(a) as int
                    == sum_owned_prices(self.kitties@, a) by {
                    lemma_sum_update(s0.kitties@, reg_i as int, k2, a);
                    assert(s0.currency.reserved_of(a) as int == sum_owned_prices(s0.kitties@, a));
                    if a == from {
                        lemma_sum_ge_elem(s0.kitties@, reg_i as int, from);
                        assert(min_u128(k.price, mid2.currency.reserved_of(from)) == k.price);
                    } else if a == to {
                        assert(s0.currency.reserved_of(to) + k.price <= u128::MAX);
                        assert(self.currency.balance_of(to) == mid2.currency.balance_of(to));
                    } else {
                        assert(self.currency.balance_of(a) == mid2.currency.balance_of(a));
                        assert(mid2.currency.balance_of(a) == s0.currency.balance_of(a));
                    }
                }
            }
        }
        Ok(Event::KittyTransferred(from, to, dna))
    }

    /// Why a repricing would be refused, if it would be.
    pub open spec fn set_price_error(self, sender: u64, kitty_id: Seq<u8>) -> Option<Error> {
        match self.spec_kitty(kitty_id) {
            None => Some(Error::AssetNotFound),
            Some(k) => if k.owner != sender {
                Some(Error::NotOwner)
            } else {
                None
            },
        }
    }

    /// Sets the price of an asset the sender owns. Only the price field
    /// changes; existing reservations are not adjusted, so after a repricing
    /// the reservation reflects the price at acquisition time.
    pub fn set_price(&mut self, sender: u64, kitty_id: KittyDna, new_price: u128)
        -> (r: Result<Event, Error>)
        requires
            old(self).wf(),
        ensures
            final(self).wf(),
            old(self).set_price_error(sender, kitty_id@) matches Some(e)
                ==> r == Err::<Event, Error>(e) && *final(self) == *old(self),
            old(self).set_price_error(sender, kitty_id@) is None ==> (
                r == Ok::<Event, Error>(Event::PriceSet(kitty_id, new_price))
                && (old(self).spec_kitty(kitty_id@) matches Some(k)
                    && final(self).spec_kitty(kitty_id@) == Some(Kitty {
                        dna: k.dna,
                        price: new_price,
                        owner: k.owner,
                    }))
                && (forall|x: Seq<u8>| x != kitty_id@
                    ==> #[trigger] final(self).spec_kitty(x) == old(self).spec_kitty(x))
                && final(self).kitties@.len() == old(self).kitties@.len()),
            forall|a: u64| #[trigger] final(self).owned_of(a) == old(self).owned_of(a),
            final(self).currency == old(self).currency,
            final(self).count == old(self).count,
            final(self).config == old(self).config,
            final(self).block_number == old(self).block_number,
            final(self).extrinsic_index == old(self).extrinsic_index,
            final(self).random_seed == old(self).random_seed,
    {
        let reg_i: usize = match self.find_kitty_index(&kitty_id) {
            Some(i) => {
                proof {
                    lemma_kitty_at(self.kitties@, i as int);
                }
                i
            },
            None => {
                proof {
                    lemma_kitty_absent(self.kitties@, kitty_id@);
                }
                return Err(Error::AssetNotFound);
            },
        };
        let k = self.kitties[reg_i];
        if k.owner != sender {
            return Err(Error::NotOwner);
        }
        let k2 = Kitty { dna: k.dna, price: new_price, owner: k.owner };
        self.kitties[reg_i] = k2;
        proof {
            let s0 = *old(self);
            let s = s0.kitties@;
            let s2 = self.kitties@;
            let d = k.dna@;
            assert(s2 == s.update(reg_i as int, k2));
            lemma_kitty_update(s, reg_i as int, k2, d);
            assert forall|x: Seq<u8>| x != d implies #[trigger] self.spec_kitty(x)
                == s0.spec_kitty(x) by {
                lemma_kitty_update(s, reg_i as int, k2, x);
            }
            s0.lemma_owned_frame(*self);
            assert forall|i: int| 0 <= i < self.owned@.len() implies #[trigger] self.owned_entry_ok(i) by {
                let a = self.owned@[i].0;
                let l = self.owned@[i].1@;
                assert(s0.owned_entry_ok(i));
                assert forall|p: int| 0 <= p < l.len() implies
                    (kitty_in(s2, (#[trigger] l[p])@) matches Some(kk) && kk.owner == a) by {
                    assert(kitty_in(s, l[p]@) matches Some(kk) && kk.owner == a);
                    lemma_kitty_update(s, reg_i as int, k2, l[p]@);
                }
            }
            assert forall|i: int| 0 <= i < s2.len() implies
                list_contains(self.owned_of((#[trigger] s2[i]).owner), s2[i].dna@) by {
                assert(s2[i].owner == s[i].owner && s2[i].dna == s[i].dna);
                assert(list_contains(s0.owned_of(s[i].owner), s[i].dna@));
            }
        }
        Ok(Event::PriceSet(kitty_id, new_price))
    }

    /// Why a purchase would be refused, if it would be. The buyer must cover
    /// both the payment and the reservation for the acquired asset, and the
    /// seller must be able to hold the proceeds.
    pub open spec fn buy_error(self, kitty_id: Seq<u8>, buyer: u64, bid_price: u128) -> Option<Error> {
        match self.spec_kitty(kitty_id) {
            None => Some(Error::AssetNotFound),
            Some(k) => if k.owner == buyer {
                Some(Error::TransferToSelf)
            } else if self.owned_of(buyer).len() >= self.config.max_kitties_owned {
                Some(Error::OwnerCapacityExceeded)
            } else if bid_price < k.price {
                Some(Error::BidTooLow)
            } else if self.currency.free_of(buyer) < k.price + k.price {
                Some(Error::InsufficientBalance)
            } else if self.currency.free_of(k.owner) + self.currency.reserved_of(k.owner) + k.price
                > u128::MAX {
                Some(Error::InsufficientBalance)
            } else {
                None
            },
        }
    }

    /// Purchases an asset for `buyer` at a bid of at least the asking price:
    /// the buyer pays the asking price to the seller, reserves it against the
    /// acquired asset, the seller's reservation is released, and the asset
    /// changes hands.
    pub fn do_buy_kitty(&mut self, kitty_id: KittyDna, buyer: u64, bid_price: u128)
        -> (r: Result<Event, Error>)
        requires
            old(self).wf(),
        ensures
            final(self).wf(),
            old(self).buy_error(kitty_id@, buyer, bid_price) matches Some(e)
                ==> r == Err::<Event, Error>(e) && *final(self) == *old(self),
            old(self).buy_error(kitty_id@, buyer, bid_price) is None ==> (
                old(self).spec_kitty(kitty_id@) matches Some(k)
                && r == Ok::<Event, Error>(Event::Sold(k.owner, buyer, kitty_id, k.price))
                && final(self).spec_kitty(kitty_id@) == Some(Kitty {
                    dna: k.dna,
                    price: k.price,
                    owner: buyer,
                })
                && (forall|x: Seq<u8>| x != kitty_id@
                    ==> #[trigger] final(self).spec_kitty(x) == old(self).spec_kitty(x))
                && final(self).kitties@.len() == old(self).kitties@.len()
                && final(self).owned_of(buyer) == old(self).owned_of(buyer).push(k.dna)
                && final(self).owned_of(k.owner).len() == old(self).owned_of(k.owner).len() - 1
                && (forall|x: Seq<u8>| #[trigger] list_contains(final(self).owned_of(k.owner), x)
                    <==> (list_contains(old(self).owned_of(k.owner), x) && x != kitty_id@))
                && (forall|a: u64| a != k.owner && a != buyer
                    ==> #[trigger] final(self).owned_of(a) == old(self).owned_of(a))
                && final(self).currency.balance_of(buyer) == (Balance {
                    free: (old(self).currency.free_of(buyer) - k.price - k.price) as u128,
                    reserved: (old(self).currency.reserved_of(buyer) + k.price) as u128,
                })
                && final(self).currency.balance_of(k.owner) == (Balance {
                    free: (old(self).currency.free_of(k.owner)
                        + min_u128(k.price, old(self).currency.reserved_of(k.owner))
                        + k.price) as u128,
                    reserved: (old(self).currency.reserved_of(k.owner)
                        - min_u128(k.price, old(self).currency.reserved_of(k.owner))) as u128,
                })
                && (forall|a: u64| a != k.owner && a != buyer
                    ==> #[trigger] final(self).currency.balance_of(a)
                        == old(self).currency.balance_of(a))),
            final(self).count == old(self).count,
            final(self).config == old(self).config,
            final(self).block_number == old(self).block_number,
            final(self).extrinsic_index == old(self).extrinsic_index,
            final(self).random_seed == old(self).random_seed,
            old(self).reservation_consistent() ==> final(self).reservation_consistent(),
    {
        let reg_i: usize = match self.find_kitty_index(&kitty_id) {
            Some(i) => {
                proof {
                    lemma_kitty_at(self.kitties@, i as int);
                }
                i
            },
            None => {
                proof {
                    lemma_kitty_absent(self.kitties@, kitty_id@);
                }
                return Err(Error::AssetNotFound);
            },
        };
        let k = self.kitties[reg_i];
        let seller = k.owner;
        if seller == buyer {
            return Err(Error::TransferToSelf);
        }
        let owned_len: usize = match find_key(&self.owned, buyer) {
            Some(i) => {
                proof {
                    lemma_assoc_get_at(self.owned@, i as int);
                }
                self.owned[i].1.len()
            },
            None => {
                proof {
                    lemma_assoc_get_absent(self.owned@, buyer);
                }
                0
            },
        };
        if owned_len >= self.config.max_kitties_owned as usize {
            return Err(Error::OwnerCapacityExceeded);
        }
        if bid_price < k.price {
            return Err(Error::BidTooLow);
        }
        let buyer_free = self.currency.free_balance(buyer);
        match k.price.checked_add(k.price) {
            Some(twice) => {
                if buyer_free < twice {
                    return Err(Error::InsufficientBalance);
                }
            },
            None => {
                return Err(Error::InsufficientBalance);
            },
        }
        let seller_free = self.currency.free_balance(seller);
        let seller_reserved = self.currency.reserved_balance(seller);
        proof {
            self.currency.lemma_balance_bound(seller);
        }
        if seller_free + seller_reserved > u128::MAX - k.price {
            return Err(Error::InsufficientBalance);
        }
        let reserve_result = self.currency.reserve(buyer, k.price);
        proof {
            assert(reserve_result is Ok);
        }
        let ghost mid1 = *self;
        proof {
            old(self).lemma_wf_currency_change(mid1);
            old(self).lemma_owned_frame(mid1);
            old(self).lemma_kitty_frame(mid1);
        }
        self.reassign_owner(reg_i, buyer);
        let ghost mid2 = *self;
        self.currency.unreserve(seller, k.price);
        let ghost mid3 = *self;
        let pay_result = self.currency.transfer(buyer, seller, k.price);
        proof {
            let s0 = *old(self);
            assert(mid3.currency.free_of(buyer)
                == (s0.currency.free_of(buyer) - k.price) as u128);
            assert(mid3.currency.free_of(seller) + k.price + mid3.currency.reserved_of(seller)
                <= u128::MAX);
            assert(pay_result is Ok);
            let k2 = Kitty { dna: k.dna, price: k.price, owner: buyer };
            mid2.lemma_wf_currency_change(mid3);
            mid3.lemma_wf_currency_change(*self);
            mid2.lemma_owned_frame(*self);
            mid2.lemma_kitty_frame(*self);
            mid1.lemma_owned_frame(s0);
            mid1.lemma_kitty_frame(s0);
            assert(self.kitties@ == s0.kitties@.update(reg_i as int, k2));
            lemma_kitty_update(s0.kitties@, reg_i as int, k2, kitty_id@);
            assert forall|x: Seq<u8>| x != kitty_id@ implies #[trigger] self.spec_kitty(x)
                == s0.spec_kitty(x) by {
                lemma_kitty_update(s0.kitties@, reg_i as int, k2, x);
            }
            if s0.reservation_consistent() {
                assert forall|a: u64| true implies #[trigger] self.currency.reserved_of(a) as int
                    == sum_owned_prices(self.kitties@, a) by {
                    lemma_sum_update(s0.kitties@, reg_i as int, k2, a);
                    assert(s0.currency.reserved_of(a) as int == sum_owned_prices(s0.kitties@, a));
                    if a == seller {
                        lemma_sum_ge_elem(s0.kitties@, reg_i as int, seller);
                        assert(min_u128(k.price, mid2.currency.reserved_of(seller)) == k.price);
                        assert(self.currency.reserved_of(seller) == mid3.currency.reserved_of(seller));
                    } else if a == buyer {
                        assert(s0.currency.reserved_of(buyer) + k.price <= u128::MAX);
                        assert(self.currency.reserved_of(buyer) == mid3.currency.reserved_of(buyer));
                        assert(mid3.currency.balance_of(buyer) == mid2.currency.balance_of(buyer));
                    } else {
                        assert(self.currency.balance_of(a) == mid3.currency.balance_of(a));
                        assert(mid3.currency.balance_of(a) == mid2.currency.balance_of(a));
                        assert(mid2.currency.balance_of(a) == s0.currency.balance_of(a));
                    }
                }
            }
        }
        Ok(Event::Sold(seller, buyer, kitty_id, k.price))
    }

    /// Purchases an asset: the dispatchable wrapper around the purchase
    /// logic, in the buyer's name.
    pub fn buy_kitty(&mut self, buyer: u64, kitty_id: KittyDna, bid_price: u128)
        -> (r: Result<Event, Error>)
        requires
            old(self).wf(),
        ensures
            final(self).wf(),
            old(self).buy_error(kitty_id@, buyer, bid_price) matches Some(e)
                ==> r == Err::<Event, Error>(e) && *final(self) == *old(self),
            old(self).buy_error(kitty_id@, buyer, bid_price) is None ==> (
                old(self).spec_kitty(kitty_id@) matches Some(k)
                && r == Ok::<Event, Error>(Event::Sold(k.owner, buyer, kitty_id, k.price))
                && final(self).spec_kitty(kitty_id@) == Some(Kitty {
                    dna: k.dna,
                    price: k.price,
                    owner: buyer,
                })
                && final(self).owned_of(buyer) == old(self).owned_of(buyer).push(k.dna)
                && final(self).owned_of(k.owner).len() == old(self).owned_of(k.owner).len() - 1),
            final(self).count == old(self).count,
            final(self).config == old(self).config,
            old(self).reservation_consistent() ==> final(self).reservation_consistent(),
    {
        self.do_buy_kitty(kitty_id, buyer, bid_price)
    }

    /// The record stored under an identifier, if any.
    pub fn kitties(&self, dna: &KittyDna) -> (r: Option<Kitty>)
        requires
            self.wf(),
        ensures
            r == self.spec_kitty(dna@),
    {
        match self.find_kitty_index(dna) {
            Some(i) => {
                proof {
                    lemma_kitty_at(self.kitties@, i as int);
                }
                Some(self.kitties[i])
            },
            None => {
                proof {
                    lemma_kitty_absent(self.kitties@, dna@);
                }
                None
            },
        }
    }

    /// A snapshot of the identifiers `owner` currently holds.
    pub fn kitties_owned(&self, owner: u64) -> (r: Vec<KittyDna>)
        requires
            self.wf(),
        ensures
            r@ == self.owned_of(owner),
    {
        let mut r: Vec<KittyDna> = Vec::new();
        match find_key(&self.owned, owner) {
            Some(i) => {
                proof {
                    lemma_assoc_get_at(self.owned@, i as int);
                }
                let mut j: usize = 0;
                while j < self.owned[i].1.len()
                    invariant
                        i < self.owned@.len(),
                        j <= self.owned@[i as int].1@.len(),
                        r@ == self.owned@[i as int].1@.subrange(0, j as int),
                    decreases self.owned@[i as int].1@.len() - j,
                {
                    r.push(self.owned[i].1[j]);
                    proof {
                        assert(r@ =~= self.owned@[i as int].1@.subrange(0, j + 1));
                    }
                    j += 1;
                }
                proof {
                    assert(r@ =~= self.owned@[i as int].1@);
                }
            },
            None => {
                proof {
                    lemma_assoc_get_absent(self.owned@, owner);
                }
            },
        }
        r
    }

    /// The number of assets ever created.
    pub fn kitties_count(&self) -> (r: u32)
        ensures
            r == self.count,
    {
        self.count
    }

    /// The amount `who` has reserved against owned assets.
    pub fn reserved_balance(&self, who: u64) -> (r: u128)
        requires
            self.wf(),
        ensures
            r == self.currency.reserved_of(who),
    {
        self.currency.reserved_balance(who)
    }

    /// The freely spendable funds of `who`.
    pub fn free_balance(&self, who: u64) -> (r: u128)
        requires
            self.wf(),
        ensures
            r == self.currency.free_of(who),
    {
        self.currency.free_balance(who)
    }

    /// Endows `who` with `free` spendable funds and nothing reserved; a
    /// genesis operation for the host to set up accounts.
    pub fn set_balance(&mut self, who: u64, free: u128)
        requires
            old(self).wf(),
        ensures
            final(self).wf(),
            final(self).currency.balance_of(who) == (Balance { free, reserved: 0 }),
            forall|a: u64| a != who
                ==> #[trigger] final(self).currency.balance_of(a) == old(self).currency.balance_of(a),
            final(self).kitties == old(self).kitties,
            final(self).owned == old(self).owned,
            final(self).count == old(self).count,
            final(self).config == old(self).config,
            final(self).block_number == old(self).block_number,
            final(self).extrinsic_index == old(self).extrinsic_index,
            final(self).random_seed == old(self).random_seed,
            (old(self).reservation_consistent() && sum_owned_prices(old(self).kitties@, who) == 0)
                ==> final(self).reservation_consistent(),
    {
        self.currency.set_balance(who, free);
        proof {
            old(self).lemma_wf_currency_change(*self);
            if old(self).reservation_consistent()
                && sum_owned_prices(old(self).kitties@, who) == 0 {
                assert forall|a: u64| true implies #[trigger] self.currency.reserved_of(a) as int
                    == sum_owned_prices(self.kitties@, a) by {
                    assert(old(self).currency.reserved_of(a) as int
                        == sum_owned_prices(old(self).kitties@, a));
                    if a != who {
                        assert(self.currency.balance_of(a) == old(self).currency.balance_of(a));
                    }
                }
            }
        }
    }

    /// Sets the index of the extrinsic being executed, distinguishing calls
    /// within one block for identifier generation.
    pub fn set_extrinsic_index(&mut self, index: u32)
        requires
            old(self).wf(),
        ensures
            final(self).wf(),
            final(self).extrinsic_index == index,
            final(self).kitties == old(self).kitties,
            final(self).owned == old(self).owned,
            final(self).count == old(self).count,
            final(self).currency == old(self).currency,
            final(self).config == old(self).config,
            final(self).block_number == old(self).block_number,
            final(self).random_seed == old(self).random_seed,
            old(self).reservation_consistent() ==> final(self).reservation_consistent(),
    {
        self.extrinsic_index = index;
        proof {
            old(self).lemma_wf_currency_change(*self);
        }
    }

    /// Sets the current block number.
    pub fn set_block_number(&mut self, number: u64)
        requires
            old(self).wf(),
        ensures
            final(self).wf(),
            final(self).block_number == number,
            final(self).kitties == old(self).kitties,
            final(self).owned == old(self).owned,
            final(self).count == old(self).count,
            final(self).currency == old(self).currency,
            final(self).config == old(self).config,
            final(self).extrinsic_index == old(self).extrinsic_index,
            final(self).random_seed == old(self).random_seed,
            old(self).reservation_consistent() ==> final(self).reservation_consistent(),
    {
        self.block_number = number;
        proof {
            old(self).lemma_wf_currency_change(*self);
        }
    }

    /// Replaces the entropy that identifier generation mixes in.
    pub fn set_random_seed(&mut self, seed: [u8; 32])
        requires
            old(self).wf(),
        ensures
            final(self).wf(),
            final(self).random_seed == seed,
            final(self).kitties == old(self).kitties,
            final(self).owned == old(self).owned,
            final(self).count == old(self).count,
            final(self).currency == old(self).currency,
            final(self).config == old(self).config,
            final(self).block_number == old(self).block_number,
            final(self).extrinsic_index == old(self).extrinsic_index,
            old(self).reservation_consistent() ==> final(self).reservation_consistent(),
    {
        self.random_seed = seed;
        proof {
            old(self).lemma_wf_currency_change(*self);
        }
    }
}

} // verus!

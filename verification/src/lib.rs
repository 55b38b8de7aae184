//! A registry of uniquely identified digital assets that can be minted, bred
//! from two parents' genetic codes, transferred, priced and purchased, with a
//! balance-reservation ledger escrowing funds against ownership; alongside it,
//! a proof-of-existence claim store and an offchain-indexing key builder.

pub mod assoc;
pub mod encode;
pub mod dna;
pub mod hashing;
pub mod kitties;
pub mod ledger;
pub mod ocw;
pub mod poe;

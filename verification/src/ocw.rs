//! Offchain indexing: derives the storage key for the current block and the
//! encoded payload to store under it; the host performs the actual write to
//! offchain storage.

use vstd::prelude::*;
use crate::encode::{u32_le_bytes, u64_le_bytes, push_u32_le, push_u64_le};

verus! {

/// Notification describing a successful offchain store.
#[derive(Clone, Copy, PartialEq, Eq, Debug)]
pub enum Event {
    /// A payload was handed to offchain indexing. (caller, content)
    OffchainStored(u64, u32),
}

/// The host context the key derivation reads.
pub struct Pallet {
    /// Current block number, set by the host.
    pub block_number: u64,
}

/// The bytes of the key prefix, the ASCII of `ocw::storage::`.
pub open spec fn key_prefix() -> Seq<u8> {
    seq![
        0x6fu8, 0x63u8, 0x77u8, 0x3au8, 0x3au8, 0x73u8, 0x74u8, 0x6fu8, 0x72u8, 0x61u8,
        0x67u8, 0x65u8, 0x3au8, 0x3au8,
    ]
}

/// The bytes of the stored text prefix, the ASCII of `off-chain content: `.
pub open spec fn content_prefix() -> Seq<u8> {
    seq![
        0x6fu8, 0x66u8, 0x66u8, 0x2du8, 0x63u8, 0x68u8, 0x61u8, 0x69u8, 0x6eu8, 0x20u8,
        0x63u8, 0x6fu8, 0x6eu8, 0x74u8, 0x65u8, 0x6eu8, 0x74u8, 0x3au8, 0x20u8,
    ]
}

/// The key under which block `block_number`'s payload is indexed: the prefix
/// followed by the block number's little-endian bytes.
pub open spec fn derived_key_bytes(block_number: u64) -> Seq<u8> {
    key_prefix() + u64_le_bytes(block_number)
}

/// The stored payload: the text prefix, length-prefixed in compact form,
/// followed by the content's little-endian bytes.
pub open spec fn indexing_data_bytes(content: u32) -> Seq<u8> {
    seq![0x4cu8] + content_prefix() + u32_le_bytes(content)
}

impl Pallet {
    /// A fresh pallet at block zero.
    pub fn new() -> (r: Pallet)
        ensures
            r.block_number == 0,
    {
        Pallet { block_number: 0 }
    }

    /// Sets the current block number.
    pub fn set_block_number(&mut self, number: u64)
        ensures
            final(self).block_number == number,
    {
        self.block_number = number;
    }

    /// The offchain storage key for a block.
    pub fn derived_key(block_number: u64) -> (r: Vec<u8>)
        ensures
            r@ == derived_key_bytes(block_number),
    {
        let mut r: Vec<u8> = Vec::new();
        r.push(0x6f);
        r.push(0x63);
        r.push(0x77);
        r.push(0x3a);
        r.push(0x3a);
        r.push(0x73);
        r.push(0x74);
        r.push(0x6f);
        r.push(0x72);
        r.push(0x61);
        r.push(0x67);
        r.push(0x65);
        r.push(0x3a);
        r.push(0x3a);
        proof {
            assert(r@ =~= key_prefix());
        }
        push_u64_le(&mut r, block_number);
        r
    }

    /// Computes the key and the encoded payload that the host is to write to
    /// offchain storage for `who`'s content, and the notification to emit.
    pub fn store_by_offchain_index(&self, who: u64, content: u32) -> (r: (Vec<u8>, Vec<u8>, Event))
        ensures
            r.0@ == derived_key_bytes(self.block_number),
            r.1@ == indexing_data_bytes(content),
            r.2 == Event::OffchainStored(who, content),
    {
        let key = Self::derived_key(self.block_number);
        let mut data: Vec<u8> = Vec::new();
        data.push(0x4c);
        data.push(0x6f);
        data.push(0x66);
        data.push(0x66);
        data.push(0x2d);
        data.push(0x63);
        data.push(0x68);
        data.push(0x61);
        data.push(0x69);
        data.push(0x6e);
        data.push(0x20);
        data.push(0x63);
        data.push(0x6f);
        data.push(0x6e);
        data.push(0x74);
        data.push(0x65);
        data.push(0x6e);
        data.push(0x74);
        data.push(0x3a);
        data.push(0x20);
        proof {
            assert(data@ =~= seq![0x4cu8] + content_prefix());
        }
        push_u32_le(&mut data, content);
        (key, data, Event::OffchainStored(who, content))
    }
}

} // verus!

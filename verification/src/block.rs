//! Blocks: the records of the ledger. A block binds a batch of
//! transactions (`data`) to a position in the chain through its
//! `previous_hash` link and its own hash over all other fields.
use vstd::prelude::*;

use crate::hashing;

verus! {

/// The mathematical value of a block: its fields with strings as
/// character sequences.
pub struct BlockModel {
    pub index: u64,
    pub timestamp: i64,
    pub data: Seq<char>,
    pub previous_hash: Seq<char>,
    pub hash: Seq<char>,
    pub proof: u64,
}

/// A block of the chain. `proof` is the proof-of-work nonce.
#[derive(Debug)]
pub struct Block {
    pub index: u64,
    pub timestamp: i64,
    pub data: String,
    pub previous_hash: String,
    pub hash: String,
    pub proof: u64,
}

impl View for Block {
    type V = BlockModel;

    open spec fn view(&self) -> BlockModel {
        BlockModel {
            index: self.index,
            timestamp: self.timestamp,
            data: self.data@,
            previous_hash: self.previous_hash@,
            hash: self.hash@,
            proof: self.proof,
        }
    }
}

impl DeepView for Block {
    type V = BlockModel;

    open spec fn deep_view(&self) -> BlockModel {
        self@
    }
}

/// The block's stored hash is the hash of its other fields.
pub open spec fn block_hash_ok(b: BlockModel) -> bool {
    b.hash == hashing::block_hash_chars(b.index, b.timestamp, b.data, b.previous_hash, b.proof)
}

impl Block {
    /// Builds a block, computing its hash from the other fields.
    pub fn new(index: u64, data: String, timestamp: i64, proof: u64, previous_hash: String) -> (r:
        Block)
        ensures
            r@.index == index,
            r@.timestamp == timestamp,
            r@.data == data@,
            r@.previous_hash == previous_hash@,
            r@.proof == proof,
            block_hash_ok(r@),
    {
        let hash = hashing::hash(index, timestamp, data.as_str(), previous_hash.as_str(), proof);
        Block { index, data, timestamp, previous_hash, hash, proof }
    }
}

impl Clone for Block {
    fn clone(&self) -> (r: Self)
        ensures
            r@ == self@,
    {
        Block {
            index: self.index,
            timestamp: self.timestamp,
            data: self.data.clone(),
            previous_hash: self.previous_hash.clone(),
            hash: self.hash.clone(),
            proof: self.proof,
        }
    }
}

impl PartialEq for Block {
    /// Equality is structural, field by field.
    fn eq(&self, other: &Block) -> (r: bool) {
        self.index == other.index && self.timestamp == other.timestamp && self.data == other.data
            && self.previous_hash == other.previous_hash && self.hash == other.hash && self.proof
            == other.proof
    }
}

impl vstd::std_specs::cmp::PartialEqSpecImpl for Block {
    open spec fn obeys_eq_spec() -> bool {
        true
    }

    open spec fn eq_spec(&self, other: &Block) -> bool {
        self@ == other@
    }
}

} // verus!

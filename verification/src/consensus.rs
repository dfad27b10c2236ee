//! The proof-of-work consensus rule: a block is admissible when its hash
//! is correct, it extends the previous block, and the hash begins with
//! `difficulty` ASCII `'0'` characters.
use vstd::prelude::*;

use crate::block::{block_hash_ok, Block, BlockModel};
use crate::hashing;

verus! {

/// The canonical genesis payload, `"Fiat Lux"`.
pub open spec fn genesis_data() -> Seq<char> {
    seq!['F', 'i', 'a', 't', ' ', 'L', 'u', 'x']
}

/// The genesis link value, `"0"`.
pub open spec fn genesis_previous_hash() -> Seq<char> {
    seq!['0']
}

/// `hash` begins with `d` `'0'` characters.
pub open spec fn has_pow_prefix(hash: Seq<char>, d: int) -> bool {
    &&& hash.len() >= d
    &&& forall|i: int| 0 <= i < d ==> hash[i] == '0'
}

/// The full admissibility test for `b` on top of `prev` at difficulty
/// `d`: consecutive index, matching link, correct hash, hash prefix.
pub open spec fn spec_validate_block(prev: BlockModel, b: BlockModel, d: int) -> bool {
    &&& b.index == prev.index + 1
    &&& b.previous_hash == prev.hash
    &&& block_hash_ok(b)
    &&& has_pow_prefix(b.hash, d)
}

/// The genesis block is canonical: index 0, link `"0"`, payload
/// `"Fiat Lux"`, correct hash, and the difficulty prefix.
pub open spec fn spec_genesis_ok(b: BlockModel, d: int) -> bool {
    &&& b.index == 0
    &&& b.previous_hash == genesis_previous_hash()
    &&& b.data == genesis_data()
    &&& block_hash_ok(b)
    &&& has_pow_prefix(b.hash, d)
}

/// A whole chain is valid: empty, or a canonical genesis followed by
/// blocks each admissible on its predecessor.
pub open spec fn spec_chain_valid(s: Seq<BlockModel>, d: int) -> bool {
    s.len() == 0 || ({
        &&& spec_genesis_ok(s[0], d)
        &&& forall|i: int| 1 <= i < s.len() ==> spec_validate_block(s[i - 1], #[trigger] s[i], d)
    })
}

/// The default consensus rule: hash-prefix proof of work with a fixed
/// per-node difficulty.
#[derive(Clone, Copy, Debug)]
pub struct ProofOfWork {
    pub difficulty: usize,
}

/// `s` begins with `d` `'0'` characters.
fn has_prefix_zeros(s: &str, d: usize) -> (r: bool)
    ensures
        r == has_pow_prefix(s@, d as int),
{
    let n = s.unicode_len();
    if n < d {
        return false;
    }
    let mut i: usize = 0;
    while i < d
        invariant
            i <= d,
            d <= n == s@.len(),
            forall|j: int| 0 <= j < i ==> s@[j] == '0',
        decreases d - i,
    {
        if s.get_char(i) != '0' {
            return false;
        }
        i += 1;
    }
    true
}

impl ProofOfWork {
    pub fn new(difficulty: usize) -> (r: Self)
        ensures
            r.difficulty == difficulty,
    {
        ProofOfWork { difficulty }
    }

    /// Searches nonces from 0 upward and returns the first whose block
    /// hash carries the difficulty prefix; `None` once the nonce space
    /// is exhausted.
    pub fn prove(&self, next_index: u64, timestamp: i64, data: &str, previous_hash: &str) -> (r:
        Option<u64>)
        ensures
            match r {
                Some(nonce) => {
                    &&& has_pow_prefix(
                        hashing::block_hash_chars(
                            next_index,
                            timestamp,
                            data@,
                            previous_hash@,
                            nonce,
                        ),
                        self.difficulty as int,
                    )
                    &&& forall|m: u64|
                        m < nonce ==> !has_pow_prefix(
                            hashing::block_hash_chars(next_index, timestamp, data@, previous_hash@, m),
                            self.difficulty as int,
                        )
                },
                None => forall|m: u64|
                    !has_pow_prefix(
                        hashing::block_hash_chars(next_index, timestamp, data@, previous_hash@, m),
                        self.difficulty as int,
                    ),
            },
    {
        let mut nonce: u64 = 0;
        loop
            invariant
                forall|m: u64|
                    m < nonce ==> !has_pow_prefix(
                        hashing::block_hash_chars(next_index, timestamp, data@, previous_hash@, m),
                        self.difficulty as int,
                    ),
            decreases u64::MAX - nonce,
        {
            let h = hashing::hash(next_index, timestamp, data, previous_hash, nonce);
            if has_prefix_zeros(h.as_str(), self.difficulty) {
                return Some(nonce);
            }
            if nonce == u64::MAX {
                return None;
            }
            nonce += 1;
        }
    }

    /// The admissibility test from the data model: consecutive index,
    /// matching link, correct hash, difficulty prefix.
    pub fn validate_block(&self, previous_block: &Block, block: &Block) -> (r: bool)
        ensures
            r == spec_validate_block(previous_block@, block@, self.difficulty as int),
    {
        let next_index = match previous_block.index.checked_add(1) {
            Some(n) => n,
            None => {
                return false;
            },
        };
        if block.index != next_index {
            return false;
        }
        if block.previous_hash != previous_block.hash {
            return false;
        }
        let calculated = hashing::hash(
            block.index,
            block.timestamp,
            block.data.as_str(),
            block.previous_hash.as_str(),
            block.proof,
        );
        if block.hash != calculated {
            return false;
        }
        has_prefix_zeros(block.hash.as_str(), self.difficulty)
    }

    /// Whether `block` is a canonical genesis at this difficulty.
    pub fn validate_genesis(&self, block: &Block) -> (r: bool)
        ensures
            r == spec_genesis_ok(block@, self.difficulty as int),
    {
        proof {
            reveal_strlit("0");
            reveal_strlit("Fiat Lux");
            assert("0"@ =~= genesis_previous_hash());
            assert("Fiat Lux"@ =~= genesis_data());
        }
        if block.index != 0 {
            return false;
        }
        if !(block.previous_hash == String::from_str("0")) {
            return false;
        }
        if !(block.data == String::from_str("Fiat Lux")) {
            return false;
        }
        let calculated = hashing::hash(
            block.index,
            block.timestamp,
            block.data.as_str(),
            block.previous_hash.as_str(),
            block.proof,
        );
        if block.hash != calculated {
            return false;
        }
        has_prefix_zeros(block.hash.as_str(), self.difficulty)
    }

    /// Validates a whole sequence of blocks, genesis first.
    pub fn validate_blocks(&self, blocks: &Vec<Block>) -> (r: bool)
        ensures
            r == spec_chain_valid(blocks.deep_view(), self.difficulty as int),
    {
        if blocks.len() == 0 {
            return true;
        }
        if !self.validate_genesis(&blocks[0]) {
            return false;
        }
        let mut i: usize = 1;
        while i < blocks.len()
            invariant
                1 <= i <= blocks@.len(),
                spec_genesis_ok(blocks.deep_view()[0], self.difficulty as int),
                forall|j: int|
                    1 <= j < i ==> spec_validate_block(
                        blocks.deep_view()[j - 1],
                        #[trigger] blocks.deep_view()[j],
                        self.difficulty as int,
                    ),
            decreases blocks@.len() - i,
        {
            if !self.validate_block(&blocks[i - 1], &blocks[i]) {
                proof {
                    assert(!spec_validate_block(
                        blocks.deep_view()[i - 1],
                        blocks.deep_view()[i as int],
                        self.difficulty as int,
                    ));
                }
                return false;
            }
            i += 1;
        }
        true
    }
}

} // verus!

//! The chain: the in-memory ledger with its peer set, consensus rule and
//! mempool. Blocks are appended only at the tip; every mutation keeps
//! the chain invariants.
use vstd::prelude::*;

use crate::block::{Block, BlockModel};
use crate::codec;
use crate::consensus::{
    has_pow_prefix, spec_chain_valid, spec_genesis_ok, spec_validate_block, ProofOfWork,
};
use crate::mempool::{ids_distinct, remove_ids, Mempool, MessageTransaction, TxModel};

verus! {

/// No two peer addresses are the same.
pub open spec fn nodes_distinct(ns: Seq<Seq<char>>) -> bool {
    forall|i: int, j: int| 0 <= i < j < ns.len() ==> ns[i] != ns[j]
}

/// The ids of a parsed transaction list.
pub open spec fn tx_ids(ts: Seq<TxModel>) -> Seq<Seq<char>> {
    Seq::new(ts.len(), |i: int| ts[i].id)
}

/// The first `n` pending transactions of a mempool, as a miner takes
/// them.
pub open spec fn taken_txs(s: Seq<crate::mempool::EntryModel>, n: int) -> Seq<TxModel> {
    let k: int = if n <= s.len() as int {
        n
    } else {
        s.len() as int
    };
    Seq::new(k as nat, |i: int| s[i].tx)
}

/// At timestamp `ts`, no nonce at all gives the canonical genesis a
/// hash with the difficulty-`d` prefix.
pub open spec fn genesis_unminable(ts: i64, d: int) -> bool {
    forall|m: u64|
        !has_pow_prefix(
            #[trigger] crate::hashing::block_hash_chars(
                0,
                ts,
                crate::consensus::genesis_data(),
                crate::consensus::genesis_previous_hash(),
                m,
            ),
            d,
        )
}

/// The ledger and its companions.
#[derive(Debug)]
pub struct Chain {
    pub chain: Vec<Block>,
    pub nodes: Vec<String>,
    pub consensus: ProofOfWork,
    pub mempool: Mempool,
}

/// Appending a block that validates against the tip keeps the whole
/// chain valid: the law behind every append path.
pub proof fn lemma_chain_valid_push(s: Seq<BlockModel>, b: BlockModel, d: int)
    requires
        s.len() >= 1,
        spec_chain_valid(s, d),
        spec_validate_block(s.last(), b, d),
    ensures
        spec_chain_valid(s.push(b), d),
{
    let t = s.push(b);
    assert(t[0] == s[0]);
    assert forall|i: int| 1 <= i < t.len() implies spec_validate_block(t[i - 1], #[trigger] t[i], d) by {
        if i < s.len() {
            assert(t[i] == s[i] && t[i - 1] == s[i - 1]);
        } else {
            assert(t[i] == b && t[i - 1] == s.last());
        }
    }
}

/// In a valid chain every block's stored hash is the hash of its own
/// fields.
pub proof fn lemma_chain_hashes_ok(s: Seq<BlockModel>, d: int)
    requires
        spec_chain_valid(s, d),
    ensures
        forall|i: int| 0 <= i < s.len() ==> crate::block::block_hash_ok(#[trigger] s[i]),
{
    assert forall|i: int| 0 <= i < s.len() implies crate::block::block_hash_ok(#[trigger] s[i]) by {
        if i == 0 {
            assert(spec_genesis_ok(s[0], d));
        } else {
            assert(spec_validate_block(s[i - 1], s[i], d));
        }
    }
}

/// In a valid chain at difficulty `d`, every block's hash begins with
/// `d` `'0'` characters.
pub proof fn lemma_chain_pow_prefix(s: Seq<BlockModel>, d: int)
    requires
        spec_chain_valid(s, d),
    ensures
        forall|i: int| 0 <= i < s.len() ==> has_pow_prefix(#[trigger] s[i].hash, d),
{
    assert forall|i: int| 0 <= i < s.len() implies has_pow_prefix(#[trigger] s[i].hash, d) by {
        if i == 0 {
            assert(spec_genesis_ok(s[0], d));
        } else {
            assert(spec_validate_block(s[i - 1], s[i], d));
        }
    }
}

/// In a valid chain the block at position `i` carries index `i`.
pub proof fn lemma_chain_indexes(s: Seq<BlockModel>, d: int)
    requires
        spec_chain_valid(s, d),
    ensures
        forall|i: int| 0 <= i < s.len() ==> (#[trigger] s[i].index) == i,
    decreases s.len(),
{
    assert forall|i: int| 0 <= i < s.len() implies (#[trigger] s[i].index) == i by {
        lemma_chain_index_at(s, d, i);
    }
}

proof fn lemma_chain_index_at(s: Seq<BlockModel>, d: int, i: int)
    requires
        spec_chain_valid(s, d),
        0 <= i < s.len(),
    ensures
        s[i].index == i,
    decreases i,
{
    if i == 0 {
        assert(spec_genesis_ok(s[0], d));
    } else {
        lemma_chain_index_at(s, d, i - 1);
        assert(spec_validate_block(s[i - 1], s[i], d));
    }
}

impl Chain {
    /// The ledger as a sequence of block values.
    pub open spec fn blocks(&self) -> Seq<BlockModel> {
        self.chain.deep_view()
    }

    /// The mining difficulty this node enforces.
    pub open spec fn difficulty(&self) -> int {
        self.consensus.difficulty as int
    }

    /// Well-formedness: a nonempty valid chain, distinct peers, and
    /// distinct mempool ids.
    pub open spec fn wf(&self) -> bool {
        &&& self.blocks().len() >= 1
        &&& spec_chain_valid(self.blocks(), self.difficulty())
        &&& nodes_distinct(self.nodes.deep_view())
        &&& ids_distinct(self.mempool@)
    }

    /// Builds a chain holding only the canonical genesis block, stamped
    /// at the current clock. `None` only if, at the sampled timestamp,
    /// no nonce at all yields the difficulty prefix for the genesis
    /// fields.
    pub fn new(consensus: ProofOfWork) -> (r: Option<Chain>)
        ensures
            match r {
                Some(c) => {
                    &&& c.wf()
                    &&& c.blocks().len() == 1
                    &&& spec_genesis_ok(c.blocks()[0], consensus.difficulty as int)
                    &&& c.consensus == consensus
                    &&& c.nodes@.len() == 0
                    &&& c.mempool@ == Seq::<crate::mempool::EntryModel>::empty()
                    &&& c.mempool.max_size == 2
                    &&& c.mempool.message_timeout == 100
                },
                None => exists|ts: i64|
                    #[trigger] genesis_unminable(ts, consensus.difficulty as int),
            },
    {
        let timestamp = crate::mempool::now_ts();
        let genesis_data = String::from_str("Fiat Lux");
        let previous_hash = String::from_str("0");
        proof {
            reveal_strlit("Fiat Lux");
            reveal_strlit("0");
            assert("Fiat Lux"@ =~= crate::consensus::genesis_data());
            assert("0"@ =~= crate::consensus::genesis_previous_hash());
        }
        let proof_nonce = match consensus.prove(
            0,
            timestamp,
            genesis_data.as_str(),
            previous_hash.as_str(),
        ) {
            Some(p) => p,
            None => {
                proof {
                    assert forall|m: u64| !has_pow_prefix(
                        #[trigger] crate::hashing::block_hash_chars(
                            0,
                            timestamp,
                            crate::consensus::genesis_data(),
                            crate::consensus::genesis_previous_hash(),
                            m,
                        ),
                        consensus.difficulty as int,
                    ) by {
                        assert(crate::hashing::block_hash_chars(
                            0,
                            timestamp,
                            crate::consensus::genesis_data(),
                            crate::consensus::genesis_previous_hash(),
                            m,
                        ) == crate::hashing::block_hash_chars(
                            0,
                            timestamp,
                            genesis_data@,
                            previous_hash@,
                            m,
                        ));
                    }
                    assert(genesis_unminable(timestamp, consensus.difficulty as int));
                }
                return None;
            },
        };
        let genesis = Block::new(0, genesis_data, timestamp, proof_nonce, previous_hash);
        let mut chain: Vec<Block> = Vec::new();
        let ghost gv = genesis@;
        chain.push(genesis);
        let c = Chain {
            chain,
            nodes: Vec::new(),
            consensus,
            mempool: Mempool::new(2, 100),
        };
        proof {
            assert(c.blocks() =~= seq![gv]);
            assert(spec_genesis_ok(gv, consensus.difficulty as int));
            assert(c.nodes.deep_view().len() == 0);
        }
        Some(c)
    }

    /// Re-checks the chain invariants: canonical genesis, consecutive
    /// indexes, matching links, correct hashes, difficulty prefixes.
    pub fn is_valid(&self) -> (r: bool)
        ensures
            r == spec_chain_valid(self.blocks(), self.difficulty()),
    {
        self.consensus.validate_blocks(&self.chain)
    }

    /// Appends a block that has been validated against the current tip,
    /// and purges the block's transactions from the mempool.
    pub fn append_validated(&mut self, block: Block)
        requires
            old(self).blocks().len() >= 1,
            spec_validate_block(
                old(self).blocks().last(),
                block@,
                old(self).consensus.difficulty as int,
            ),
        ensures
            final(self).blocks() == old(self).blocks().push(block@),
            final(self).nodes == old(self).nodes,
            final(self).consensus == old(self).consensus,
            final(self).mempool.max_size == old(self).mempool.max_size,
            final(self).mempool.message_timeout == old(self).mempool.message_timeout,
            mempool_purged(old(self).mempool@, block@.data, final(self).mempool@),
            old(self).wf() ==> final(self).wf(),
            ids_distinct(old(self).mempool@) ==> ids_distinct(final(self).mempool@),
    {
        match codec::parse_transactions(block.data.as_str()) {
            Some(txs) => {
                let mut ids: Vec<String> = Vec::new();
                let mut i: usize = 0;
                while i < txs.len()
                    invariant
                        i <= txs@.len(),
                        ids@.len() == i,
                        forall|j: int| 0 <= j < i ==> ids@[j]@ == txs.deep_view()[j].id,
                    decreases txs@.len() - i,
                {
                    proof {
                        assert(txs.deep_view()[i as int] == txs@[i as int]@);
                    }
                    ids.push(txs[i].id.clone());
                    i += 1;
                }
                proof {
                    assert(ids.deep_view() =~= tx_ids(txs.deep_view())) by {
                        assert forall|j: int| 0 <= j < ids@.len() implies ids.deep_view()[j]
                            == tx_ids(txs.deep_view())[j] by {
                            assert(ids.deep_view()[j] == ids@[j]@);
                        }
                    }
                }
                self.mempool.remove_messages(&ids);
            },
            None => {},
        }
        let ghost pre = self.chain.deep_view();
        let ghost bv = block@;
        self.chain.push(block);
        proof {
            assert forall|j: int| 0 <= j < self.chain@.len() implies self.chain.deep_view()[j]
                == pre.push(bv)[j] by {
                assert(self.chain.deep_view()[j] == self.chain@[j]@);
            }
            assert(self.chain.deep_view() =~= pre.push(bv));
            if old(self).wf() {
                lemma_chain_valid_push(pre, bv, old(self).consensus.difficulty as int);
            }
        }
    }

    /// Validates an inbound block against the tip; appends it and purges
    /// its transactions when it passes, leaves the chain alone when not.
    pub fn receive_block(&mut self, block: Block) -> (r: bool)
        ensures
            r == (old(self).blocks().len() >= 1 && spec_validate_block(
                old(self).blocks().last(),
                block@,
                old(self).consensus.difficulty as int,
            )),
            r ==> final(self).blocks() == old(self).blocks().push(block@) && mempool_purged(
                old(self).mempool@,
                block@.data,
                final(self).mempool@,
            ),
            !r ==> *final(self) == *old(self),
            final(self).nodes == old(self).nodes,
            final(self).consensus == old(self).consensus,
            final(self).mempool.max_size == old(self).mempool.max_size,
            final(self).mempool.message_timeout == old(self).mempool.message_timeout,
            old(self).wf() ==> final(self).wf(),
    {
        if self.chain.len() == 0 {
            return false;
        }
        let tip_ok = {
            let last = &self.chain[self.chain.len() - 1];
            proof {
                assert(self.chain@[self.chain@.len() - 1]@ == self.blocks().last());
            }
            self.consensus.validate_block(last, &block)
        };
        if !tip_ok {
            return false;
        }
        self.append_validated(block);
        true
    }

    /// The mining coordinator's candidate arbiter: always purges the
    /// candidate's transactions, and appends the candidate only when the
    /// chain has not moved since it was mined and it validates against
    /// the tip.
    pub fn receive_candidate(&mut self, block: Block, message_ids: &Vec<String>) -> (r: bool)
        ensures
            final(self).mempool@ == remove_ids(old(self).mempool@, message_ids.deep_view()),
            final(self).nodes == old(self).nodes,
            final(self).consensus == old(self).consensus,
            final(self).mempool.max_size == old(self).mempool.max_size,
            final(self).mempool.message_timeout == old(self).mempool.message_timeout,
            r == (old(self).blocks().len() >= 1 && old(self).blocks().len() == block@.index
                && spec_validate_block(
                old(self).blocks().last(),
                block@,
                old(self).consensus.difficulty as int,
            )),
            r ==> final(self).blocks() == old(self).blocks().push(block@),
            !r ==> final(self).blocks() == old(self).blocks(),
            old(self).wf() ==> final(self).wf(),
    {
        self.mempool.remove_messages(message_ids);
        if self.chain.len() == 0 {
            return false;
        }
        let index_matches = (self.chain.len() as u64) == block.index;
        if !index_matches {
            return false;
        }
        let tip_ok = {
            let last = &self.chain[self.chain.len() - 1];
            proof {
                assert(self.chain@[self.chain@.len() - 1]@ == self.blocks().last());
            }
            self.consensus.validate_block(last, &block)
        };
        if !tip_ok {
            return false;
        }
        let ghost pre = self.chain.deep_view();
        let ghost bv = block@;
        self.chain.push(block);
        proof {
            assert forall|j: int| 0 <= j < self.chain@.len() implies self.chain.deep_view()[j]
                == pre.push(bv)[j] by {
                assert(self.chain.deep_view()[j] == self.chain@[j]@);
            }
            assert(self.chain.deep_view() =~= pre.push(bv));
            if old(self).wf() {
                lemma_chain_valid_push(pre, bv, old(self).consensus.difficulty as int);
            }
        }
        true
    }

    /// Longest-valid-chain reconciliation: adopts `candidate` exactly
    /// when it is a valid chain strictly longer than the local one.
    pub fn adopt_if_longer(&mut self, candidate: Vec<Block>) -> (r: bool)
        ensures
            r == (spec_chain_valid(
                candidate.deep_view(),
                old(self).consensus.difficulty as int,
            ) && candidate@.len() > old(self).chain@.len()),
            r ==> final(self).blocks() == candidate.deep_view(),
            !r ==> *final(self) == *old(self),
            final(self).nodes == old(self).nodes,
            final(self).consensus == old(self).consensus,
            final(self).mempool == old(self).mempool,
            old(self).wf() ==> final(self).wf(),
    {
        let valid = self.consensus.validate_blocks(&candidate);
        if valid && candidate.len() > self.chain.len() {
            self.chain = candidate;
            true
        } else {
            false
        }
    }

    /// Mints a new block from up to ten pending transactions at the
    /// given timestamp, appends it and purges the included transactions.
    /// `None` when nothing is pending, the chain is empty, or no nonce
    /// yields the difficulty prefix; the chain is then unchanged.
    pub fn new_block(&mut self, timestamp: i64) -> (r: Option<Block>)
        ensures
            final(self).nodes == old(self).nodes,
            final(self).consensus == old(self).consensus,
            final(self).mempool.max_size == old(self).mempool.max_size,
            final(self).mempool.message_timeout == old(self).mempool.message_timeout,
            match r {
                Some(b) => {
                    &&& old(self).blocks().len() >= 1
                    &&& old(self).mempool@.len() >= 1
                    &&& b@.index == old(self).blocks().len()
                    &&& b@.timestamp == timestamp
                    &&& b@.previous_hash == old(self).blocks().last().hash
                    &&& crate::block::block_hash_ok(b@)
                    &&& has_pow_prefix(b@.hash, old(self).consensus.difficulty as int)
                    &&& b@.data == codec::json_tx_list(taken_txs(old(self).mempool@, 10))
                    &&& final(self).mempool@ == remove_ids(
                        old(self).mempool@,
                        tx_ids(taken_txs(old(self).mempool@, 10)),
                    )
                    &&& final(self).blocks() == old(self).blocks().push(b@)
                    &&& (old(self).wf() ==> final(self).wf())
                },
                None => {
                    &&& *final(self) == *old(self)
                    &&& (old(self).mempool@.len() == 0 || old(self).blocks().len() == 0 || (
                    forall|m: u64|
                        !has_pow_prefix(
                            #[trigger] crate::hashing::block_hash_chars(
                                old(self).blocks().len() as u64,
                                timestamp,
                                crate::codec::json_tx_list(taken_txs(old(self).mempool@, 10)),
                                old(self).blocks().last().hash,
                                m,
                            ),
                            old(self).consensus.difficulty as int,
                        )))
                },
            },
            ids_distinct(old(self).mempool@) ==> ids_distinct(final(self).mempool@),
    {
        let messages = self.mempool.get_pending_messages(10);
        if messages.is_empty() {
            return None;
        }
        if self.chain.len() == 0 {
            return None;
        }
        proof {
            assert(messages.deep_view() =~= taken_txs(self.mempool@, 10));
        }
        let data = codec::serialize_transactions(&messages);
        let prev_hash = {
            let last = &self.chain[self.chain.len() - 1];
            proof {
                assert(self.chain@[self.chain@.len() - 1]@ == self.blocks().last());
            }
            last.hash.clone()
        };
        let index = self.chain.len() as u64;
        let proof_nonce = match self.consensus.prove(
            index,
            timestamp,
            data.as_str(),
            prev_hash.as_str(),
        ) {
            Some(p) => p,
            None => {
                return None;
            },
        };
        let block = Block::new(index, data, timestamp, proof_nonce, prev_hash);
        let mut ids: Vec<String> = Vec::new();
        let mut i: usize = 0;
        while i < messages.len()
            invariant
                i <= messages@.len(),
                ids@.len() == i,
                forall|j: int| 0 <= j < i ==> ids@[j]@ == messages.deep_view()[j].id,
            decreases messages@.len() - i,
        {
            proof {
                assert(messages.deep_view()[i as int] == messages@[i as int]@);
            }
            ids.push(messages[i].id.clone());
            i += 1;
        }
        proof {
            assert(ids.deep_view() =~= tx_ids(messages.deep_view())) by {
                assert forall|j: int| 0 <= j < ids@.len() implies ids.deep_view()[j] == tx_ids(
                    messages.deep_view(),
                )[j] by {
                    assert(ids.deep_view()[j] == ids@[j]@);
                }
            }
        }
        self.mempool.remove_messages(&ids);
        let ghost pre = self.chain.deep_view();
        let ghost bv = block@;
        let result = block.clone();
        self.chain.push(block);
        proof {
            assert forall|j: int| 0 <= j < self.chain@.len() implies self.chain.deep_view()[j]
                == pre.push(bv)[j] by {
                assert(self.chain.deep_view()[j] == self.chain@[j]@);
            }
            assert(self.chain.deep_view() =~= pre.push(bv));
            if old(self).wf() {
                lemma_chain_indexes(pre, old(self).consensus.difficulty as int);
                assert(pre.last().index == pre.len() - 1);
                lemma_chain_valid_push(pre, bv, old(self).consensus.difficulty as int);
            }
        }
        Some(result)
    }

    /// Hands a message to the mempool, minting a transaction or failing
    /// when the store is over its bound even after eviction.
    pub fn submit_message_to_mempool(&mut self, message: String) -> (r: Result<
        MessageTransaction,
        String,
    >)
        ensures
            final(self).chain == old(self).chain,
            final(self).nodes == old(self).nodes,
            final(self).consensus == old(self).consensus,
            final(self).mempool.max_size == old(self).mempool.max_size,
            final(self).mempool.message_timeout == old(self).mempool.message_timeout,
            ids_distinct(old(self).mempool@) ==> ids_distinct(final(self).mempool@),
            match r {
                Ok(tx) => {
                    &&& tx@.message == message@
                    &&& final(self).mempool@.len() <= old(self).mempool.max_size + 1
                    &&& final(self).mempool@.len() >= 1
                    &&& final(self).mempool@.last().tx == tx@
                    &&& exists|now: i64|
                        {
                            &&& crate::mempool::maybe_cleaned(
                                old(self).mempool@,
                                old(self).mempool.max_size as int,
                                now,
                                old(self).mempool.message_timeout,
                            ).len() <= old(self).mempool.max_size
                            &&& final(self).mempool@ == #[trigger] crate::mempool::remove_id(
                                crate::mempool::maybe_cleaned(
                                    old(self).mempool@,
                                    old(self).mempool.max_size as int,
                                    now,
                                    old(self).mempool.message_timeout,
                                ),
                                tx@.id,
                            ).push(crate::mempool::EntryModel { tx: tx@, added_at: now })
                        }
                },
                Err(e) => {
                    &&& final(self).mempool@.len() > old(self).mempool.max_size
                    &&& e@ == "Mempool is full"@
                    &&& exists|now: i64|
                        final(self).mempool@ == #[trigger] crate::mempool::maybe_cleaned(
                            old(self).mempool@,
                            old(self).mempool.max_size as int,
                            now,
                            old(self).mempool.message_timeout,
                        )
                },
            },
    {
        self.mempool.add_message(message)
    }

    /// Records a peer address; inserting an address twice leaves one.
    pub fn add_node(&mut self, address: &str)
        ensures
            final(self).chain == old(self).chain,
            final(self).consensus == old(self).consensus,
            final(self).mempool == old(self).mempool,
            final(self).nodes.deep_view() == if old(self).nodes.deep_view().contains(address@) {
                old(self).nodes.deep_view()
            } else {
                old(self).nodes.deep_view().push(address@)
            },
            nodes_distinct(old(self).nodes.deep_view()) ==> nodes_distinct(
                final(self).nodes.deep_view(),
            ),
    {
        let owned = address.to_owned();
        let mut i: usize = 0;
        let mut found = false;
        while i < self.nodes.len()
            invariant
                i <= self.nodes@.len(),
                owned@ == address@,
                found == exists|j: int| 0 <= j < i && old(self).nodes.deep_view()[j] == address@,
                self.nodes == old(self).nodes,
            decreases self.nodes@.len() - i,
        {
            if self.nodes[i] == owned {
                proof {
                    assert(self.nodes.deep_view()[i as int] == address@);
                }
                found = true;
            }
            i += 1;
        }
        if !found {
            let ghost pre = self.nodes.deep_view();
            self.nodes.push(owned);
            proof {
                assert forall|j: int| 0 <= j < self.nodes@.len() implies self.nodes.deep_view()[j]
                    == pre.push(address@)[j] by {
                    assert(self.nodes.deep_view()[j] == self.nodes@[j]@);
                }
                assert(self.nodes.deep_view() =~= pre.push(address@));
                assert(!pre.contains(address@));
                if nodes_distinct(pre) {
                    assert forall|a: int, b: int|
                        0 <= a < b < self.nodes.deep_view().len() implies self.nodes.deep_view()[a]
                        != self.nodes.deep_view()[b] by {
                        if b == pre.len() {
                            assert(pre[a] == self.nodes.deep_view()[a]);
                            assert(pre.contains(pre[a]));
                        }
                    }
                }
            }
        } else {
            proof {
                assert(self.nodes.deep_view().contains(address@));
            }
        }
    }

    /// Forgets a peer address.
    pub fn remove_node(&mut self, address: &String)
        ensures
            final(self).chain == old(self).chain,
            final(self).consensus == old(self).consensus,
            final(self).mempool == old(self).mempool,
            final(self).nodes.deep_view() == strs_without(old(self).nodes.deep_view(), address@),
    {
        let ghost src = self.nodes.deep_view();
        let mut out: Vec<String> = Vec::new();
        let mut i: usize = 0;
        while i < self.nodes.len()
            invariant
                i <= self.nodes@.len(),
                src == self.nodes.deep_view(),
                self.nodes == old(self).nodes,
                out.deep_view() == strs_without(src.take(i as int), address@),
            decreases self.nodes@.len() - i,
        {
            let ghost pre = out.deep_view();
            let keep_it = !(self.nodes[i] == *address);
            proof {
                assert(src[i as int] == self.nodes@[i as int]@);
            }
            if keep_it {
                out.push(self.nodes[i].clone());
                proof {
                    assert forall|j: int| 0 <= j < out@.len() implies out.deep_view()[j]
                        == pre.push(src[i as int])[j] by {
                        assert(out.deep_view()[j] == out@[j]@);
                    }
                    assert(out.deep_view() =~= pre.push(src[i as int]));
                }
            }
            proof {
                lemma_strs_without_take_step(src, address@, i as int);
            }
            i += 1;
        }
        proof {
            assert(src.take(src.len() as int) =~= src);
        }
        self.nodes = out;
    }

    /// The chain file as JSON: the blocks, the peers, the difficulty.
    pub fn to_file_json(&self) -> (r: String)
        ensures
            r@ == codec::json_chain_file(
                self.blocks(),
                self.nodes.deep_view(),
                self.consensus.difficulty as u64,
            ),
    {
        codec::chain_file_json(&self.chain, &self.nodes, self.consensus.difficulty as u64)
    }

    /// Rebuilds a chain from its JSON file text; the mempool starts
    /// fresh. `None` when the text is not a chain file.
    pub fn from_file_json(s: &str) -> (r: Option<Chain>)
        ensures
            match r {
                Some(c) => {
                    &&& codec::spec_parse_chain_file(s@) == Some(
                        ((
                            c.blocks(),
                            c.nodes.deep_view(),
                            c.consensus.difficulty as u64,
                        ), Seq::<char>::empty()),
                    )
                    &&& c.mempool@ == Seq::<crate::mempool::EntryModel>::empty()
                    &&& c.mempool.max_size == 2
                    &&& c.mempool.message_timeout == 100
                },
                None => match codec::spec_parse_chain_file(s@) {
                    Some((v, rest)) => rest.len() > 0 || v.2 > usize::MAX,
                    None => true,
                },
            },
    {
        match codec::parse_chain_file(s) {
            Some((blocks, nodes, difficulty)) => {
                if difficulty > usize::MAX as u64 {
                    return None;
                }
                let c = Chain {
                    chain: blocks,
                    nodes,
                    consensus: ProofOfWork::new(difficulty as usize),
                    mempool: Mempool::new(2, 100),
                };
                Some(c)
            },
            None => None,
        }
    }
}

/// Whether the mempool was purged of a block's transactions: exactly the
/// ids of the block's decoded data are gone; an undecodable payload
/// leaves the store alone.
pub open spec fn mempool_purged(
    pre: Seq<crate::mempool::EntryModel>,
    data: Seq<char>,
    post: Seq<crate::mempool::EntryModel>,
) -> bool {
    match codec::spec_parse_tx_list(data) {
        Some((ts, rest)) => if rest.len() == 0 {
            post == remove_ids(pre, tx_ids(ts))
        } else {
            post == pre
        },
        None => post == pre,
    }
}

/// `ss` without the entries equal to `a`.
pub open spec fn strs_without(ss: Seq<Seq<char>>, a: Seq<char>) -> Seq<Seq<char>>
    decreases ss.len(),
{
    if ss.len() == 0 {
        Seq::empty()
    } else if ss[0] == a {
        strs_without(ss.drop_first(), a)
    } else {
        seq![ss[0]] + strs_without(ss.drop_first(), a)
    }
}

pub proof fn lemma_strs_without_take_step(ss: Seq<Seq<char>>, a: Seq<char>, i: int)
    requires
        0 <= i < ss.len(),
    ensures
        strs_without(ss.take(i + 1), a) == if ss[i] == a {
            strs_without(ss.take(i), a)
        } else {
            strs_without(ss.take(i), a).push(ss[i])
        },
{
    lemma_strs_without_snoc(ss.take(i + 1), a);
    assert(ss.take(i + 1).drop_last() =~= ss.take(i));
    assert(ss.take(i + 1).last() == ss[i]);
}

proof fn lemma_strs_without_snoc(ss: Seq<Seq<char>>, a: Seq<char>)
    requires
        ss.len() >= 1,
    ensures
        strs_without(ss, a) == if ss.last() == a {
            strs_without(ss.drop_last(), a)
        } else {
            strs_without(ss.drop_last(), a).push(ss.last())
        },
    decreases ss.len(),
{
    let last = ss.last();
    if ss.len() == 1 {
        assert(ss.drop_first().len() == 0);
        assert(strs_without(ss.drop_first(), a) =~= Seq::<Seq<char>>::empty());
        assert(ss.drop_last().len() == 0);
        assert(strs_without(ss.drop_last(), a) =~= Seq::<Seq<char>>::empty());
        assert(ss[0] == last);
        if last == a {
            assert(strs_without(ss, a) =~= strs_without(ss.drop_last(), a));
        } else {
            assert(strs_without(ss, a) =~= strs_without(ss.drop_last(), a).push(last));
        }
    } else {
        let rest = ss.drop_first();
        let dl = ss.drop_last();
        lemma_strs_without_snoc(rest, a);
        assert(rest.drop_last() =~= dl.drop_first());
        assert(rest.last() == last);
        assert(dl[0] == ss[0]);
        assert(strs_without(ss, a) == if ss[0] == a {
            strs_without(rest, a)
        } else {
            seq![ss[0]] + strs_without(rest, a)
        });
        assert(strs_without(dl, a) == if dl[0] == a {
            strs_without(dl.drop_first(), a)
        } else {
            seq![dl[0]] + strs_without(dl.drop_first(), a)
        });
        assert(strs_without(dl.drop_first(), a) == strs_without(rest.drop_last(), a));
        if last == a {
            assert(strs_without(rest, a) == strs_without(rest.drop_last(), a));
            assert(strs_without(ss, a) =~= strs_without(dl, a));
        } else {
            assert(strs_without(rest, a) == strs_without(rest.drop_last(), a).push(last));
            assert(strs_without(ss, a) =~= strs_without(dl, a).push(last));
        }
    }
}

impl ProofOfWork {
    /// Validates a whole chain object under this rule.
    pub fn validate_chain(&self, chain: &Chain) -> (r: bool)
        ensures
            r == spec_chain_valid(chain.blocks(), self.difficulty as int),
    {
        self.validate_blocks(&chain.chain)
    }
}

} // verus!

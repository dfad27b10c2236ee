//! The mining coordinator's decision core: command handling and
//! candidate construction. The surrounding loop (timers, channels, the
//! blocking worker) lives outside the library and feeds these functions.
use vstd::prelude::*;

use crate::block::{block_hash_ok, Block};
use crate::chain::tx_ids;
use crate::consensus::{has_pow_prefix, ProofOfWork};
use crate::hashing::block_hash_chars;
use crate::mempool::MessageTransaction;

verus! {

/// A command for the mining coordinator.
#[derive(Debug)]
pub enum MiningCommand {
    StartMining,
    StopMining,
    Shutdown,
}

/// A lock-light snapshot of the chain tip for the miner.
#[derive(Debug)]
pub struct ChainInfo {
    pub length: u64,
    pub last_hash: String,
}

/// Applies one coordinator command to the mining flag. Returns the new
/// flag and whether the coordinator must shut down.
pub fn apply_command(is_mining: bool, command: &MiningCommand) -> (r: (bool, bool))
    ensures
        r == match command {
            MiningCommand::StartMining => (true, false),
            MiningCommand::StopMining => (false, false),
            MiningCommand::Shutdown => (is_mining, true),
        },
{
    match command {
        MiningCommand::StartMining => (true, false),
        MiningCommand::StopMining => (false, false),
        MiningCommand::Shutdown => (is_mining, true),
    }
}

/// Builds a candidate block over the given transactions at the sampled
/// tip, together with the included transaction ids. `None` when no
/// transactions were handed in, or when no nonce at all yields the
/// difficulty prefix.
pub fn build_candidate(
    messages: &Vec<MessageTransaction>,
    chain_len: u64,
    prev_hash: String,
    timestamp: i64,
    consensus: &ProofOfWork,
) -> (r: Option<(Block, Vec<String>)>)
    ensures
        match r {
            Some((b, ids)) => {
                &&& messages@.len() >= 1
                &&& b@.index == chain_len
                &&& b@.timestamp == timestamp
                &&& b@.previous_hash == prev_hash@
                &&& b@.data == crate::codec::json_tx_list(messages.deep_view())
                &&& block_hash_ok(b@)
                &&& has_pow_prefix(b@.hash, consensus.difficulty as int)
                &&& forall|m: u64|
                    m < b@.proof ==> !has_pow_prefix(
                        #[trigger] block_hash_chars(
                            chain_len,
                            timestamp,
                            crate::codec::json_tx_list(messages.deep_view()),
                            prev_hash@,
                            m,
                        ),
                        consensus.difficulty as int,
                    )
                &&& ids.deep_view() == tx_ids(messages.deep_view())
            },
            None => messages@.len() == 0 || (forall|m: u64|
                !has_pow_prefix(
                    block_hash_chars(
                        chain_len,
                        timestamp,
                        crate::codec::json_tx_list(messages.deep_view()),
                        prev_hash@,
                        m,
                    ),
                    consensus.difficulty as int,
                )),
        },
{
    if messages.is_empty() {
        return None;
    }
    let data = crate::codec::serialize_transactions(messages);
    let ghost datav = data@;
    let ghost prevv = prev_hash@;
    let proof_nonce = match consensus.prove(
        chain_len,
        timestamp,
        data.as_str(),
        prev_hash.as_str(),
    ) {
        Some(p) => p,
        None => {
            return None;
        },
    };
    let block = Block::new(chain_len, data, timestamp, proof_nonce, prev_hash);
    proof {
        assert(datav == crate::codec::json_tx_list(messages.deep_view()));
        assert forall|m: u64| m < block@.proof implies !has_pow_prefix(
            #[trigger] block_hash_chars(
                chain_len,
                timestamp,
                crate::codec::json_tx_list(messages.deep_view()),
                prevv,
                m,
            ),
            consensus.difficulty as int,
        ) by {
            assert(block_hash_chars(
                chain_len,
                timestamp,
                crate::codec::json_tx_list(messages.deep_view()),
                prevv,
                m,
            ) == block_hash_chars(chain_len, timestamp, datav, prevv, m));
        }
    }
    let mut ids: Vec<String> = Vec::new();
    let mut i: usize = 0;
    while i < messages.len()
        invariant
            i <= messages@.len(),
            ids@.len() == i,
            forall|j: int| 0 <= j < i ==> ids@[j]@ == messages.deep_view()[j].id,
        decreases messages@.len() - i,
    {
        proof {
            assert(messages.deep_view()[i as int] == messages@[i as int]@);
        }
        ids.push(messages[i].id.clone());
        i += 1;
    }
    proof {
        assert(ids.deep_view() =~= tx_ids(messages.deep_view())) by {
            assert forall|j: int| 0 <= j < ids@.len() implies ids.deep_view()[j] == tx_ids(
                messages.deep_view(),
            )[j] by {
                assert(ids.deep_view()[j] == ids@[j]@);
            }
        }
    }
    Some((block, ids))
}

} // verus!

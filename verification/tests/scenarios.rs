use rustchain::chain::Chain;
use rustchain::consensus::ProofOfWork;
use rustchain::mining::{apply_command, build_candidate, MiningCommand};
use rustchain::replication::broadcast_targets;

/// Extends `chain` by one mined block carrying one message.
fn mine_one(chain: &mut Chain, message: &str, timestamp: i64) {
    chain.submit_message_to_mempool(message.to_string()).unwrap();
    chain.new_block(timestamp).unwrap();
}

#[test]
fn genesis_is_canonical() {
    let chain = Chain::new(ProofOfWork::new(4)).unwrap();
    assert_eq!(chain.chain.len(), 1);
    assert_eq!(chain.chain[0].index, 0);
    assert_eq!(chain.chain[0].previous_hash, "0");
    assert_eq!(chain.chain[0].data, "Fiat Lux");
    assert!(chain.chain[0].hash.starts_with("0000"));
    assert!(chain.is_valid());
}

#[test]
fn append_extends_the_tip() {
    let mut chain = Chain::new(ProofOfWork::new(2)).unwrap();
    chain.submit_message_to_mempool("hello".to_string()).unwrap();
    let block = chain.new_block(1_700_000_000).unwrap();
    assert_eq!(block.index, 1);
    assert_eq!(block.timestamp, 1_700_000_000);
    assert_eq!(block.previous_hash, chain.chain[0].hash);
    assert!(chain.consensus.validate_block(&chain.chain[0], &block));
    assert_eq!(chain.chain.len(), 2);
    assert!(chain.is_valid());
    assert_eq!(chain.mempool.pending_count(), 0);
}

#[test]
fn tampered_data_invalidates_the_chain() {
    let mut chain = Chain::new(ProofOfWork::new(1)).unwrap();
    mine_one(&mut chain, "genuine", 100);
    assert!(chain.is_valid());
    chain.chain[1].data = "tampered".to_string();
    assert!(!chain.is_valid());
}

#[test]
fn longer_valid_chain_is_adopted() {
    let mut local = Chain::new(ProofOfWork::new(1)).unwrap();
    mine_one(&mut local, "a", 1);
    mine_one(&mut local, "b", 2);
    assert_eq!(local.chain.len(), 3);

    let mut peer = Chain::new(ProofOfWork::new(1)).unwrap();
    for (i, m) in ["p", "q", "r", "s"].iter().enumerate() {
        mine_one(&mut peer, m, 10 + i as i64);
    }
    assert_eq!(peer.chain.len(), 5);

    assert!(local.adopt_if_longer(peer.chain.clone()));
    assert_eq!(local.chain.len(), 5);
    assert_eq!(
        local.chain.last().unwrap().hash,
        peer.chain.last().unwrap().hash
    );
    assert!(local.is_valid());
}

#[test]
fn equal_length_chain_is_not_adopted() {
    let mut local = Chain::new(ProofOfWork::new(1)).unwrap();
    mine_one(&mut local, "a", 1);
    let mut peer = Chain::new(ProofOfWork::new(1)).unwrap();
    mine_one(&mut peer, "b", 2);
    let local_tip = local.chain.last().unwrap().hash.clone();
    assert!(!local.adopt_if_longer(peer.chain.clone()));
    assert_eq!(local.chain.last().unwrap().hash, local_tip);
}

#[test]
fn invalid_peer_chain_is_not_adopted() {
    let mut local = Chain::new(ProofOfWork::new(1)).unwrap();
    let mut peer = Chain::new(ProofOfWork::new(1)).unwrap();
    for (i, m) in ["p", "q", "r"].iter().enumerate() {
        mine_one(&mut peer, m, 10 + i as i64);
    }
    let mut forged = peer.chain.clone();
    forged[2].data = "forged".to_string();
    assert!(!local.adopt_if_longer(forged));
    assert_eq!(local.chain.len(), 1);
}

#[test]
fn race_loser_is_discarded_and_both_purged() {
    let mut chain = Chain::new(ProofOfWork::new(0)).unwrap();
    for i in 0..6 {
        mine_one(&mut chain, &format!("m{}", i), i as i64);
    }
    assert_eq!(chain.chain.len(), 7);

    let t1 = chain.submit_message_to_mempool("mine locally".to_string()).unwrap();
    let t2 = chain.submit_message_to_mempool("from the wire".to_string()).unwrap();
    let tip_hash = chain.chain.last().unwrap().hash.clone();

    let (candidate, candidate_ids) = build_candidate(
        &vec![t1.clone()],
        7,
        tip_hash.clone(),
        1_000,
        &chain.consensus,
    )
    .unwrap();
    assert_eq!(candidate.index, 7);

    let (inbound, _inbound_ids) = build_candidate(
        &vec![t2.clone()],
        7,
        tip_hash,
        1_001,
        &chain.consensus,
    )
    .unwrap();

    assert!(chain.receive_block(inbound));
    assert_eq!(chain.chain.len(), 8);

    let appended = chain.receive_candidate(candidate, &candidate_ids);
    assert!(!appended);
    assert_eq!(chain.chain.len(), 8);
    assert_eq!(chain.mempool.pending_count(), 0);
    assert!(chain.is_valid());
}

#[test]
fn rebroadcast_excludes_the_origin() {
    let mut chain = Chain::new(ProofOfWork::new(0)).unwrap();
    chain.add_node("http://127.0.0.1:7001");
    chain.add_node("http://127.0.0.1:7002");
    let origin = Some("http://127.0.0.1:7001".to_string());
    let targets = broadcast_targets(&chain.nodes, &origin);
    assert_eq!(targets, vec!["http://127.0.0.1:7002".to_string()]);
    let all = broadcast_targets(&chain.nodes, &None);
    assert_eq!(all.len(), 2);
}

#[test]
fn invalid_inbound_block_is_rejected() {
    let mut chain = Chain::new(ProofOfWork::new(1)).unwrap();
    mine_one(&mut chain, "a", 1);
    let mut bogus = chain.chain[1].clone();
    bogus.data = "other".to_string();
    let before = chain.chain.len();
    assert!(!chain.receive_block(bogus));
    assert_eq!(chain.chain.len(), before);
}

#[test]
fn chain_file_round_trips() {
    let mut chain = Chain::new(ProofOfWork::new(1)).unwrap();
    mine_one(&mut chain, "saved \"msg\"", 1);
    mine_one(&mut chain, "another", 2);
    chain.add_node("http://127.0.0.1:7100");
    chain.add_node("http://127.0.0.1:7200");
    let text = chain.to_file_json();
    let back = Chain::from_file_json(&text).unwrap();
    assert_eq!(back.chain, chain.chain);
    assert_eq!(back.nodes, chain.nodes);
    assert_eq!(back.consensus.difficulty, 1);
    assert!(back.is_valid());
}

#[test]
fn from_file_json_rejects_garbage() {
    assert!(Chain::from_file_json("").is_none());
    assert!(Chain::from_file_json("{\"chain\":[]}").is_none());
    assert!(Chain::from_file_json("not json at all").is_none());
}

#[test]
fn node_registration_is_idempotent() {
    let mut chain = Chain::new(ProofOfWork::new(0)).unwrap();
    chain.add_node("http://127.0.0.1:7001");
    chain.add_node("http://127.0.0.1:7001");
    assert_eq!(chain.nodes.len(), 1);
    chain.add_node("http://127.0.0.1:7002");
    assert_eq!(chain.nodes.len(), 2);
    chain.remove_node(&"http://127.0.0.1:7001".to_string());
    assert_eq!(chain.nodes, vec!["http://127.0.0.1:7002".to_string()]);
}

#[test]
fn mining_commands_drive_the_flag() {
    assert_eq!(apply_command(false, &MiningCommand::StartMining), (true, false));
    assert_eq!(apply_command(true, &MiningCommand::StopMining), (false, false));
    assert_eq!(apply_command(true, &MiningCommand::Shutdown), (true, true));
    assert_eq!(apply_command(false, &MiningCommand::Shutdown), (false, true));
}

#[test]
fn empty_block_list_counts_as_valid() {
    let pow = ProofOfWork::new(3);
    let empty = rustchain::chain::Chain {
        chain: Vec::new(),
        nodes: Vec::new(),
        consensus: pow,
        mempool: rustchain::mempool::Mempool::new(2, 100),
    };
    assert!(pow.validate_chain(&empty));
    assert!(empty.is_valid());
}

#[test]
fn candidate_requires_messages() {
    let pow = ProofOfWork::new(0);
    assert!(build_candidate(&vec![], 1, "h".to_string(), 0, &pow).is_none());
}

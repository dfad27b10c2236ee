use rustchain::block::Block;
use rustchain::consensus::ProofOfWork;
use rustchain::hashing::hash;
use rustchain::mempool::{Mempool, MessageTransaction};

#[test]
fn hash_known_vector_zeroes() {
    let h = hash(0, 0, "abc", "0", 0);
    assert_eq!(h, "a85b5656f61fe8f5ae10a1e5582d5f8f02c2fbc454a85de1ee1cf0d613a5ea5b");
}

#[test]
fn hash_known_vector_mixed() {
    let h = hash(1, 1_700_000_000, "hello", "ff", 42);
    assert_eq!(h, "939cd038318fc33ebd8dd6ba6763e9ed4ef26790da7e56924ee2ba363d3f722d");
}

#[test]
fn hash_is_always_sixty_four_hex_chars() {
    assert_eq!(hash(0, 0, "", "", 0).len(), 64);
    assert_eq!(hash(u64::MAX, i64::MIN, "data", "prev", u64::MAX).len(), 64);
}

#[test]
fn hash_depends_on_every_field() {
    let base = hash(1, 2, "d", "p", 3);
    assert_ne!(base, hash(2, 2, "d", "p", 3));
    assert_ne!(base, hash(1, 3, "d", "p", 3));
    assert_ne!(base, hash(1, 2, "e", "p", 3));
    assert_ne!(base, hash(1, 2, "d", "q", 3));
    assert_ne!(base, hash(1, 2, "d", "p", 4));
}

#[test]
fn block_new_computes_hash() {
    let b = Block::new(1, "hello".to_string(), 1_700_000_000, 42, "ff".to_string());
    assert_eq!(b.hash, "939cd038318fc33ebd8dd6ba6763e9ed4ef26790da7e56924ee2ba363d3f722d");
    assert_eq!(b.index, 1);
    assert_eq!(b.timestamp, 1_700_000_000);
    assert_eq!(b.data, "hello");
    assert_eq!(b.previous_hash, "ff");
    assert_eq!(b.proof, 42);
}

#[test]
fn prove_finds_nonce_and_block_validates() {
    let pow = ProofOfWork::new(1);
    let prev = Block::new(0, "Fiat Lux".to_string(), 0, 0, "0".to_string());
    let nonce = pow.prove(1, 5, "data", &prev.hash).unwrap();
    let b = Block::new(1, "data".to_string(), 5, nonce, prev.hash.clone());
    assert!(b.hash.starts_with("0"));
    assert!(pow.validate_block(&prev, &b));
}

#[test]
fn validate_block_rejects_each_fault() {
    let pow = ProofOfWork::new(0);
    let prev = Block::new(0, "Fiat Lux".to_string(), 0, 0, "0".to_string());
    let good = Block::new(1, "data".to_string(), 5, 7, prev.hash.clone());
    assert!(pow.validate_block(&prev, &good));

    let mut wrong_index = good.clone();
    wrong_index.index = 3;
    assert!(!pow.validate_block(&prev, &wrong_index));

    let mut wrong_link = good.clone();
    wrong_link.previous_hash = "00".to_string();
    assert!(!pow.validate_block(&prev, &wrong_link));

    let mut wrong_hash = good.clone();
    wrong_hash.hash = "deadbeef".to_string();
    assert!(!pow.validate_block(&prev, &wrong_hash));

    let strict = ProofOfWork::new(64);
    assert!(!strict.validate_block(&prev, &good));
}

#[test]
fn transaction_keeps_message_and_stamps_once() {
    let t = MessageTransaction::new("hi there".to_string());
    assert_eq!(t.message, "hi there");
    assert_eq!(t.timestamp, t.submitted_at);
    let u = MessageTransaction::new("hi there".to_string());
    assert_ne!(t.id, u.id);
}

#[test]
fn mempool_add_and_count() {
    let mut m = Mempool::new(5, 100);
    assert_eq!(m.pending_count(), 0);
    let t = m.add_message("a".to_string()).unwrap();
    assert_eq!(t.message, "a");
    assert_eq!(m.pending_count(), 1);
}

#[test]
fn mempool_full_error() {
    let mut m = Mempool::new(0, 1000);
    m.add_message("first".to_string()).unwrap();
    let e = m.add_message("second".to_string()).unwrap_err();
    assert_eq!(e, "Mempool is full");
}

#[test]
fn mempool_remove_then_add_succeeds_at_capacity() {
    let mut m = Mempool::new(0, 1000);
    let t = m.add_message("first".to_string()).unwrap();
    assert!(m.add_message("second".to_string()).is_err());
    m.remove_messages(&vec![t.id.clone()]);
    assert_eq!(m.pending_count(), 0);
    let u = m.add_message("third".to_string()).unwrap();
    assert_eq!(u.message, "third");
}

#[test]
fn mempool_remove_ignores_missing_ids() {
    let mut m = Mempool::new(5, 1000);
    let t = m.add_message("a".to_string()).unwrap();
    m.remove_messages(&vec!["no-such-id".to_string()]);
    assert_eq!(m.pending_count(), 1);
    m.remove_messages(&vec![t.id.clone(), "still-missing".to_string()]);
    assert_eq!(m.pending_count(), 0);
}

#[test]
fn mempool_clean_expired_is_idempotent_at_an_instant() {
    let mut m = Mempool::new(10, 50);
    m.add_message_at("old".to_string(), "id-old".to_string(), 1_000).unwrap();
    m.add_message_at("new".to_string(), "id-new".to_string(), 1_060).unwrap();
    m.clean_expired_at(1_070);
    assert_eq!(m.pending_count(), 1);
    let survivors: Vec<String> = m.get_pending_messages(10).iter().map(|t| t.id.clone()).collect();
    assert_eq!(survivors, vec!["id-new".to_string()]);
    m.clean_expired_at(1_070);
    assert_eq!(m.pending_count(), 1);
    let again: Vec<String> = m.get_pending_messages(10).iter().map(|t| t.id.clone()).collect();
    assert_eq!(again, survivors);
}

#[test]
fn mempool_add_displaces_same_id() {
    let mut m = Mempool::new(10, 100);
    m.add_message_at("one".to_string(), "dup".to_string(), 5).unwrap();
    m.add_message_at("two".to_string(), "dup".to_string(), 6).unwrap();
    assert_eq!(m.pending_count(), 1);
    assert_eq!(m.get_pending_messages(10)[0].message, "two");
}

#[test]
fn mempool_get_pending_respects_limit() {
    let mut m = Mempool::new(10, 100);
    for i in 0..5 {
        m.add_message(format!("m{}", i)).unwrap();
    }
    assert_eq!(m.get_pending_messages(3).len(), 3);
    assert_eq!(m.get_pending_messages(10).len(), 5);
    assert_eq!(m.get_pending_messages(0).len(), 0);
}

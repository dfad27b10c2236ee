use rustchain::block::Block;
use rustchain::codec::{parse_blocks, parse_transactions, serialize_blocks, serialize_transactions};
use rustchain::mempool::MessageTransaction;

fn tx(id: &str, message: &str, timestamp: i64, submitted_at: i64) -> MessageTransaction {
    MessageTransaction {
        id: id.to_string(),
        message: message.to_string(),
        timestamp,
        submitted_at,
    }
}

#[test]
fn serialize_transactions_exact_text() {
    let txs = vec![tx("a", "m\"x", 5, -3)];
    let s = serialize_transactions(&txs);
    assert_eq!(s, "[{\"id\":\"a\",\"message\":\"m\\\"x\",\"timestamp\":5,\"submitted_at\":-3}]");
}

#[test]
fn serialize_transactions_empty_and_pair() {
    assert_eq!(serialize_transactions(&vec![]), "[]");
    let txs = vec![tx("a", "x", 1, 1), tx("b", "y", 2, 2)];
    let s = serialize_transactions(&txs);
    assert_eq!(
        s,
        "[{\"id\":\"a\",\"message\":\"x\",\"timestamp\":1,\"submitted_at\":1},{\"id\":\"b\",\"message\":\"y\",\"timestamp\":2,\"submitted_at\":2}]"
    );
}

#[test]
fn transactions_round_trip() {
    let txs = vec![
        tx("id-1", "plain", 10, 11),
        tx("id-2", "quote \" slash \\ tab \t done", -5, 0),
        tx("id-3", "", i64::MIN, i64::MAX),
    ];
    let s = serialize_transactions(&txs);
    let back = parse_transactions(&s).unwrap();
    assert_eq!(back.len(), 3);
    for (a, b) in txs.iter().zip(back.iter()) {
        assert_eq!(a.id, b.id);
        assert_eq!(a.message, b.message);
        assert_eq!(a.timestamp, b.timestamp);
        assert_eq!(a.submitted_at, b.submitted_at);
    }
}

#[test]
fn control_characters_escape_and_round_trip() {
    let txs = vec![tx("id", "ctl \u{1} bell \u{7} tab \t nl \n done", 0, 0)];
    let s = serialize_transactions(&txs);
    assert_eq!(
        s,
        "[{\"id\":\"id\",\"message\":\"ctl \\u0001 bell \\u0007 tab \\t nl \\n done\",\"timestamp\":0,\"submitted_at\":0}]"
    );
    let back = parse_transactions(&s).unwrap();
    assert_eq!(back[0].message, txs[0].message);
}

#[test]
fn parser_accepts_unicode_control_escapes() {
    let s = "[{\"id\":\"\\u0002\",\"message\":\"a\\u001fb\",\"timestamp\":1,\"submitted_at\":1}]";
    let back = parse_transactions(s).unwrap();
    assert_eq!(back[0].id, "\u{2}");
    assert_eq!(back[0].message, "a\u{1f}b");
}

#[test]
fn parser_rejects_non_control_unicode_escapes() {
    let s = "[{\"id\":\"\\u0041\",\"message\":\"x\",\"timestamp\":1,\"submitted_at\":1}]";
    assert!(parse_transactions(s).is_none());
    let bad_hex = "[{\"id\":\"\\u00zz\",\"message\":\"x\",\"timestamp\":1,\"submitted_at\":1}]";
    assert!(parse_transactions(bad_hex).is_none());
}

#[test]
fn parse_transactions_rejects_malformed() {
    assert!(parse_transactions("").is_none());
    assert!(parse_transactions("{}").is_none());
    assert!(parse_transactions("[{\"id\":\"a\"}]").is_none());
    assert!(parse_transactions("[] trailing").is_none());
    assert!(parse_transactions("[{\"id\":\"a\",\"message\":\"x\",\"timestamp\":01,\"submitted_at\":1}]").is_none());
}

#[test]
fn blocks_round_trip() {
    let b1 = Block::new(0, "Fiat Lux".to_string(), 7, 3, "0".to_string());
    let b2 = Block::new(1, "data".to_string(), 8, 4, b1.hash.clone());
    let s = serialize_blocks(&vec![b1.clone(), b2.clone()]);
    let back = parse_blocks(&s).unwrap();
    assert_eq!(back, vec![b1, b2]);
}

#[test]
fn blocks_round_trip_extreme_values() {
    let b = Block {
        index: u64::MAX,
        timestamp: i64::MIN,
        data: String::new(),
        previous_hash: "0".to_string(),
        hash: "h".to_string(),
        proof: u64::MAX,
    };
    let s = serialize_blocks(&vec![b.clone()]);
    assert_eq!(parse_blocks(&s).unwrap(), vec![b]);
}

#[test]
fn serialize_blocks_exact_text() {
    let b = Block {
        index: 2,
        timestamp: -1,
        data: "d".to_string(),
        previous_hash: "p".to_string(),
        hash: "h".to_string(),
        proof: 9,
    };
    let s = serialize_blocks(&vec![b]);
    assert_eq!(
        s,
        "[{\"index\":2,\"timestamp\":-1,\"data\":\"d\",\"previous_hash\":\"p\",\"hash\":\"h\",\"proof\":9}]"
    );
}

#[test]
fn parse_blocks_rejects_malformed() {
    assert!(parse_blocks("[{\"index\":1}]").is_none());
    assert!(parse_blocks("[,]").is_none());
    assert!(parse_blocks("[{\"index\":-1,\"timestamp\":0,\"data\":\"\",\"previous_hash\":\"\",\"hash\":\"\",\"proof\":0}]").is_none());
}

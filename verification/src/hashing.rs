//! The block hasher: a canonical byte encoding of a block's fields,
//! digested with SHA-256 and rendered as lowercase hex.
//!
//! The encoding is big-endian 8-byte `index`, the byte `|`, big-endian
//! 8-byte `timestamp`, `|`, the UTF-8 bytes of `data`, `|`, the UTF-8
//! bytes of `previous_hash`, `|`, and the JSON encoding of the proof (a
//! decimal number). The separator byte keeps adjacent string fields from
//! running together.
use sha2::Digest;
use vstd::prelude::*;

verus! {

/// The big-endian bytes of a 64-bit unsigned value.
pub open spec fn u64_be_bytes(n: u64) -> Seq<u8> {
    seq![
        ((n >> 56) & 0xff) as u8,
        ((n >> 48) & 0xff) as u8,
        ((n >> 40) & 0xff) as u8,
        ((n >> 32) & 0xff) as u8,
        ((n >> 24) & 0xff) as u8,
        ((n >> 16) & 0xff) as u8,
        ((n >> 8) & 0xff) as u8,
        (n & 0xff) as u8,
    ]
}

/// The big-endian bytes of a 64-bit signed value (two's complement).
pub open spec fn i64_be_bytes(n: i64) -> Seq<u8> {
    seq![
        ((n >> 56) & 0xff) as u8,
        ((n >> 48) & 0xff) as u8,
        ((n >> 40) & 0xff) as u8,
        ((n >> 32) & 0xff) as u8,
        ((n >> 24) & 0xff) as u8,
        ((n >> 16) & 0xff) as u8,
        ((n >> 8) & 0xff) as u8,
        (n & 0xff) as u8,
    ]
}

/// The ASCII bytes of the decimal representation of `n`, no leading zeros.
pub open spec fn u64_dec_bytes(n: u64) -> Seq<u8>
    decreases n,
{
    if n < 10 {
        seq![(48 + n) as u8]
    } else {
        u64_dec_bytes(n / 10) + seq![(48 + n % 10) as u8]
    }
}

/// The lowercase hex digit for a nibble value.
pub open spec fn hex_digit_char(n: int) -> char {
    if n == 0 { '0' }
    else if n == 1 { '1' }
    else if n == 2 { '2' }
    else if n == 3 { '3' }
    else if n == 4 { '4' }
    else if n == 5 { '5' }
    else if n == 6 { '6' }
    else if n == 7 { '7' }
    else if n == 8 { '8' }
    else if n == 9 { '9' }
    else if n == 10 { 'a' }
    else if n == 11 { 'b' }
    else if n == 12 { 'c' }
    else if n == 13 { 'd' }
    else if n == 14 { 'e' }
    else { 'f' }
}

/// Lowercase hex rendering of a byte string, two digits per byte.
pub open spec fn hex_lower(bytes: Seq<u8>) -> Seq<char>
    decreases bytes.len(),
{
    if bytes.len() == 0 {
        Seq::empty()
    } else {
        seq![
            hex_digit_char(bytes[0] as int / 16),
            hex_digit_char(bytes[0] as int % 16),
        ] + hex_lower(bytes.drop_first())
    }
}

/// Hex rendering doubles the length: two digits per byte.
pub proof fn lemma_hex_lower_len(bytes: Seq<u8>)
    ensures
        hex_lower(bytes).len() == 2 * bytes.len(),
    decreases bytes.len(),
{
    if bytes.len() > 0 {
        lemma_hex_lower_len(bytes.drop_first());
    }
}

/// The SHA-256 digest of a byte string. The digest itself is left
/// unspecified: it is pinned only as a function of its input.
pub uninterp spec fn sha256_of(bytes: Seq<u8>) -> Seq<u8>;

/// The canonical byte encoding of a block's fields, fed to SHA-256.
pub open spec fn hash_input(
    index: u64,
    timestamp: i64,
    data: Seq<char>,
    previous_hash: Seq<char>,
    proof: u64,
) -> Seq<u8> {
    u64_be_bytes(index) + seq![124u8] + i64_be_bytes(timestamp) + seq![124u8]
        + vstd::utf8::encode_utf8(data) + seq![124u8] + vstd::utf8::encode_utf8(previous_hash)
        + seq![124u8] + u64_dec_bytes(proof)
}

/// What the block hasher returns, as a character sequence.
pub open spec fn block_hash_chars(
    index: u64,
    timestamp: i64,
    data: Seq<char>,
    previous_hash: Seq<char>,
    proof: u64,
) -> Seq<char> {
    hex_lower(sha256_of(hash_input(index, timestamp, data, previous_hash, proof)))
}

/// Relies on sha2's `Sha256`: one update over the whole input and a
/// finalize yield the 32-byte SHA-256 digest of the input.
#[verifier::external_body]
fn sha256(bytes: &Vec<u8>) -> (r: Vec<u8>)
    ensures
        r@ == sha256_of(bytes@),
        r@.len() == 32,
{
    let mut hasher = sha2::Sha256::new();
    hasher.update(bytes.as_slice());
    hasher.finalize().to_vec()
}

/// Relies on `hex::encode`: two lowercase hex digits per input byte, in
/// input order.
#[verifier::external_body]
fn hex_encode(bytes: &Vec<u8>) -> (r: String)
    ensures
        r@ == hex_lower(bytes@),
{
    hex::encode(bytes)
}

/// Relies on `serde_json::to_vec`: a `u64` serializes as its decimal
/// digits with no leading zeros, and serializing an integer cannot fail.
#[verifier::external_body]
fn json_u64_bytes(n: &u64) -> (r: Vec<u8>)
    ensures
        r@ == u64_dec_bytes(*n),
{
    serde_json::to_vec(n).expect("integer serialization cannot fail")
}

/// Appends the big-endian bytes of `n` to `out`.
fn push_u64_be(out: &mut Vec<u8>, n: u64)
    ensures
        final(out)@ == old(out)@ + u64_be_bytes(n),
{
    out.push(((n >> 56) & 0xff) as u8);
    out.push(((n >> 48) & 0xff) as u8);
    out.push(((n >> 40) & 0xff) as u8);
    out.push(((n >> 32) & 0xff) as u8);
    out.push(((n >> 24) & 0xff) as u8);
    out.push(((n >> 16) & 0xff) as u8);
    out.push(((n >> 8) & 0xff) as u8);
    out.push((n & 0xff) as u8);
    assert(out@ =~= old(out)@ + u64_be_bytes(n));
}

/// Appends the big-endian bytes of `n` to `out`.
fn push_i64_be(out: &mut Vec<u8>, n: i64)
    ensures
        final(out)@ == old(out)@ + i64_be_bytes(n),
{
    out.push(((n >> 56) & 0xff) as u8);
    out.push(((n >> 48) & 0xff) as u8);
    out.push(((n >> 40) & 0xff) as u8);
    out.push(((n >> 32) & 0xff) as u8);
    out.push(((n >> 24) & 0xff) as u8);
    out.push(((n >> 16) & 0xff) as u8);
    out.push(((n >> 8) & 0xff) as u8);
    out.push((n & 0xff) as u8);
    assert(out@ =~= old(out)@ + i64_be_bytes(n));
}

/// Hashes a block's fields: canonical encoding, SHA-256, lowercase hex.
pub fn hash(index: u64, timestamp: i64, data: &str, previous_hash: &str, proof: u64) -> (r:
    String)
    ensures
        r@ == block_hash_chars(index, timestamp, data@, previous_hash@, proof),
        r@.len() == 64,
{
    let mut input: Vec<u8> = Vec::new();
    push_u64_be(&mut input, index);
    input.push(124u8);
    push_i64_be(&mut input, timestamp);
    input.push(124u8);
    let mut data_bytes = data.as_bytes_vec();
    input.append(&mut data_bytes);
    input.push(124u8);
    let mut prev_bytes = previous_hash.as_bytes_vec();
    input.append(&mut prev_bytes);
    input.push(124u8);
    let mut proof_bytes = json_u64_bytes(&proof);
    input.append(&mut proof_bytes);
    assert(input@ =~= hash_input(index, timestamp, data@, previous_hash@, proof));
    let digest = sha256(&input);
    proof {
        lemma_hex_lower_len(digest@);
    }
    hex_encode(&digest)
}

} // verus!

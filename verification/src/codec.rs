//! The JSON codec for gossip payloads and the on-disk chain file: a
//! printer and a parser for transaction lists, block lists, and the
//! chain file object, with a proved round trip.
//!
//! The printer emits compact JSON with fields in declaration order. The
//! parser accepts exactly that shape. String escapes cover the quote,
//! the backslash, the usual short control escapes, and the `\u00XX`
//! form for the remaining control characters; other characters stand
//! for themselves.
use vstd::prelude::*;

use crate::block::{Block, BlockModel};
use crate::mempool::{MessageTransaction, TxModel};

verus! {

/// The decimal digit character for `d` (0 to 9).
pub open spec fn digit_char(d: int) -> char {
    if d == 0 { '0' }
    else if d == 1 { '1' }
    else if d == 2 { '2' }
    else if d == 3 { '3' }
    else if d == 4 { '4' }
    else if d == 5 { '5' }
    else if d == 6 { '6' }
    else if d == 7 { '7' }
    else if d == 8 { '8' }
    else { '9' }
}

/// The value of a decimal digit character, or -1.
pub open spec fn digit_val(c: char) -> int {
    if c == '0' { 0 }
    else if c == '1' { 1 }
    else if c == '2' { 2 }
    else if c == '3' { 3 }
    else if c == '4' { 4 }
    else if c == '5' { 5 }
    else if c == '6' { 6 }
    else if c == '7' { 7 }
    else if c == '8' { 8 }
    else if c == '9' { 9 }
    else { -1 }
}

/// Whether `c` is a decimal digit.
pub open spec fn is_digit_char(c: char) -> bool {
    digit_val(c) >= 0
}

/// Ten to the `k`.
pub open spec fn pow10(k: nat) -> int
    decreases k,
{
    if k == 0 {
        1
    } else {
        10 * pow10((k - 1) as nat)
    }
}

/// The decimal rendering of `n`, most significant digit first, no
/// leading zeros.
pub open spec fn dec_u64(n: u64) -> Seq<char>
    decreases n,
{
    if n < 10 {
        seq![digit_char(n as int)]
    } else {
        dec_u64(n / 10).push(digit_char((n % 10) as int))
    }
}

/// The decimal rendering of `n`, with a leading minus when negative.
pub open spec fn dec_i64(n: i64) -> Seq<char> {
    if n >= 0 {
        dec_u64(n as u64)
    } else {
        seq!['-'] + dec_u64((-(n as int)) as u64)
    }
}

/// The numeric value of a digit string, most significant digit first.
pub open spec fn digits_value(ds: Seq<char>) -> int
    decreases ds.len(),
{
    if ds.len() == 0 {
        0
    } else {
        digits_value(ds.drop_last()) * 10 + digit_val(ds.last())
    }
}

proof fn lemma_pow10_pos(k: nat)
    ensures
        pow10(k) >= 1,
    decreases k,
{
    if k > 0 {
        lemma_pow10_pos((k - 1) as nat);
    }
}

/// A digit string's value read from the front: the leading digit is
/// worth ten to the rest's length.
proof fn lemma_digits_value_front(ds: Seq<char>)
    requires
        ds.len() >= 1,
    ensures
        digits_value(ds) == digit_val(ds[0]) * pow10((ds.len() - 1) as nat) + digits_value(
            ds.drop_first(),
        ),
    decreases ds.len(),
{
    if ds.len() == 1 {
        assert(ds.drop_last().len() == 0);
        assert(ds.drop_first().len() == 0);
        assert(digits_value(ds.drop_last()) == 0);
        assert(digits_value(ds.drop_first()) == 0);
        assert(ds.last() == ds[0]);
        assert(pow10(0) == 1);
        assert(digits_value(ds) == digit_val(ds[0]));
    } else {
        let dl = ds.drop_last();
        lemma_digits_value_front(dl);
        assert(dl.drop_first() =~= ds.drop_first().drop_last());
        assert(dl[0] == ds[0]);
        assert(ds.drop_first().last() == ds.last());
        let k = (ds.len() - 2) as nat;
        lemma_pow10_pos(k);
        assert(pow10((ds.len() - 1) as nat) == 10 * pow10(k));
        assert(digits_value(ds) == digits_value(dl) * 10 + digit_val(ds.last()));
        assert(digits_value(dl) == digit_val(ds[0]) * pow10(k) + digits_value(dl.drop_first()));
        assert((digit_val(ds[0]) * pow10(k) + digits_value(dl.drop_first())) * 10 == digit_val(
            ds[0],
        ) * (10 * pow10(k)) + digits_value(dl.drop_first()) * 10) by (nonlinear_arith);
        assert(digits_value(ds.drop_first()) == digits_value(dl.drop_first()) * 10 + digit_val(
            ds.last(),
        ));
        assert(digits_value(ds) == digit_val(ds[0]) * (10 * pow10(k)) + (digits_value(
            dl.drop_first(),
        ) * 10 + digit_val(ds.last())));
    }
}

/// Every digit of a decimal rendering is a digit, the rendering is
/// nonempty, a multi-digit rendering does not start with zero, and the
/// rendering reads back to its value.
proof fn lemma_dec_u64_facts(n: u64)
    ensures
        dec_u64(n).len() >= 1,
        forall|k: int| 0 <= k < dec_u64(n).len() ==> is_digit_char(#[trigger] dec_u64(n)[k]),
        dec_u64(n).len() >= 2 ==> dec_u64(n)[0] != '0',
        digits_value(dec_u64(n)) == n,
        n >= 1 ==> dec_u64(n)[0] != '0',
    decreases n,
{
    if n < 10 {
        let ds = dec_u64(n);
        assert(ds == seq![digit_char(n as int)]);
        assert(ds.drop_last().len() == 0);
        assert(digits_value(ds.drop_last()) == 0);
        assert(digits_value(ds) == digit_val(digit_char(n as int)));
    } else {
        lemma_dec_u64_facts(n / 10);
        let ds = dec_u64(n);
        let pre = dec_u64(n / 10);
        assert(ds == pre.push(digit_char((n % 10) as int)));
        assert(ds.drop_last() =~= pre);
        assert(digits_value(ds) == digits_value(pre) * 10 + digit_val(
            digit_char((n % 10) as int),
        ));
        assert(digits_value(ds) == (n / 10) * 10 + (n % 10));
        assert(ds[0] == pre[0]);
        assert(n / 10 >= 1);
    }
}

/// The tail-recursive core of decimal parsing: consumes digits into
/// `acc`, failing on 64-bit overflow, and stops at the first non-digit.
pub open spec fn spec_parse_u64_loop(s: Seq<char>, acc: u64) -> Option<(u64, Seq<char>)>
    decreases s.len(),
{
    if s.len() == 0 {
        Some((acc, s))
    } else if is_digit_char(s[0]) {
        let d = digit_val(s[0]);
        if acc as int * 10 + d > u64::MAX as int {
            None
        } else {
            spec_parse_u64_loop(s.drop_first(), (acc as int * 10 + d) as u64)
        }
    } else {
        Some((acc, s))
    }
}

/// Parses a decimal `u64` from the head of `s`: at least one digit, no
/// leading zero, and no 64-bit overflow.
pub open spec fn spec_parse_u64(s: Seq<char>) -> Option<(u64, Seq<char>)> {
    if s.len() == 0 || !is_digit_char(s[0]) {
        None
    } else if s[0] == '0' && s.len() >= 2 && is_digit_char(s[1]) {
        None
    } else {
        spec_parse_u64_loop(s, 0)
    }
}

/// Parses a decimal `i64` from the head of `s`: an optional minus sign,
/// then digits, within the 64-bit signed range.
pub open spec fn spec_parse_i64(s: Seq<char>) -> Option<(i64, Seq<char>)> {
    if s.len() >= 1 && s[0] == '-' {
        match spec_parse_u64(s.drop_first()) {
            Some((m, r)) => if m >= 1 && m <= i64::MAX as u64 + 1 {
                Some(((-(m as int)) as i64, r))
            } else {
                None
            },
            None => None,
        }
    } else {
        match spec_parse_u64(s) {
            Some((m, r)) => if m <= i64::MAX as u64 {
                Some((m as i64, r))
            } else {
                None
            },
            None => None,
        }
    }
}

/// The parsing loop consumes exactly a digit string followed by a
/// non-digit remainder, accumulating its value.
proof fn lemma_parse_loop_digits(ds: Seq<char>, rest: Seq<char>, acc: u64)
    requires
        forall|k: int| 0 <= k < ds.len() ==> is_digit_char(#[trigger] ds[k]),
        rest.len() == 0 || !is_digit_char(rest[0]),
        acc * pow10(ds.len()) + digits_value(ds) <= u64::MAX,
        digits_value(ds) >= 0,
    ensures
        spec_parse_u64_loop(ds + rest, acc) == Some(
            ((acc * pow10(ds.len()) + digits_value(ds)) as u64, rest),
        ),
    decreases ds.len(),
{
    let s = ds + rest;
    if ds.len() == 0 {
        assert(s =~= rest);
        assert(acc * pow10(0) == acc) by (nonlinear_arith);
        if rest.len() == 0 {
        } else {
        }
    } else {
        let d0 = digit_val(ds[0]);
        let t = ds.drop_first();
        let k = t.len() as nat;
        lemma_pow10_pos(k);
        lemma_digits_value_front(ds);
        lemma_digits_value_nonneg(t);
        assert(s[0] == ds[0]);
        assert(is_digit_char(s[0]));
        // the accumulated value stays within range
        assert(pow10(ds.len()) == 10 * pow10(k));
        assert(acc * pow10(ds.len()) == (acc * 10) * pow10(k)) by (nonlinear_arith)
            requires
                pow10(ds.len()) == 10 * pow10(k),
        ;
        assert(digits_value(ds) == d0 * pow10(k) + digits_value(t));
        assert((acc * 10 + d0) * pow10(k) == (acc * 10) * pow10(k) + d0 * pow10(k))
            by (nonlinear_arith);
        assert((acc * 10 + d0) * pow10(k) + digits_value(t) == acc * pow10(ds.len())
            + digits_value(ds));
        assert(acc * 10 + d0 <= (acc * 10 + d0) * pow10(k) + digits_value(t)) by (nonlinear_arith)
            requires
                pow10(k) >= 1,
                digits_value(t) >= 0,
                acc * 10 + d0 >= 0,
        ;
        let acc2 = (acc as int * 10 + d0) as u64;
        assert(s.drop_first() =~= t + rest);
        lemma_parse_loop_digits(t, rest, acc2);
    }
}

proof fn lemma_digits_value_nonneg(ds: Seq<char>)
    requires
        forall|k: int| 0 <= k < ds.len() ==> is_digit_char(#[trigger] ds[k]),
    ensures
        digits_value(ds) >= 0,
    decreases ds.len(),
{
    if ds.len() > 0 {
        let dl = ds.drop_last();
        assert(forall|k: int| 0 <= k < dl.len() ==> is_digit_char(#[trigger] dl[k]));
        lemma_digits_value_nonneg(dl);
        assert(digits_value(dl) * 10 >= 0) by (nonlinear_arith)
            requires
                digits_value(dl) >= 0,
        ;
    }
}

/// Parsing reads back exactly what the decimal printer wrote.
pub proof fn lemma_parse_print_u64(n: u64, rest: Seq<char>)
    requires
        rest.len() == 0 || !is_digit_char(rest[0]),
    ensures
        spec_parse_u64(dec_u64(n) + rest) == Some((n, rest)),
{
    let ds = dec_u64(n);
    let s = ds + rest;
    lemma_dec_u64_facts(n);
    lemma_digits_value_nonneg(ds);
    assert(s[0] == ds[0]);
    if s[0] == '0' && s.len() >= 2 && is_digit_char(s[1]) {
        // a zero head means the rendering is the single digit "0",
        // so the next character comes from `rest` and is no digit
        assert(n == 0);
        assert(ds.len() == 1);
        assert(s[1] == rest[0]);
        assert(false);
    }
    assert(0 * pow10(ds.len()) == 0) by (nonlinear_arith);
    lemma_parse_loop_digits(ds, rest, 0);
}

/// Parsing reads back exactly what the signed decimal printer wrote.
pub proof fn lemma_parse_print_i64(n: i64, rest: Seq<char>)
    requires
        rest.len() == 0 || !is_digit_char(rest[0]),
    ensures
        spec_parse_i64(dec_i64(n) + rest) == Some((n, rest)),
{
    if n >= 0 {
        lemma_parse_print_u64(n as u64, rest);
        let s = dec_i64(n) + rest;
        lemma_dec_u64_facts(n as u64);
        assert(s[0] == dec_u64(n as u64)[0]);
        assert(s[0] != '-');
    } else {
        let m = (-(n as int)) as u64;
        lemma_parse_print_u64(m, rest);
        let s = dec_i64(n) + rest;
        assert(s[0] == '-');
        assert(s.drop_first() =~= dec_u64(m) + rest);
        assert(m >= 1 && m <= i64::MAX as u64 + 1);
    }
}

/// The escape of one character inside a JSON string.
pub open spec fn esc_char(c: char) -> Seq<char> {
    if c == '"' { seq!['\\', '"'] }
    else if c == '\\' { seq!['\\', '\\'] }
    else if c == '\u{8}' { seq!['\\', 'b'] }
    else if c == '\t' { seq!['\\', 't'] }
    else if c == '\n' { seq!['\\', 'n'] }
    else if c == '\u{c}' { seq!['\\', 'f'] }
    else if c == '\r' { seq!['\\', 'r'] }
    else if (c as u32) < 32 {
        seq![
            '\\',
            'u',
            '0',
            '0',
            crate::hashing::hex_digit_char((c as u32) as int / 16),
            crate::hashing::hex_digit_char((c as u32) as int % 16),
        ]
    }
    else { seq![c] }
}

/// The character an escape letter stands for, if any.
pub open spec fn unesc_char(c: char) -> Option<char> {
    if c == '"' { Some('"') }
    else if c == '\\' { Some('\\') }
    else if c == 'b' { Some('\u{8}') }
    else if c == 't' { Some('\t') }
    else if c == 'n' { Some('\n') }
    else if c == 'f' { Some('\u{c}') }
    else if c == 'r' { Some('\r') }
    else { None }
}

/// The value of a lowercase hex digit character, or -1.
pub open spec fn hex_val(c: char) -> int {
    if c == '0' { 0 }
    else if c == '1' { 1 }
    else if c == '2' { 2 }
    else if c == '3' { 3 }
    else if c == '4' { 4 }
    else if c == '5' { 5 }
    else if c == '6' { 6 }
    else if c == '7' { 7 }
    else if c == '8' { 8 }
    else if c == '9' { 9 }
    else if c == 'a' { 10 }
    else if c == 'b' { 11 }
    else if c == 'c' { 12 }
    else if c == 'd' { 13 }
    else if c == 'e' { 14 }
    else if c == 'f' { 15 }
    else { -1 }
}

/// The body of a JSON string: every character escaped as needed.
pub open spec fn json_escape(s: Seq<char>) -> Seq<char>
    decreases s.len(),
{
    if s.len() == 0 {
        Seq::empty()
    } else {
        esc_char(s[0]) + json_escape(s.drop_first())
    }
}

/// A JSON string: the escaped body between quotes.
pub open spec fn json_string(s: Seq<char>) -> Seq<char> {
    seq!['"'] + json_escape(s) + seq!['"']
}

/// Escaping splits over a final character.
proof fn lemma_escape_snoc(s: Seq<char>, c: char)
    ensures
        json_escape(s.push(c)) == json_escape(s) + esc_char(c),
    decreases s.len(),
{
    if s.len() == 0 {
        assert(s.push(c)[0] == c);
        assert(s.push(c).drop_first().len() == 0);
        assert(json_escape(s.push(c).drop_first()) =~= Seq::<char>::empty());
        assert(json_escape(s.push(c)) =~= json_escape(s) + esc_char(c));
    } else {
        lemma_escape_snoc(s.drop_first(), c);
        assert(s.push(c)[0] == s[0]);
        assert(s.push(c).drop_first() =~= s.drop_first().push(c));
        assert(json_escape(s.push(c)) =~= json_escape(s) + esc_char(c));
    }
}

/// Consumes an escaped string body up to its closing quote; yields the
/// unescaped text and the remainder after the quote.
#[verifier::opaque]
pub open spec fn spec_parse_strbody(s: Seq<char>) -> Option<(Seq<char>, Seq<char>)>
    decreases s.len(),
{
    if s.len() == 0 {
        None
    } else if s[0] == '"' {
        Some((Seq::empty(), s.drop_first()))
    } else if s[0] == '\\' {
        if s.len() < 2 {
            None
        } else if s[1] == 'u' {
            if s.len() < 6 {
                None
            } else {
                let v = hex_val(s[4]) * 16 + hex_val(s[5]);
                if s[2] == '0' && s[3] == '0' && hex_val(s[4]) >= 0 && hex_val(s[5]) >= 0 && v
                    < 32 {
                    match spec_parse_strbody(s.skip(6)) {
                        Some((t, r)) => Some((seq![v as char] + t, r)),
                        None => None,
                    }
                } else {
                    None
                }
            }
        } else {
            match unesc_char(s[1]) {
                Some(c) => match spec_parse_strbody(s.skip(2)) {
                    Some((t, r)) => Some((seq![c] + t, r)),
                    None => None,
                },
                None => None,
            }
        }
    } else {
        match spec_parse_strbody(s.drop_first()) {
            Some((t, r)) => Some((seq![s[0]] + t, r)),
            None => None,
        }
    }
}

/// Parses a JSON string at the head of `s`.
pub open spec fn spec_parse_string(s: Seq<char>) -> Option<(Seq<char>, Seq<char>)> {
    if s.len() >= 1 && s[0] == '"' {
        spec_parse_strbody(s.drop_first())
    } else {
        None
    }
}

/// A character's code as a `u32` is its code as an `int`, and below 32
/// the cast round-trips.
proof fn lemma_char_code_facts(c: char)
    ensures
        (c as u32) as int == c as int,
        0 <= c as int,
        (c as u32) < 32 ==> (((c as u32) as int) as char) == c,
{
}

/// Parsing a string body reads back exactly what the escaper wrote.
proof fn lemma_parse_print_strbody(s: Seq<char>, rest: Seq<char>)
    ensures
        spec_parse_strbody(json_escape(s) + seq!['"'] + rest) == Some((s, rest)),
    decreases s.len(),
{
    reveal(spec_parse_strbody);
    let input = json_escape(s) + seq!['"'] + rest;
    if s.len() == 0 {
        assert(input =~= seq!['"'] + rest);
        assert(input[0] == '"');
        assert(input.drop_first() =~= rest);
    } else {
        let c = s[0];
        let e = esc_char(c);
        lemma_parse_print_strbody(s.drop_first(), rest);
        let tailinput = json_escape(s.drop_first()) + seq!['"'] + rest;
        assert(input =~= e + tailinput);
        if c == '"' || c == '\\' || c == '\u{8}' || c == '\t' || c == '\n' || c == '\u{c}'
            || c == '\r' {
            assert(e.len() == 2);
            assert(e[0] == '\\');
            assert(e[1] != 'u');
            assert(input[0] == '\\');
            assert(input[1] == e[1]);
            assert(unesc_char(e[1]) == Some(c));
            assert(input.skip(2) =~= tailinput);
            assert(seq![c] + s.drop_first() =~= s);
        } else if (c as u32) < 32 {
            lemma_char_code_facts(c);
            let v = (c as u32) as int;
            assert(e.len() == 6);
            assert(0 <= v < 32);
            assert(v == c as int);
            assert(input[0] == '\\');
            assert(input[1] == 'u');
            assert(input[2] == '0');
            assert(input[3] == '0');
            assert(input[4] == crate::hashing::hex_digit_char(v / 16));
            assert(input[5] == crate::hashing::hex_digit_char(v % 16));
            assert(hex_val(input[4]) == v / 16);
            assert(hex_val(input[5]) == v % 16);
            assert(hex_val(input[4]) * 16 + hex_val(input[5]) == v);
            assert((v as char) as int == v);
            assert((v as char) == c);
            assert(input.skip(6) =~= tailinput);
            assert(seq![c] + s.drop_first() =~= s);
        } else {
            assert(e.len() == 1);
            assert(e[0] == c);
            assert(c != '"' && c != '\\');
            assert(input[0] == c);
            assert(input.drop_first() =~= tailinput);
            assert(seq![s[0]] + s.drop_first() =~= s);
        }
    }
}

/// Parsing a string reads back exactly what the printer wrote.
pub proof fn lemma_parse_print_string(s: Seq<char>, rest: Seq<char>)
    ensures
        spec_parse_string(json_string(s) + rest) == Some((s, rest)),
{
    let input = json_string(s) + rest;
    assert(input[0] == '"');
    lemma_parse_print_strbody(s, rest);
    assert(input.drop_first() =~= json_escape(s) + seq!['"'] + rest);
}

/// Relies on std's `String::push`: appends one character.
#[verifier::external_body]
fn push_char(out: &mut String, c: char)
    ensures
        final(out)@ == old(out)@.push(c),
{
    out.push(c);
}

/// Turns a string into its character array.
fn str_to_chars(s: &str) -> (r: Vec<char>)
    ensures
        r@ == s@,
{
    let n = s.unicode_len();
    let mut out: Vec<char> = Vec::new();
    let mut i: usize = 0;
    while i < n
        invariant
            i <= n == s@.len(),
            out@.len() == i,
            forall|j: int| 0 <= j < i ==> out@[j] == s@[j],
        decreases n - i,
    {
        out.push(s.get_char(i));
        i += 1;
    }
    proof {
        assert(out@ =~= s@);
    }
    out
}

/// Appends the JSON string form of `s` to `out`.
fn print_json_string(out: &mut String, s: &str)
    ensures
        final(out)@ == old(out)@ + json_string(s@),
{
    let n = s.unicode_len();
    push_char(out, '"');
    let mut i: usize = 0;
    while i < n
        invariant
            i <= n == s@.len(),
            out@ == old(out)@ + seq!['"'] + json_escape(s@.take(i as int)),
        decreases n - i,
    {
        let c = s.get_char(i);
        if c == '"' {
            push_char(out, '\\');
            push_char(out, '"');
        } else if c == '\\' {
            push_char(out, '\\');
            push_char(out, '\\');
        } else if c == '\u{8}' {
            push_char(out, '\\');
            push_char(out, 'b');
        } else if c == '\t' {
            push_char(out, '\\');
            push_char(out, 't');
        } else if c == '\n' {
            push_char(out, '\\');
            push_char(out, 'n');
        } else if c == '\u{c}' {
            push_char(out, '\\');
            push_char(out, 'f');
        } else if c == '\r' {
            push_char(out, '\\');
            push_char(out, 'r');
        } else if (c as u32) < 32 {
            let v = c as u32;
            push_char(out, '\\');
            push_char(out, 'u');
            push_char(out, '0');
            push_char(out, '0');
            push_char(out, hex_digit_char_exec((v / 16) as u64));
            push_char(out, hex_digit_char_exec((v % 16) as u64));
        } else {
            push_char(out, c);
        }
        proof {
            lemma_escape_snoc(s@.take(i as int), s@[i as int]);
            assert(s@.take(i as int).push(s@[i as int]) =~= s@.take(i as int + 1));
            assert(out@ =~= old(out)@ + seq!['"'] + json_escape(s@.take(i as int + 1)));
        }
        i += 1;
    }
    push_char(out, '"');
    proof {
        assert(s@.take(n as int) =~= s@);
        assert(out@ =~= old(out)@ + json_string(s@));
    }
}

/// Appends the decimal form of `n` to `out`.
fn print_u64(out: &mut String, n: u64)
    ensures
        final(out)@ == old(out)@ + dec_u64(n),
    decreases n,
{
    if n < 10 {
        push_char(out, digit_char_exec(n));
        proof {
            assert(out@ =~= old(out)@ + dec_u64(n));
        }
    } else {
        print_u64(out, n / 10);
        push_char(out, digit_char_exec(n % 10));
        proof {
            assert(out@ =~= old(out)@ + dec_u64(n));
        }
    }
}

/// The decimal digit character for `d` (0 to 9).
fn digit_char_exec(d: u64) -> (r: char)
    requires
        d < 10,
    ensures
        r == digit_char(d as int),
{
    if d == 0 { '0' }
    else if d == 1 { '1' }
    else if d == 2 { '2' }
    else if d == 3 { '3' }
    else if d == 4 { '4' }
    else if d == 5 { '5' }
    else if d == 6 { '6' }
    else if d == 7 { '7' }
    else if d == 8 { '8' }
    else { '9' }
}

/// The lowercase hex digit character for `d` (0 to 15).
fn hex_digit_char_exec(d: u64) -> (r: char)
    requires
        d < 16,
    ensures
        r == crate::hashing::hex_digit_char(d as int),
{
    if d == 0 { '0' }
    else if d == 1 { '1' }
    else if d == 2 { '2' }
    else if d == 3 { '3' }
    else if d == 4 { '4' }
    else if d == 5 { '5' }
    else if d == 6 { '6' }
    else if d == 7 { '7' }
    else if d == 8 { '8' }
    else if d == 9 { '9' }
    else if d == 10 { 'a' }
    else if d == 11 { 'b' }
    else if d == 12 { 'c' }
    else if d == 13 { 'd' }
    else if d == 14 { 'e' }
    else { 'f' }
}

/// The value of a lowercase hex digit character, if it is one.
fn hex_val_exec(c: char) -> (r: Option<u8>)
    ensures
        match r {
            Some(d) => hex_val(c) == d && d < 16,
            None => hex_val(c) < 0,
        },
{
    if c == '0' { Some(0) }
    else if c == '1' { Some(1) }
    else if c == '2' { Some(2) }
    else if c == '3' { Some(3) }
    else if c == '4' { Some(4) }
    else if c == '5' { Some(5) }
    else if c == '6' { Some(6) }
    else if c == '7' { Some(7) }
    else if c == '8' { Some(8) }
    else if c == '9' { Some(9) }
    else if c == 'a' { Some(10) }
    else if c == 'b' { Some(11) }
    else if c == 'c' { Some(12) }
    else if c == 'd' { Some(13) }
    else if c == 'e' { Some(14) }
    else if c == 'f' { Some(15) }
    else { None }
}

/// Appends the signed decimal form of `n` to `out`.
fn print_i64(out: &mut String, n: i64)
    ensures
        final(out)@ == old(out)@ + dec_i64(n),
{
    if n >= 0 {
        print_u64(out, n as u64);
    } else {
        push_char(out, '-');
        let m: u64 = if n == i64::MIN {
            9223372036854775808u64
        } else {
            (-n) as u64
        };
        proof {
            assert(m == (-(n as int)) as u64);
        }
        print_u64(out, m);
        proof {
            assert(out@ =~= old(out)@ + dec_i64(n));
        }
    }
}


/// The value of a decimal digit character, if it is one.
fn digit_val_exec(c: char) -> (r: Option<u64>)
    ensures
        match r {
            Some(d) => digit_val(c) == d && d < 10,
            None => !is_digit_char(c),
        },
{
    if c == '0' { Some(0) }
    else if c == '1' { Some(1) }
    else if c == '2' { Some(2) }
    else if c == '3' { Some(3) }
    else if c == '4' { Some(4) }
    else if c == '5' { Some(5) }
    else if c == '6' { Some(6) }
    else if c == '7' { Some(7) }
    else if c == '8' { Some(8) }
    else if c == '9' { Some(9) }
    else { None }
}

/// Parses a decimal `u64` at `pos`.
fn parse_u64_at(s: &Vec<char>, pos: usize) -> (r: Option<(u64, usize)>)
    requires
        pos <= s@.len(),
    ensures
        match r {
            Some((v, np)) => {
                &&& pos < np <= s@.len()
                &&& spec_parse_u64(s@.skip(pos as int)) == Some((v, s@.skip(np as int)))
            },
            None => spec_parse_u64(s@.skip(pos as int)) is None,
        },
{
    let ghost input = s@.skip(pos as int);
    if pos >= s.len() {
        return None;
    }
    let c0 = s[pos];
    proof {
        assert(input[0] == s@[pos as int]);
    }
    let d0 = match digit_val_exec(c0) {
        Some(d) => d,
        None => {
            return None;
        },
    };
    if c0 == '0' && pos + 1 < s.len() {
        let c1 = s[pos + 1];
        proof {
            assert(input[1] == s@[pos as int + 1]);
        }
        if digit_val_exec(c1).is_some() {
            return None;
        }
    }
    let mut acc: u64 = 0;
    let mut p: usize = pos;
    loop
        invariant
            pos <= p <= s@.len(),
            pos < s@.len(),
            input == s@.skip(pos as int),
            input.len() >= 1 && is_digit_char(input[0]),
            spec_parse_u64(input) == spec_parse_u64_loop(input, 0),
            spec_parse_u64_loop(input, 0) == spec_parse_u64_loop(s@.skip(p as int), acc),
        decreases s@.len() - p,
    {
        if p >= s.len() {
            proof {
                assert(s@.skip(p as int).len() == 0);
            }
            if p == pos {
                return None;
            }
            return Some((acc, p));
        }
        let c = s[p];
        proof {
            assert(s@.skip(p as int)[0] == s@[p as int]);
        }
        match digit_val_exec(c) {
            Some(d) => {
                let next = match acc.checked_mul(10) {
                    Some(x) => x.checked_add(d),
                    None => None,
                };
                match next {
                    Some(x) => {
                        proof {
                            assert(s@.skip(p as int).drop_first() =~= s@.skip(p as int + 1));
                        }
                        acc = x;
                        p = p + 1;
                    },
                    None => {
                        return None;
                    },
                }
            },
            None => {
                if p == pos {
                    return None;
                }
                return Some((acc, p));
            },
        }
    }
}

/// Parses a signed decimal `i64` at `pos`.
fn parse_i64_at(s: &Vec<char>, pos: usize) -> (r: Option<(i64, usize)>)
    requires
        pos <= s@.len(),
    ensures
        match r {
            Some((v, np)) => {
                &&& pos < np <= s@.len()
                &&& spec_parse_i64(s@.skip(pos as int)) == Some((v, s@.skip(np as int)))
            },
            None => spec_parse_i64(s@.skip(pos as int)) is None,
        },
{
    let ghost input = s@.skip(pos as int);
    if pos < s.len() && s[pos] == '-' {
        proof {
            assert(input[0] == '-');
            assert(input.drop_first() =~= s@.skip(pos as int + 1));
        }
        match parse_u64_at(s, pos + 1) {
            Some((m, np)) => {
                if m >= 1 && m <= 9223372036854775808u64 {
                    let v: i64 = if m == 9223372036854775808u64 {
                        i64::MIN
                    } else {
                        -(m as i64)
                    };
                    proof {
                        assert(v == (-(m as int)) as i64);
                    }
                    Some((v, np))
                } else {
                    None
                }
            },
            None => None,
        }
    } else {
        proof {
            if input.len() >= 1 {
                assert(input[0] == s@[pos as int]);
            }
        }
        match parse_u64_at(s, pos) {
            Some((m, np)) => {
                if m <= i64::MAX as u64 {
                    Some((m as i64, np))
                } else {
                    None
                }
            },
            None => None,
        }
    }
}

/// Prefixes the text of a parsed string body, passing a failure through.
pub open spec fn prepend_chars(prefix: Seq<char>, o: Option<(Seq<char>, Seq<char>)>) -> Option<
    (Seq<char>, Seq<char>),
> {
    match o {
        Some((t, r)) => Some((prefix + t, r)),
        None => None,
    }
}

/// Parses a JSON string at `pos`.
fn parse_string_at(s: &Vec<char>, pos: usize) -> (r: Option<(String, usize)>)
    requires
        pos <= s@.len(),
    ensures
        match r {
            Some((v, np)) => {
                &&& pos < np <= s@.len()
                &&& spec_parse_string(s@.skip(pos as int)) == Some((v@, s@.skip(np as int)))
            },
            None => spec_parse_string(s@.skip(pos as int)) is None,
        },
{
    let ghost input = s@.skip(pos as int);
    if pos >= s.len() || !(s[pos] == '"') {
        proof {
            if input.len() >= 1 {
                assert(input[0] == s@[pos as int]);
            }
        }
        return None;
    }
    proof {
        reveal(spec_parse_strbody);
        assert(input[0] == '"');
        assert(input.drop_first() =~= s@.skip(pos as int + 1));
    }
    let ghost body = s@.skip(pos as int + 1);
    let mut out = String::new();
    let mut p: usize = pos + 1;
    loop
        invariant
            pos + 1 <= p <= s@.len(),
            body == s@.skip(pos as int + 1),
            input == s@.skip(pos as int),
            input.len() >= 1 && input[0] == '"',
            input.drop_first() == body,
            spec_parse_strbody(body) == prepend_chars(out@, spec_parse_strbody(s@.skip(p as int))),
        decreases s@.len() - p,
    {
        if p >= s.len() {
            proof {
                reveal(spec_parse_strbody);
                assert(s@.skip(p as int).len() == 0);
            }
            return None;
        }
        let c = s[p];
        proof {
            reveal(spec_parse_strbody);
            assert(s@.skip(p as int)[0] == s@[p as int]);
        }
        if c == '"' {
            proof {
                assert(s@.skip(p as int).drop_first() =~= s@.skip(p as int + 1));
                assert(spec_parse_strbody(s@.skip(p as int)) == Some(
                    (Seq::<char>::empty(), s@.skip(p as int + 1)),
                ));
                assert(out@ + Seq::<char>::empty() =~= out@);
            }
            return Some((out, p + 1));
        }
        if c == '\\' {
            if p + 1 >= s.len() {
                proof {
                    assert(s@.skip(p as int).len() < 2);
                }
                return None;
            }
            let e = s[p + 1];
            proof {
                assert(s@.skip(p as int)[1] == s@[p as int + 1]);
            }
            if e == 'u' {
                if s.len() - p < 6 {
                    proof {
                        assert(s@.skip(p as int).len() < 6);
                    }
                    return None;
                }
                proof {
                    assert(s@.skip(p as int)[2] == s@[p as int + 2]);
                    assert(s@.skip(p as int)[3] == s@[p as int + 3]);
                    assert(s@.skip(p as int)[4] == s@[p as int + 4]);
                    assert(s@.skip(p as int)[5] == s@[p as int + 5]);
                }
                if !(s[p + 2] == '0') || !(s[p + 3] == '0') {
                    return None;
                }
                let hv = match hex_val_exec(s[p + 4]) {
                    Some(x) => x,
                    None => {
                        return None;
                    },
                };
                let lv = match hex_val_exec(s[p + 5]) {
                    Some(x) => x,
                    None => {
                        return None;
                    },
                };
                let v: u8 = hv * 16 + lv;
                if v >= 32 {
                    return None;
                }
                let u: char = v as char;
                proof {
                    assert(u as int == v as int);
                }
                let ghost pre = out@;
                push_char(&mut out, u);
                proof {
                    assert(s@.skip(p as int).skip(6) =~= s@.skip(p as int + 6));
                    assert(out@ =~= pre + seq![u]);
                    assert forall|t: Seq<char>| true implies pre + (seq![u] + t) =~= (pre
                        + seq![u]) + t by {}
                }
                p = p + 6;
                continue ;
            }
            let u: char = if e == '"' { '"' }
            else if e == '\\' { '\\' }
            else if e == 'b' { '\u{8}' }
            else if e == 't' { '\t' }
            else if e == 'n' { '\n' }
            else if e == 'f' { '\u{c}' }
            else if e == 'r' { '\r' }
            else {
                proof {
                    assert(unesc_char(s@.skip(p as int)[1]) is None);
                }
                return None;
            };
            proof {
                assert(unesc_char(s@.skip(p as int)[1]) == Some(u));
            }
            let ghost pre = out@;
            push_char(&mut out, u);
            proof {
                assert(s@.skip(p as int).skip(2) =~= s@.skip(p as int + 2));
                assert(out@ =~= pre + seq![u]);
                assert forall|t: Seq<char>| true implies pre + (seq![u] + t) =~= (pre + seq![u])
                    + t by {}
            }
            p = p + 2;
        } else {
            let ghost pre = out@;
            push_char(&mut out, c);
            proof {
                assert(s@.skip(p as int).drop_first() =~= s@.skip(p as int + 1));
                assert(out@ =~= pre + seq![c]);
                assert forall|t: Seq<char>| true implies pre + (seq![c] + t) =~= (pre + seq![c])
                    + t by {}
            }
            p = p + 1;
        }
    }
}


/// Consumes `lit` from the head of `s`.
pub open spec fn spec_expect(s: Seq<char>, lit: Seq<char>) -> Option<Seq<char>> {
    if s.len() >= lit.len() && s.take(lit.len() as int) == lit {
        Some(s.skip(lit.len() as int))
    } else {
        None
    }
}

/// Consuming a literal off a string that starts with it leaves the tail.
proof fn lemma_expect_concat(lit: Seq<char>, t: Seq<char>)
    ensures
        spec_expect(lit + t, lit) == Some(t),
{
    assert((lit + t).take(lit.len() as int) =~= lit);
    assert((lit + t).skip(lit.len() as int) =~= t);
}

/// The JSON object form of a transaction.
pub open spec fn json_tx(t: TxModel) -> Seq<char> {
    "{\"id\":"@ + json_string(t.id) + ",\"message\":"@ + json_string(t.message)
        + ",\"timestamp\":"@ + dec_i64(t.timestamp) + ",\"submitted_at\":"@ + dec_i64(
        t.submitted_at,
    ) + "}"@
}

/// The comma-led continuation of a transaction list.
pub open spec fn json_tx_more(ts: Seq<TxModel>) -> Seq<char>
    decreases ts.len(),
{
    if ts.len() == 0 {
        Seq::empty()
    } else {
        seq![','] + json_tx(ts[0]) + json_tx_more(ts.drop_first())
    }
}

/// The JSON array form of a transaction list.
pub open spec fn json_tx_list(ts: Seq<TxModel>) -> Seq<char> {
    if ts.len() == 0 {
        seq!['['] + seq![']']
    } else {
        seq!['['] + json_tx(ts[0]) + json_tx_more(ts.drop_first()) + seq![']']
    }
}

/// Parses one transaction object.
pub open spec fn spec_parse_tx(s: Seq<char>) -> Option<(TxModel, Seq<char>)> {
    match spec_expect(s, "{\"id\":"@) {
        Some(r1) => match spec_parse_string(r1) {
            Some((id, r2)) => match spec_expect(r2, ",\"message\":"@) {
                Some(r3) => match spec_parse_string(r3) {
                    Some((message, r4)) => match spec_expect(r4, ",\"timestamp\":"@) {
                        Some(r5) => match spec_parse_i64(r5) {
                            Some((timestamp, r6)) => match spec_expect(r6, ",\"submitted_at\":"@) {
                                Some(r7) => match spec_parse_i64(r7) {
                                    Some((submitted_at, r8)) => match spec_expect(r8, "}"@) {
                                        Some(r9) => Some(
                                            (TxModel { id, message, timestamp, submitted_at }, r9),
                                        ),
                                        None => None,
                                    },
                                    None => None,
                                },
                                None => None,
                            },
                            None => None,
                        },
                        None => None,
                    },
                    None => None,
                },
                None => None,
            },
            None => None,
        },
        None => None,
    }
}

/// Parses the continuation of a transaction list: elements led by
/// commas, ended by the closing bracket.
pub open spec fn spec_parse_tx_more(s: Seq<char>) -> Option<(Seq<TxModel>, Seq<char>)>
    decreases s.len(),
{
    if s.len() == 0 {
        None
    } else if s[0] == ']' {
        Some((Seq::empty(), s.drop_first()))
    } else if s[0] == ',' {
        match spec_parse_tx(s.drop_first()) {
            Some((t, r)) => if r.len() < s.len() {
                match spec_parse_tx_more(r) {
                    Some((ts, r2)) => Some((seq![t] + ts, r2)),
                    None => None,
                }
            } else {
                None
            },
            None => None,
        }
    } else {
        None
    }
}

/// Parses a transaction list.
pub open spec fn spec_parse_tx_list(s: Seq<char>) -> Option<(Seq<TxModel>, Seq<char>)> {
    match spec_expect(s, seq!['[']) {
        Some(r) => if r.len() >= 1 && r[0] == ']' {
            Some((Seq::empty(), r.drop_first()))
        } else {
            match spec_parse_tx(r) {
                Some((t, r2)) => match spec_parse_tx_more(r2) {
                    Some((ts, r3)) => Some((seq![t] + ts, r3)),
                    None => None,
                },
                None => None,
            }
        },
        None => None,
    }
}

/// Parsing a transaction reads back exactly what the printer wrote.
proof fn lemma_parse_print_tx(t: TxModel, rest: Seq<char>)
    ensures
        spec_parse_tx(json_tx(t) + rest) == Some((t, rest)),
{
    let s = json_tx(t) + rest;
    let t8: Seq<char> = "}"@ + rest;
    let t7 = dec_i64(t.submitted_at) + t8;
    let t6: Seq<char> = ",\"submitted_at\":"@ + t7;
    let t5 = dec_i64(t.timestamp) + t6;
    let t4: Seq<char> = ",\"timestamp\":"@ + t5;
    let t3 = json_string(t.message) + t4;
    let t2: Seq<char> = ",\"message\":"@ + t3;
    let t1 = json_string(t.id) + t2;
    assert(s =~= "{\"id\":"@ + t1);
    lemma_expect_concat("{\"id\":"@, t1);
    lemma_parse_print_string(t.id, t2);
    lemma_expect_concat(",\"message\":"@, t3);
    lemma_parse_print_string(t.message, t4);
    lemma_expect_concat(",\"timestamp\":"@, t5);
    reveal_strlit(",\"submitted_at\":");
    reveal_strlit("}");
    assert(t6[0] == ',');
    assert(t6.len() >= 1 && !is_digit_char(t6[0]));
    lemma_parse_print_i64(t.timestamp, t6);
    lemma_expect_concat(",\"submitted_at\":"@, t7);
    assert(t8[0] == '}');
    assert(t8.len() >= 1 && !is_digit_char(t8[0]));
    lemma_parse_print_i64(t.submitted_at, t8);
    lemma_expect_concat("}"@, rest);
    assert((TxModel {
        id: t.id,
        message: t.message,
        timestamp: t.timestamp,
        submitted_at: t.submitted_at,
    }) == t);
}

/// Parsing a list continuation reads back what the printer wrote.
#[verifier::rlimit(100)]
proof fn lemma_parse_print_tx_more(ts: Seq<TxModel>, rest: Seq<char>)
    ensures
        spec_parse_tx_more(json_tx_more(ts) + seq![']'] + rest) == Some((ts, rest)),
    decreases ts.len(),
{
    let s = json_tx_more(ts) + seq![']'] + rest;
    if ts.len() == 0 {
        assert(s =~= seq![']'] + rest);
        assert(s[0] == ']');
        assert(s.drop_first() =~= rest);
        assert(ts =~= Seq::<TxModel>::empty());
    } else {
        let tail = json_tx_more(ts.drop_first()) + seq![']'] + rest;
        assert(s =~= seq![','] + (json_tx(ts[0]) + tail));
        assert(s[0] == ',');
        assert(s.drop_first() =~= json_tx(ts[0]) + tail);
        lemma_parse_print_tx(ts[0], tail);
        assert(tail.len() < s.len());
        lemma_parse_print_tx_more(ts.drop_first(), rest);
        assert(seq![ts[0]] + ts.drop_first() =~= ts);
    }
}

/// Parsing a transaction list reads back what the printer wrote.
#[verifier::rlimit(100)]
pub proof fn lemma_parse_print_tx_list(ts: Seq<TxModel>, rest: Seq<char>)
    ensures
        spec_parse_tx_list(json_tx_list(ts) + rest) == Some((ts, rest)),
{
    let s = json_tx_list(ts) + rest;
    if ts.len() == 0 {
        let r = seq![']'] + rest;
        assert(s =~= seq!['['] + r);
        lemma_expect_concat(seq!['['], r);
        assert(r[0] == ']');
        assert(r.drop_first() =~= rest);
        assert(ts =~= Seq::<TxModel>::empty());
    } else {
        let tail = json_tx_more(ts.drop_first()) + seq![']'] + rest;
        let r = json_tx(ts[0]) + tail;
        assert(s =~= seq!['['] + r);
        lemma_expect_concat(seq!['['], r);
        reveal_strlit("{\"id\":");
        assert(r[0] == '{');
        assert(!(r[0] == ']'));
        lemma_parse_print_tx(ts[0], tail);
        lemma_parse_print_tx_more(ts.drop_first(), rest);
        assert(seq![ts[0]] + ts.drop_first() =~= ts);
    }
}

/// The JSON object form of a block.
pub open spec fn json_block(b: BlockModel) -> Seq<char> {
    "{\"index\":"@ + dec_u64(b.index) + ",\"timestamp\":"@ + dec_i64(b.timestamp) + ",\"data\":"@
        + json_string(b.data) + ",\"previous_hash\":"@ + json_string(b.previous_hash)
        + ",\"hash\":"@ + json_string(b.hash) + ",\"proof\":"@ + dec_u64(b.proof) + "}"@
}

/// The comma-led continuation of a block list.
pub open spec fn json_block_more(bs: Seq<BlockModel>) -> Seq<char>
    decreases bs.len(),
{
    if bs.len() == 0 {
        Seq::empty()
    } else {
        seq![','] + json_block(bs[0]) + json_block_more(bs.drop_first())
    }
}

/// The JSON array form of a block list.
pub open spec fn json_block_list(bs: Seq<BlockModel>) -> Seq<char> {
    if bs.len() == 0 {
        seq!['['] + seq![']']
    } else {
        seq!['['] + json_block(bs[0]) + json_block_more(bs.drop_first()) + seq![']']
    }
}

/// Parses one block object.
pub open spec fn spec_parse_block(s: Seq<char>) -> Option<(BlockModel, Seq<char>)> {
    match spec_expect(s, "{\"index\":"@) {
        Some(r1) => match spec_parse_u64(r1) {
            Some((index, r2)) => match spec_expect(r2, ",\"timestamp\":"@) {
                Some(r3) => match spec_parse_i64(r3) {
                    Some((timestamp, r4)) => match spec_expect(r4, ",\"data\":"@) {
                        Some(r5) => match spec_parse_string(r5) {
                            Some((data, r6)) => match spec_expect(r6, ",\"previous_hash\":"@) {
                                Some(r7) => match spec_parse_string(r7) {
                                    Some((previous_hash, r8)) => match spec_expect(
                                        r8,
                                        ",\"hash\":"@,
                                    ) {
                                        Some(r9) => match spec_parse_string(r9) {
                                            Some((hash, r10)) => match spec_expect(
                                                r10,
                                                ",\"proof\":"@,
                                            ) {
                                                Some(r11) => match spec_parse_u64(r11) {
                                                    Some((proof, r12)) => match spec_expect(
                                                        r12,
                                                        "}"@,
                                                    ) {
                                                        Some(r13) => Some(
                                                            (
                                                                BlockModel {
                                                                    index,
                                                                    timestamp,
                                                                    data,
                                                                    previous_hash,
                                                                    hash,
                                                                    proof,
                                                                },
                                                                r13,
                                                            ),
                                                        ),
                                                        None => None,
                                                    },
                                                    None => None,
                                                },
                                                None => None,
                                            },
                                            None => None,
                                        },
                                        None => None,
                                    },
                                    None => None,
                                },
                                None => None,
                            },
                            None => None,
                        },
                        None => None,
                    },
                    None => None,
                },
                None => None,
            },
            None => None,
        },
        None => None,
    }
}

/// Parses the continuation of a block list.
pub open spec fn spec_parse_block_more(s: Seq<char>) -> Option<(Seq<BlockModel>, Seq<char>)>
    decreases s.len(),
{
    if s.len() == 0 {
        None
    } else if s[0] == ']' {
        Some((Seq::empty(), s.drop_first()))
    } else if s[0] == ',' {
        match spec_parse_block(s.drop_first()) {
            Some((b, r)) => if r.len() < s.len() {
                match spec_parse_block_more(r) {
                    Some((bs, r2)) => Some((seq![b] + bs, r2)),
                    None => None,
                }
            } else {
                None
            },
            None => None,
        }
    } else {
        None
    }
}

/// Parses a block list.
pub open spec fn spec_parse_block_list(s: Seq<char>) -> Option<(Seq<BlockModel>, Seq<char>)> {
    match spec_expect(s, seq!['[']) {
        Some(r) => if r.len() >= 1 && r[0] == ']' {
            Some((Seq::empty(), r.drop_first()))
        } else {
            match spec_parse_block(r) {
                Some((b, r2)) => match spec_parse_block_more(r2) {
                    Some((bs, r3)) => Some((seq![b] + bs, r3)),
                    None => None,
                },
                None => None,
            }
        },
        None => None,
    }
}

/// Parsing a block reads back exactly what the printer wrote.
#[verifier::rlimit(100)]
proof fn lemma_parse_print_block(b: BlockModel, rest: Seq<char>)
    ensures
        spec_parse_block(json_block(b) + rest) == Some((b, rest)),
{
    let s = json_block(b) + rest;
    let t12: Seq<char> = "}"@ + rest;
    let t11 = dec_u64(b.proof) + t12;
    let t10: Seq<char> = ",\"proof\":"@ + t11;
    let t9 = json_string(b.hash) + t10;
    let t8: Seq<char> = ",\"hash\":"@ + t9;
    let t7 = json_string(b.previous_hash) + t8;
    let t6: Seq<char> = ",\"previous_hash\":"@ + t7;
    let t5 = json_string(b.data) + t6;
    let t4: Seq<char> = ",\"data\":"@ + t5;
    let t3 = dec_i64(b.timestamp) + t4;
    let t2: Seq<char> = ",\"timestamp\":"@ + t3;
    let t1 = dec_u64(b.index) + t2;
    assert(s =~= "{\"index\":"@ + t1);
    lemma_expect_concat("{\"index\":"@, t1);
    reveal_strlit(",\"timestamp\":");
    reveal_strlit(",\"data\":");
    reveal_strlit("}");
    assert(t2[0] == ',');
    assert(t2.len() >= 1 && !is_digit_char(t2[0]));
    lemma_parse_print_u64(b.index, t2);
    lemma_expect_concat(",\"timestamp\":"@, t3);
    assert(t4[0] == ',');
    assert(t4.len() >= 1 && !is_digit_char(t4[0]));
    lemma_parse_print_i64(b.timestamp, t4);
    lemma_expect_concat(",\"data\":"@, t5);
    lemma_parse_print_string(b.data, t6);
    lemma_expect_concat(",\"previous_hash\":"@, t7);
    lemma_parse_print_string(b.previous_hash, t8);
    lemma_expect_concat(",\"hash\":"@, t9);
    lemma_parse_print_string(b.hash, t10);
    lemma_expect_concat(",\"proof\":"@, t11);
    assert(t12[0] == '}');
    assert(t12.len() >= 1 && !is_digit_char(t12[0]));
    lemma_parse_print_u64(b.proof, t12);
    lemma_expect_concat("}"@, rest);
    assert((BlockModel {
        index: b.index,
        timestamp: b.timestamp,
        data: b.data,
        previous_hash: b.previous_hash,
        hash: b.hash,
        proof: b.proof,
    }) == b);
}

/// Parsing a block list continuation reads back what the printer wrote.
#[verifier::rlimit(100)]
proof fn lemma_parse_print_block_more(bs: Seq<BlockModel>, rest: Seq<char>)
    ensures
        spec_parse_block_more(json_block_more(bs) + seq![']'] + rest) == Some((bs, rest)),
    decreases bs.len(),
{
    let s = json_block_more(bs) + seq![']'] + rest;
    if bs.len() == 0 {
        assert(s =~= seq![']'] + rest);
        assert(s[0] == ']');
        assert(s.drop_first() =~= rest);
        assert(bs =~= Seq::<BlockModel>::empty());
    } else {
        let tail = json_block_more(bs.drop_first()) + seq![']'] + rest;
        assert(s =~= seq![','] + (json_block(bs[0]) + tail));
        assert(s[0] == ',');
        assert(s.drop_first() =~= json_block(bs[0]) + tail);
        lemma_parse_print_block(bs[0], tail);
        assert(tail.len() < s.len());
        lemma_parse_print_block_more(bs.drop_first(), rest);
        assert(seq![bs[0]] + bs.drop_first() =~= bs);
    }
}

/// Parsing a block list reads back what the printer wrote.
#[verifier::rlimit(100)]
pub proof fn lemma_parse_print_block_list(bs: Seq<BlockModel>, rest: Seq<char>)
    ensures
        spec_parse_block_list(json_block_list(bs) + rest) == Some((bs, rest)),
{
    let s = json_block_list(bs) + rest;
    if bs.len() == 0 {
        let r = seq![']'] + rest;
        assert(s =~= seq!['['] + r);
        lemma_expect_concat(seq!['['], r);
        assert(r[0] == ']');
        assert(r.drop_first() =~= rest);
        assert(bs =~= Seq::<BlockModel>::empty());
    } else {
        let tail = json_block_more(bs.drop_first()) + seq![']'] + rest;
        let r = json_block(bs[0]) + tail;
        assert(s =~= seq!['['] + r);
        lemma_expect_concat(seq!['['], r);
        reveal_strlit("{\"index\":");
        assert(r[0] == '{');
        assert(!(r[0] == ']'));
        lemma_parse_print_block(bs[0], tail);
        lemma_parse_print_block_more(bs.drop_first(), rest);
        assert(seq![bs[0]] + bs.drop_first() =~= bs);
    }
}

/// The comma-led continuation of a string list.
pub open spec fn json_str_more(ss: Seq<Seq<char>>) -> Seq<char>
    decreases ss.len(),
{
    if ss.len() == 0 {
        Seq::empty()
    } else {
        seq![','] + json_string(ss[0]) + json_str_more(ss.drop_first())
    }
}

/// The JSON array form of a string list.
pub open spec fn json_str_list(ss: Seq<Seq<char>>) -> Seq<char> {
    if ss.len() == 0 {
        seq!['['] + seq![']']
    } else {
        seq!['['] + json_string(ss[0]) + json_str_more(ss.drop_first()) + seq![']']
    }
}

/// Parses the continuation of a string list.
pub open spec fn spec_parse_str_more(s: Seq<char>) -> Option<(Seq<Seq<char>>, Seq<char>)>
    decreases s.len(),
{
    if s.len() == 0 {
        None
    } else if s[0] == ']' {
        Some((Seq::empty(), s.drop_first()))
    } else if s[0] == ',' {
        match spec_parse_string(s.drop_first()) {
            Some((v, r)) => if r.len() < s.len() {
                match spec_parse_str_more(r) {
                    Some((vs, r2)) => Some((seq![v] + vs, r2)),
                    None => None,
                }
            } else {
                None
            },
            None => None,
        }
    } else {
        None
    }
}

/// Parses a string list.
pub open spec fn spec_parse_str_list(s: Seq<char>) -> Option<(Seq<Seq<char>>, Seq<char>)> {
    match spec_expect(s, seq!['[']) {
        Some(r) => if r.len() >= 1 && r[0] == ']' {
            Some((Seq::empty(), r.drop_first()))
        } else {
            match spec_parse_string(r) {
                Some((v, r2)) => match spec_parse_str_more(r2) {
                    Some((vs, r3)) => Some((seq![v] + vs, r3)),
                    None => None,
                },
                None => None,
            }
        },
        None => None,
    }
}

/// Parsing a string list continuation reads back what the printer wrote.
proof fn lemma_parse_print_str_more(ss: Seq<Seq<char>>, rest: Seq<char>)
    ensures
        spec_parse_str_more(json_str_more(ss) + seq![']'] + rest) == Some((ss, rest)),
    decreases ss.len(),
{
    let s = json_str_more(ss) + seq![']'] + rest;
    if ss.len() == 0 {
        assert(s =~= seq![']'] + rest);
        assert(s[0] == ']');
        assert(s.drop_first() =~= rest);
        assert(ss =~= Seq::<Seq<char>>::empty());
    } else {
        let tail = json_str_more(ss.drop_first()) + seq![']'] + rest;
        assert(s =~= seq![','] + (json_string(ss[0]) + tail));
        assert(s[0] == ',');
        assert(s.drop_first() =~= json_string(ss[0]) + tail);
        lemma_parse_print_string(ss[0], tail);
        assert(tail.len() < s.len());
        lemma_parse_print_str_more(ss.drop_first(), rest);
        assert(seq![ss[0]] + ss.drop_first() =~= ss);
    }
}

/// Parsing a string list reads back what the printer wrote.
pub proof fn lemma_parse_print_str_list(ss: Seq<Seq<char>>, rest: Seq<char>)
    ensures
        spec_parse_str_list(json_str_list(ss) + rest) == Some((ss, rest)),
{
    let s = json_str_list(ss) + rest;
    if ss.len() == 0 {
        let r = seq![']'] + rest;
        assert(s =~= seq!['['] + r);
        lemma_expect_concat(seq!['['], r);
        assert(r[0] == ']');
        assert(r.drop_first() =~= rest);
        assert(ss =~= Seq::<Seq<char>>::empty());
    } else {
        let tail = json_str_more(ss.drop_first()) + seq![']'] + rest;
        let r = json_string(ss[0]) + tail;
        assert(s =~= seq!['['] + r);
        lemma_expect_concat(seq!['['], r);
        assert(r[0] == '"');
        assert(!(r[0] == ']'));
        lemma_parse_print_string(ss[0], tail);
        lemma_parse_print_str_more(ss.drop_first(), rest);
        assert(seq![ss[0]] + ss.drop_first() =~= ss);
    }
}

/// The JSON object form of the on-disk chain file: the blocks, the peer
/// addresses, and the consensus difficulty.
pub open spec fn json_chain_file(
    blocks: Seq<BlockModel>,
    nodes: Seq<Seq<char>>,
    difficulty: u64,
) -> Seq<char> {
    "{\"chain\":"@ + json_block_list(blocks) + ",\"nodes\":"@ + json_str_list(nodes)
        + ",\"consensus\":{\"difficulty\":"@ + dec_u64(difficulty) + "}}"@
}

/// Parses a chain file object.
pub open spec fn spec_parse_chain_file(s: Seq<char>) -> Option<
    ((Seq<BlockModel>, Seq<Seq<char>>, u64), Seq<char>),
> {
    match spec_expect(s, "{\"chain\":"@) {
        Some(r1) => match spec_parse_block_list(r1) {
            Some((blocks, r2)) => match spec_expect(r2, ",\"nodes\":"@) {
                Some(r3) => match spec_parse_str_list(r3) {
                    Some((nodes, r4)) => match spec_expect(
                        r4,
                        ",\"consensus\":{\"difficulty\":"@,
                    ) {
                        Some(r5) => match spec_parse_u64(r5) {
                            Some((difficulty, r6)) => match spec_expect(r6, "}}"@) {
                                Some(r7) => Some(((blocks, nodes, difficulty), r7)),
                                None => None,
                            },
                            None => None,
                        },
                        None => None,
                    },
                    None => None,
                },
                None => None,
            },
            None => None,
        },
        None => None,
    }
}

/// Serializing and parsing a chain file is the identity on the blocks,
/// the node list and the difficulty.
#[verifier::rlimit(100)]
pub proof fn lemma_chain_file_round_trip(
    blocks: Seq<BlockModel>,
    nodes: Seq<Seq<char>>,
    difficulty: u64,
    rest: Seq<char>,
)
    ensures
        spec_parse_chain_file(json_chain_file(blocks, nodes, difficulty) + rest) == Some(
            ((blocks, nodes, difficulty), rest),
        ),
{
    let s = json_chain_file(blocks, nodes, difficulty) + rest;
    let t6: Seq<char> = "}}"@ + rest;
    let t5 = dec_u64(difficulty) + t6;
    let t4: Seq<char> = ",\"consensus\":{\"difficulty\":"@ + t5;
    let t3 = json_str_list(nodes) + t4;
    let t2: Seq<char> = ",\"nodes\":"@ + t3;
    let t1 = json_block_list(blocks) + t2;
    assert(s =~= "{\"chain\":"@ + t1);
    lemma_expect_concat("{\"chain\":"@, t1);
    lemma_parse_print_block_list(blocks, t2);
    lemma_expect_concat(",\"nodes\":"@, t3);
    lemma_parse_print_str_list(nodes, t4);
    lemma_expect_concat(",\"consensus\":{\"difficulty\":"@, t5);
    reveal_strlit("}}");
    assert(t6[0] == '}');
    assert(t6.len() >= 1 && !is_digit_char(t6[0]));
    lemma_parse_print_u64(difficulty, t6);
    lemma_expect_concat("}}"@, rest);
}


/// Appends the JSON object form of `t` to `out`.
fn print_tx(out: &mut String, t: &MessageTransaction)
    ensures
        final(out)@ == old(out)@ + json_tx(t@),
{
    out.append("{\"id\":");
    print_json_string(out, t.id.as_str());
    out.append(",\"message\":");
    print_json_string(out, t.message.as_str());
    out.append(",\"timestamp\":");
    print_i64(out, t.timestamp);
    out.append(",\"submitted_at\":");
    print_i64(out, t.submitted_at);
    out.append("}");
    proof {
        assert(out@ =~= old(out)@ + json_tx(t@));
    }
}

/// The JSON array form of a transaction list, as block data.
pub fn serialize_transactions(txs: &Vec<MessageTransaction>) -> (r: String)
    ensures
        r@ == json_tx_list(txs.deep_view()),
{
    let ghost dv = txs.deep_view();
    let mut out = String::new();
    push_char(&mut out, '[');
    if txs.len() == 0 {
        push_char(&mut out, ']');
        proof {
            assert(out@ =~= json_tx_list(dv));
        }
        return out;
    }
    proof {
        assert(dv[0] == txs@[0]@);
    }
    print_tx(&mut out, &txs[0]);
    let mut i: usize = 1;
    while i < txs.len()
        invariant
            1 <= i <= txs@.len(),
            dv == txs.deep_view(),
            dv.len() == txs@.len(),
            out@ + json_tx_more(dv.skip(i as int)) + seq![']'] =~= json_tx_list(dv),
        decreases txs@.len() - i,
    {
        let ghost pre = out@;
        push_char(&mut out, ',');
        proof {
            assert(dv[i as int] == txs@[i as int]@);
        }
        print_tx(&mut out, &txs[i]);
        proof {
            assert(dv.skip(i as int).drop_first() =~= dv.skip(i as int + 1));
            assert(dv.skip(i as int)[0] == dv[i as int]);
            assert(out@ + json_tx_more(dv.skip(i as int + 1)) + seq![']'] =~= pre + json_tx_more(
                dv.skip(i as int),
            ) + seq![']']);
        }
        i += 1;
    }
    push_char(&mut out, ']');
    proof {
        assert(dv.skip(dv.len() as int).len() == 0);
        assert(json_tx_more(dv.skip(dv.len() as int)) =~= Seq::<char>::empty());
        assert(out@ =~= json_tx_list(dv));
    }
    out
}

/// Appends the JSON object form of `b` to `out`.
fn print_block(out: &mut String, b: &Block)
    ensures
        final(out)@ == old(out)@ + json_block(b@),
{
    out.append("{\"index\":");
    print_u64(out, b.index);
    out.append(",\"timestamp\":");
    print_i64(out, b.timestamp);
    out.append(",\"data\":");
    print_json_string(out, b.data.as_str());
    out.append(",\"previous_hash\":");
    print_json_string(out, b.previous_hash.as_str());
    out.append(",\"hash\":");
    print_json_string(out, b.hash.as_str());
    out.append(",\"proof\":");
    print_u64(out, b.proof);
    out.append("}");
    proof {
        assert(out@ =~= old(out)@ + json_block(b@));
    }
}

/// The JSON array form of a block list, as served to peers.
pub fn serialize_blocks(blocks: &Vec<Block>) -> (r: String)
    ensures
        r@ == json_block_list(blocks.deep_view()),
{
    let ghost dv = blocks.deep_view();
    let mut out = String::new();
    push_char(&mut out, '[');
    if blocks.len() == 0 {
        push_char(&mut out, ']');
        proof {
            assert(out@ =~= json_block_list(dv));
        }
        return out;
    }
    proof {
        assert(dv[0] == blocks@[0]@);
    }
    print_block(&mut out, &blocks[0]);
    let mut i: usize = 1;
    while i < blocks.len()
        invariant
            1 <= i <= blocks@.len(),
            dv == blocks.deep_view(),
            dv.len() == blocks@.len(),
            out@ + json_block_more(dv.skip(i as int)) + seq![']'] =~= json_block_list(dv),
        decreases blocks@.len() - i,
    {
        let ghost pre = out@;
        push_char(&mut out, ',');
        proof {
            assert(dv[i as int] == blocks@[i as int]@);
        }
        print_block(&mut out, &blocks[i]);
        proof {
            assert(dv.skip(i as int).drop_first() =~= dv.skip(i as int + 1));
            assert(dv.skip(i as int)[0] == dv[i as int]);
            assert(out@ + json_block_more(dv.skip(i as int + 1)) + seq![']'] =~= pre
                + json_block_more(dv.skip(i as int)) + seq![']']);
        }
        i += 1;
    }
    push_char(&mut out, ']');
    proof {
        assert(dv.skip(dv.len() as int).len() == 0);
        assert(json_block_more(dv.skip(dv.len() as int)) =~= Seq::<char>::empty());
        assert(out@ =~= json_block_list(dv));
    }
    out
}

/// Appends the JSON array form of a node list to `out`.
fn print_str_list(out: &mut String, nodes: &Vec<String>)
    ensures
        final(out)@ == old(out)@ + json_str_list(nodes.deep_view()),
{
    let ghost dv = nodes.deep_view();
    let ghost base = old(out)@;
    push_char(out, '[');
    if nodes.len() == 0 {
        push_char(out, ']');
        proof {
            assert(out@ =~= base + json_str_list(dv));
        }
        return ;
    }
    proof {
        assert(dv[0] == nodes@[0]@);
    }
    print_json_string(out, nodes[0].as_str());
    let mut i: usize = 1;
    while i < nodes.len()
        invariant
            1 <= i <= nodes@.len(),
            dv == nodes.deep_view(),
            dv.len() == nodes@.len(),
            out@ + json_str_more(dv.skip(i as int)) + seq![']'] =~= base + json_str_list(dv),
            base == old(out)@,
        decreases nodes@.len() - i,
    {
        let ghost pre = out@;
        push_char(out, ',');
        proof {
            assert(dv[i as int] == nodes@[i as int]@);
        }
        print_json_string(out, nodes[i].as_str());
        proof {
            assert(dv.skip(i as int).drop_first() =~= dv.skip(i as int + 1));
            assert(dv.skip(i as int)[0] == dv[i as int]);
            assert(out@ + json_str_more(dv.skip(i as int + 1)) + seq![']'] =~= pre + json_str_more(
                dv.skip(i as int),
            ) + seq![']']);
        }
        i += 1;
    }
    push_char(out, ']');
    proof {
        assert(dv.skip(dv.len() as int).len() == 0);
        assert(json_str_more(dv.skip(dv.len() as int)) =~= Seq::<char>::empty());
        assert(out@ =~= base + json_str_list(dv));
    }
}

/// The JSON form of the on-disk chain file.
pub fn chain_file_json(blocks: &Vec<Block>, nodes: &Vec<String>, difficulty: u64) -> (r: String)
    ensures
        r@ == json_chain_file(blocks.deep_view(), nodes.deep_view(), difficulty),
{
    let mut out = String::new();
    out.append("{\"chain\":");
    let body = serialize_blocks(blocks);
    out.append(body.as_str());
    out.append(",\"nodes\":");
    print_str_list(&mut out, nodes);
    out.append(",\"consensus\":{\"difficulty\":");
    print_u64(&mut out, difficulty);
    out.append("}}");
    proof {
        assert(out@ =~= json_chain_file(blocks.deep_view(), nodes.deep_view(), difficulty));
    }
    out
}

/// Consumes `lit` at `pos`.
fn expect_at(s: &Vec<char>, pos: usize, lit: &str) -> (r: Option<usize>)
    requires
        pos <= s@.len(),
    ensures
        match r {
            Some(np) => {
                &&& pos <= np <= s@.len()
                &&& np == pos + lit@.len()
                &&& spec_expect(s@.skip(pos as int), lit@) == Some(s@.skip(np as int))
            },
            None => spec_expect(s@.skip(pos as int), lit@) is None,
        },
{
    let n = lit.unicode_len();
    if n > s.len() - pos {
        proof {
            assert(s@.skip(pos as int).len() < lit@.len());
        }
        return None;
    }
    let mut i: usize = 0;
    while i < n
        invariant
            i <= n,
            pos + n <= s@.len(),
            pos + n <= usize::MAX,
            n == lit@.len(),
            forall|j: int| 0 <= j < i ==> s@[pos + j] == lit@[j],
        decreases n - i,
    {
        let c = s[pos + i];
        if !(c == lit.get_char(i)) {
            proof {
                assert(s@.skip(pos as int).take(n as int)[i as int] == s@[pos + i]);
            }
            return None;
        }
        i += 1;
    }
    proof {
        assert(s@.skip(pos as int).take(n as int) =~= lit@);
        assert(s@.skip(pos as int).skip(n as int) =~= s@.skip(pos as int + n as int));
    }
    Some(pos + n)
}

/// Parses one transaction object at `pos`.
fn parse_tx_at(s: &Vec<char>, pos: usize) -> (r: Option<(MessageTransaction, usize)>)
    requires
        pos <= s@.len(),
    ensures
        match r {
            Some((v, np)) => {
                &&& pos < np <= s@.len()
                &&& spec_parse_tx(s@.skip(pos as int)) == Some((v@, s@.skip(np as int)))
            },
            None => spec_parse_tx(s@.skip(pos as int)) is None,
        },
{
    let p1 = match expect_at(s, pos, "{\"id\":") {
        Some(p) => p,
        None => {
            return None;
        },
    };
    let (id, p2) = match parse_string_at(s, p1) {
        Some(x) => x,
        None => {
            return None;
        },
    };
    let p3 = match expect_at(s, p2, ",\"message\":") {
        Some(p) => p,
        None => {
            return None;
        },
    };
    let (message, p4) = match parse_string_at(s, p3) {
        Some(x) => x,
        None => {
            return None;
        },
    };
    let p5 = match expect_at(s, p4, ",\"timestamp\":") {
        Some(p) => p,
        None => {
            return None;
        },
    };
    let (timestamp, p6) = match parse_i64_at(s, p5) {
        Some(x) => x,
        None => {
            return None;
        },
    };
    let p7 = match expect_at(s, p6, ",\"submitted_at\":") {
        Some(p) => p,
        None => {
            return None;
        },
    };
    let (submitted_at, p8) = match parse_i64_at(s, p7) {
        Some(x) => x,
        None => {
            return None;
        },
    };
    let p9 = match expect_at(s, p8, "}") {
        Some(p) => p,
        None => {
            return None;
        },
    };
    Some((MessageTransaction { id, message, timestamp, submitted_at }, p9))
}

/// Parses one block object at `pos`.
fn parse_block_at(s: &Vec<char>, pos: usize) -> (r: Option<(Block, usize)>)
    requires
        pos <= s@.len(),
    ensures
        match r {
            Some((v, np)) => {
                &&& pos < np <= s@.len()
                &&& spec_parse_block(s@.skip(pos as int)) == Some((v@, s@.skip(np as int)))
            },
            None => spec_parse_block(s@.skip(pos as int)) is None,
        },
{
    let p1 = match expect_at(s, pos, "{\"index\":") {
        Some(p) => p,
        None => {
            return None;
        },
    };
    let (index, p2) = match parse_u64_at(s, p1) {
        Some(x) => x,
        None => {
            return None;
        },
    };
    let p3 = match expect_at(s, p2, ",\"timestamp\":") {
        Some(p) => p,
        None => {
            return None;
        },
    };
    let (timestamp, p4) = match parse_i64_at(s, p3) {
        Some(x) => x,
        None => {
            return None;
        },
    };
    let p5 = match expect_at(s, p4, ",\"data\":") {
        Some(p) => p,
        None => {
            return None;
        },
    };
    let (data, p6) = match parse_string_at(s, p5) {
        Some(x) => x,
        None => {
            return None;
        },
    };
    let p7 = match expect_at(s, p6, ",\"previous_hash\":") {
        Some(p) => p,
        None => {
            return None;
        },
    };
    let (previous_hash, p8) = match parse_string_at(s, p7) {
        Some(x) => x,
        None => {
            return None;
        },
    };
    let p9 = match expect_at(s, p8, ",\"hash\":") {
        Some(p) => p,
        None => {
            return None;
        },
    };
    let (hash, p10) = match parse_string_at(s, p9) {
        Some(x) => x,
        None => {
            return None;
        },
    };
    let p11 = match expect_at(s, p10, ",\"proof\":") {
        Some(p) => p,
        None => {
            return None;
        },
    };
    let (proof_value, p12) = match parse_u64_at(s, p11) {
        Some(x) => x,
        None => {
            return None;
        },
    };
    let p13 = match expect_at(s, p12, "}") {
        Some(p) => p,
        None => {
            return None;
        },
    };
    Some((Block { index, timestamp, data, previous_hash, hash, proof: proof_value }, p13))
}

/// Prefixes parsed transactions, passing a failure through.
pub open spec fn prepend_txs(
    prefix: Seq<TxModel>,
    o: Option<(Seq<TxModel>, Seq<char>)>,
) -> Option<(Seq<TxModel>, Seq<char>)> {
    match o {
        Some((ts, r)) => Some((prefix + ts, r)),
        None => None,
    }
}

/// Prefixes parsed blocks, passing a failure through.
pub open spec fn prepend_blocks(
    prefix: Seq<BlockModel>,
    o: Option<(Seq<BlockModel>, Seq<char>)>,
) -> Option<(Seq<BlockModel>, Seq<char>)> {
    match o {
        Some((bs, r)) => Some((prefix + bs, r)),
        None => None,
    }
}

/// Prefixes parsed strings, passing a failure through.
pub open spec fn prepend_strs(
    prefix: Seq<Seq<char>>,
    o: Option<(Seq<Seq<char>>, Seq<char>)>,
) -> Option<(Seq<Seq<char>>, Seq<char>)> {
    match o {
        Some((vs, r)) => Some((prefix + vs, r)),
        None => None,
    }
}

/// Parses a transaction list at `pos`.
fn parse_tx_list_at(s: &Vec<char>, pos: usize) -> (r: Option<(Vec<MessageTransaction>, usize)>)
    requires
        pos <= s@.len(),
    ensures
        match r {
            Some((v, np)) => {
                &&& pos < np <= s@.len()
                &&& spec_parse_tx_list(s@.skip(pos as int)) == Some(
                    (v.deep_view(), s@.skip(np as int)),
                )
            },
            None => spec_parse_tx_list(s@.skip(pos as int)) is None,
        },
{
    let ghost input = s@.skip(pos as int);
    if pos >= s.len() || !(s[pos] == '[') {
        proof {
            if input.len() >= 1 {
                assert(input.take(1)[0] == s@[pos as int]);
            }
        }
        return None;
    }
    proof {
        assert(input.take(1) =~= seq!['[']);
        assert(input.skip(1) =~= s@.skip(pos as int + 1));
    }
    if pos + 1 < s.len() && s[pos + 1] == ']' {
        let out: Vec<MessageTransaction> = Vec::new();
        proof {
            assert(s@.skip(pos as int + 1)[0] == ']');
            assert(s@.skip(pos as int + 1).drop_first() =~= s@.skip(pos as int + 2));
            assert(out.deep_view() =~= Seq::<TxModel>::empty());
        }
        return Some((out, pos + 2));
    }
    proof {
        if pos as int + 1 < s@.len() {
            assert(s@.skip(pos as int + 1)[0] == s@[pos as int + 1]);
        }
    }
    let (first, p0) = match parse_tx_at(s, pos + 1) {
        Some(x) => x,
        None => {
            return None;
        },
    };
    let mut out: Vec<MessageTransaction> = Vec::new();
    let ghost firstv = first@;
    out.push(first);
    proof {
        assert(out.deep_view() =~= seq![firstv]);
    }
    let mut p: usize = p0;
    loop
        invariant
            pos < p <= s@.len(),
            input == s@.skip(pos as int),
            spec_parse_tx_list(input) == prepend_txs(
                out.deep_view(),
                spec_parse_tx_more(s@.skip(p as int)),
            ),
        decreases s@.len() - p,
    {
        if p >= s.len() {
            proof {
                assert(s@.skip(p as int).len() == 0);
            }
            return None;
        }
        let c = s[p];
        proof {
            assert(s@.skip(p as int)[0] == s@[p as int]);
        }
        if c == ']' {
            proof {
                assert(s@.skip(p as int).drop_first() =~= s@.skip(p as int + 1));
                assert(out.deep_view() + Seq::<TxModel>::empty() =~= out.deep_view());
            }
            return Some((out, p + 1));
        }
        if c == ',' {
            let (tx, np) = match parse_tx_at(s, p + 1) {
                Some(x) => x,
                None => {
                    proof {
                        assert(s@.skip(p as int).drop_first() =~= s@.skip(p as int + 1));
                    }
                    return None;
                },
            };
            proof {
                assert(s@.skip(p as int).drop_first() =~= s@.skip(p as int + 1));
                assert(s@.skip(np as int).len() < s@.skip(p as int).len());
                assert(spec_parse_tx_more(s@.skip(p as int)) == prepend_txs(
                    seq![tx@],
                    spec_parse_tx_more(s@.skip(np as int)),
                ));
            }
            let ghost pre = out.deep_view();
            let ghost txv = tx@;
            out.push(tx);
            proof {
                assert forall|j: int| 0 <= j < out@.len() implies out.deep_view()[j] == pre.push(
                    txv,
                )[j] by {
                    assert(out.deep_view()[j] == out@[j]@);
                }
                assert(out.deep_view() =~= pre.push(txv));
                assert(pre.push(txv) =~= pre + seq![txv]);
                lemma_prepend_txs_assoc(pre, seq![txv], spec_parse_tx_more(s@.skip(np as int)));
            }
            p = np;
        } else {
            return None;
        }
    }
}

proof fn lemma_prepend_txs_assoc(
    a: Seq<TxModel>,
    b: Seq<TxModel>,
    o: Option<(Seq<TxModel>, Seq<char>)>,
)
    ensures
        prepend_txs(a, prepend_txs(b, o)) == prepend_txs(a + b, o),
{
    match o {
        Some((ts, r)) => {
            assert(a + (b + ts) =~= (a + b) + ts);
        },
        None => {},
    }
}

proof fn lemma_prepend_blocks_assoc(
    a: Seq<BlockModel>,
    b: Seq<BlockModel>,
    o: Option<(Seq<BlockModel>, Seq<char>)>,
)
    ensures
        prepend_blocks(a, prepend_blocks(b, o)) == prepend_blocks(a + b, o),
{
    match o {
        Some((bs, r)) => {
            assert(a + (b + bs) =~= (a + b) + bs);
        },
        None => {},
    }
}

proof fn lemma_prepend_strs_assoc(
    a: Seq<Seq<char>>,
    b: Seq<Seq<char>>,
    o: Option<(Seq<Seq<char>>, Seq<char>)>,
)
    ensures
        prepend_strs(a, prepend_strs(b, o)) == prepend_strs(a + b, o),
{
    match o {
        Some((vs, r)) => {
            assert(a + (b + vs) =~= (a + b) + vs);
        },
        None => {},
    }
}

/// Parses a block list at `pos`.
fn parse_block_list_at(s: &Vec<char>, pos: usize) -> (r: Option<(Vec<Block>, usize)>)
    requires
        pos <= s@.len(),
    ensures
        match r {
            Some((v, np)) => {
                &&& pos < np <= s@.len()
                &&& spec_parse_block_list(s@.skip(pos as int)) == Some(
                    (v.deep_view(), s@.skip(np as int)),
                )
            },
            None => spec_parse_block_list(s@.skip(pos as int)) is None,
        },
{
    let ghost input = s@.skip(pos as int);
    if pos >= s.len() || !(s[pos] == '[') {
        proof {
            if input.len() >= 1 {
                assert(input.take(1)[0] == s@[pos as int]);
            }
        }
        return None;
    }
    proof {
        assert(input.take(1) =~= seq!['[']);
        assert(input.skip(1) =~= s@.skip(pos as int + 1));
    }
    if pos + 1 < s.len() && s[pos + 1] == ']' {
        let out: Vec<Block> = Vec::new();
        proof {
            assert(s@.skip(pos as int + 1)[0] == ']');
            assert(s@.skip(pos as int + 1).drop_first() =~= s@.skip(pos as int + 2));
            assert(out.deep_view() =~= Seq::<BlockModel>::empty());
        }
        return Some((out, pos + 2));
    }
    proof {
        if pos as int + 1 < s@.len() {
            assert(s@.skip(pos as int + 1)[0] == s@[pos as int + 1]);
        }
    }
    let (first, p0) = match parse_block_at(s, pos + 1) {
        Some(x) => x,
        None => {
            return None;
        },
    };
    let mut out: Vec<Block> = Vec::new();
    let ghost firstv = first@;
    out.push(first);
    proof {
        assert(out.deep_view() =~= seq![firstv]);
    }
    let mut p: usize = p0;
    loop
        invariant
            pos < p <= s@.len(),
            input == s@.skip(pos as int),
            spec_parse_block_list(input) == prepend_blocks(
                out.deep_view(),
                spec_parse_block_more(s@.skip(p as int)),
            ),
        decreases s@.len() - p,
    {
        if p >= s.len() {
            proof {
                assert(s@.skip(p as int).len() == 0);
            }
            return None;
        }
        let c = s[p];
        proof {
            assert(s@.skip(p as int)[0] == s@[p as int]);
        }
        if c == ']' {
            proof {
                assert(s@.skip(p as int).drop_first() =~= s@.skip(p as int + 1));
                assert(out.deep_view() + Seq::<BlockModel>::empty() =~= out.deep_view());
            }
            return Some((out, p + 1));
        }
        if c == ',' {
            let (b, np) = match parse_block_at(s, p + 1) {
                Some(x) => x,
                None => {
                    proof {
                        assert(s@.skip(p as int).drop_first() =~= s@.skip(p as int + 1));
                    }
                    return None;
                },
            };
            proof {
                assert(s@.skip(p as int).drop_first() =~= s@.skip(p as int + 1));
                assert(s@.skip(np as int).len() < s@.skip(p as int).len());
                assert(spec_parse_block_more(s@.skip(p as int)) == prepend_blocks(
                    seq![b@],
                    spec_parse_block_more(s@.skip(np as int)),
                ));
            }
            let ghost pre = out.deep_view();
            let ghost bv = b@;
            out.push(b);
            proof {
                assert forall|j: int| 0 <= j < out@.len() implies out.deep_view()[j] == pre.push(
                    bv,
                )[j] by {
                    assert(out.deep_view()[j] == out@[j]@);
                }
                assert(out.deep_view() =~= pre.push(bv));
                assert(pre.push(bv) =~= pre + seq![bv]);
                lemma_prepend_blocks_assoc(pre, seq![bv], spec_parse_block_more(s@.skip(np as int)));
            }
            p = np;
        } else {
            return None;
        }
    }
}

/// Parses a string list at `pos`.
fn parse_str_list_at(s: &Vec<char>, pos: usize) -> (r: Option<(Vec<String>, usize)>)
    requires
        pos <= s@.len(),
    ensures
        match r {
            Some((v, np)) => {
                &&& pos < np <= s@.len()
                &&& spec_parse_str_list(s@.skip(pos as int)) == Some(
                    (v.deep_view(), s@.skip(np as int)),
                )
            },
            None => spec_parse_str_list(s@.skip(pos as int)) is None,
        },
{
    let ghost input = s@.skip(pos as int);
    if pos >= s.len() || !(s[pos] == '[') {
        proof {
            if input.len() >= 1 {
                assert(input.take(1)[0] == s@[pos as int]);
            }
        }
        return None;
    }
    proof {
        assert(input.take(1) =~= seq!['[']);
        assert(input.skip(1) =~= s@.skip(pos as int + 1));
    }
    if pos + 1 < s.len() && s[pos + 1] == ']' {
        let out: Vec<String> = Vec::new();
        proof {
            assert(s@.skip(pos as int + 1)[0] == ']');
            assert(s@.skip(pos as int + 1).drop_first() =~= s@.skip(pos as int + 2));
            assert(out.deep_view() =~= Seq::<Seq<char>>::empty());
        }
        return Some((out, pos + 2));
    }
    proof {
        if pos as int + 1 < s@.len() {
            assert(s@.skip(pos as int + 1)[0] == s@[pos as int + 1]);
        }
    }
    let (first, p0) = match parse_string_at(s, pos + 1) {
        Some(x) => x,
        None => {
            return None;
        },
    };
    let mut out: Vec<String> = Vec::new();
    let ghost firstv = first@;
    out.push(first);
    proof {
        assert(out.deep_view() =~= seq![firstv]);
    }
    let mut p: usize = p0;
    loop
        invariant
            pos < p <= s@.len(),
            input == s@.skip(pos as int),
            spec_parse_str_list(input) == prepend_strs(
                out.deep_view(),
                spec_parse_str_more(s@.skip(p as int)),
            ),
        decreases s@.len() - p,
    {
        if p >= s.len() {
            proof {
                assert(s@.skip(p as int).len() == 0);
            }
            return None;
        }
        let c = s[p];
        proof {
            assert(s@.skip(p as int)[0] == s@[p as int]);
        }
        if c == ']' {
            proof {
                assert(s@.skip(p as int).drop_first() =~= s@.skip(p as int + 1));
                assert(out.deep_view() + Seq::<Seq<char>>::empty() =~= out.deep_view());
            }
            return Some((out, p + 1));
        }
        if c == ',' {
            let (v, np) = match parse_string_at(s, p + 1) {
                Some(x) => x,
                None => {
                    proof {
                        assert(s@.skip(p as int).drop_first() =~= s@.skip(p as int + 1));
                    }
                    return None;
                },
            };
            proof {
                assert(s@.skip(p as int).drop_first() =~= s@.skip(p as int + 1));
                assert(s@.skip(np as int).len() < s@.skip(p as int).len());
                assert(spec_parse_str_more(s@.skip(p as int)) == prepend_strs(
                    seq![v@],
                    spec_parse_str_more(s@.skip(np as int)),
                ));
            }
            let ghost pre = out.deep_view();
            let ghost vv = v@;
            out.push(v);
            proof {
                assert forall|j: int| 0 <= j < out@.len() implies out.deep_view()[j] == pre.push(
                    vv,
                )[j] by {
                    assert(out.deep_view()[j] == out@[j]@);
                }
                assert(out.deep_view() =~= pre.push(vv));
                assert(pre.push(vv) =~= pre + seq![vv]);
                lemma_prepend_strs_assoc(pre, seq![vv], spec_parse_str_more(s@.skip(np as int)));
            }
            p = np;
        } else {
            return None;
        }
    }
}

/// Parses a whole transaction list, demanding full consumption, as when
/// reading a block's data back.
pub fn parse_transactions(s: &str) -> (r: Option<Vec<MessageTransaction>>)
    ensures
        match r {
            Some(v) => spec_parse_tx_list(s@) == Some((v.deep_view(), Seq::<char>::empty())),
            None => match spec_parse_tx_list(s@) {
                Some((ts, rest)) => rest.len() > 0,
                None => true,
            },
        },
{
    let chars = str_to_chars(s);
    proof {
        assert(chars@.skip(0) =~= s@);
    }
    match parse_tx_list_at(&chars, 0) {
        Some((v, np)) => {
            if np == chars.len() {
                proof {
                    assert(chars@.skip(np as int) =~= Seq::<char>::empty());
                }
                Some(v)
            } else {
                None
            }
        },
        None => None,
    }
}

/// Parses a whole block list, demanding full consumption, as when
/// decoding a peer's chain.
pub fn parse_blocks(s: &str) -> (r: Option<Vec<Block>>)
    ensures
        match r {
            Some(v) => spec_parse_block_list(s@) == Some((v.deep_view(), Seq::<char>::empty())),
            None => match spec_parse_block_list(s@) {
                Some((bs, rest)) => rest.len() > 0,
                None => true,
            },
        },
{
    let chars = str_to_chars(s);
    proof {
        assert(chars@.skip(0) =~= s@);
    }
    match parse_block_list_at(&chars, 0) {
        Some((v, np)) => {
            if np == chars.len() {
                proof {
                    assert(chars@.skip(np as int) =~= Seq::<char>::empty());
                }
                Some(v)
            } else {
                None
            }
        },
        None => None,
    }
}

/// Parses a whole chain file, demanding full consumption.
pub fn parse_chain_file(s: &str) -> (r: Option<(Vec<Block>, Vec<String>, u64)>)
    ensures
        match r {
            Some((blocks, nodes, difficulty)) => spec_parse_chain_file(s@) == Some(
                ((blocks.deep_view(), nodes.deep_view(), difficulty), Seq::<char>::empty()),
            ),
            None => match spec_parse_chain_file(s@) {
                Some((v, rest)) => rest.len() > 0,
                None => true,
            },
        },
{
    let chars = str_to_chars(s);
    proof {
        assert(chars@.skip(0) =~= s@);
    }
    let p1 = match expect_at(&chars, 0, "{\"chain\":") {
        Some(p) => p,
        None => {
            return None;
        },
    };
    let (blocks, p2) = match parse_block_list_at(&chars, p1) {
        Some(x) => x,
        None => {
            return None;
        },
    };
    let p3 = match expect_at(&chars, p2, ",\"nodes\":") {
        Some(p) => p,
        None => {
            return None;
        },
    };
    let (nodes, p4) = match parse_str_list_at(&chars, p3) {
        Some(x) => x,
        None => {
            return None;
        },
    };
    let p5 = match expect_at(&chars, p4, ",\"consensus\":{\"difficulty\":") {
        Some(p) => p,
        None => {
            return None;
        },
    };
    let (difficulty, p6) = match parse_u64_at(&chars, p5) {
        Some(x) => x,
        None => {
            return None;
        },
    };
    let p7 = match expect_at(&chars, p6, "}}") {
        Some(p) => p,
        None => {
            return None;
        },
    };
    if p7 == chars.len() {
        proof {
            assert(chars@.skip(p7 as int) =~= Seq::<char>::empty());
        }
        Some((blocks, nodes, difficulty))
    } else {
        None
    }
}


} // verus!

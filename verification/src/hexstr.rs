//! Hex encoding and decoding through the `hex` crate, with exact
//! specifications, and the block-hash display form built on them.

use vstd::prelude::*;
use crate::hashes::{dsha256, dsha256_of};

verus! {

/// The lowercase hex digit for a value below 16.
pub open spec fn hex_char_of(v: int) -> char {
    if v == 0 {
        '0'
    } else if v == 1 {
        '1'
    } else if v == 2 {
        '2'
    } else if v == 3 {
        '3'
    } else if v == 4 {
        '4'
    } else if v == 5 {
        '5'
    } else if v == 6 {
        '6'
    } else if v == 7 {
        '7'
    } else if v == 8 {
        '8'
    } else if v == 9 {
        '9'
    } else if v == 10 {
        'a'
    } else if v == 11 {
        'b'
    } else if v == 12 {
        'c'
    } else if v == 13 {
        'd'
    } else if v == 14 {
        'e'
    } else {
        'f'
    }
}

/// The lowercase hex encoding of a byte sequence: two digits per byte.
pub open spec fn hex_of(b: Seq<u8>) -> Seq<char>
    decreases b.len(),
{
    if b.len() == 0 {
        Seq::empty()
    } else {
        seq![hex_char_of(b[0] as int / 16), hex_char_of(b[0] as int % 16)] + hex_of(
            b.drop_first(),
        )
    }
}

/// The value of a hex digit, or -1 for any other character.
pub open spec fn hex_val_of(c: char) -> int {
    if c == '0' {
        0
    } else if c == '1' {
        1
    } else if c == '2' {
        2
    } else if c == '3' {
        3
    } else if c == '4' {
        4
    } else if c == '5' {
        5
    } else if c == '6' {
        6
    } else if c == '7' {
        7
    } else if c == '8' {
        8
    } else if c == '9' {
        9
    } else if c == 'a' || c == 'A' {
        10
    } else if c == 'b' || c == 'B' {
        11
    } else if c == 'c' || c == 'C' {
        12
    } else if c == 'd' || c == 'D' {
        13
    } else if c == 'e' || c == 'E' {
        14
    } else if c == 'f' || c == 'F' {
        15
    } else {
        -1
    }
}

/// Whether every character of the sequence is a hex digit.
pub open spec fn is_hex_seq(s: Seq<char>) -> bool {
    forall|i: int| 0 <= i < s.len() ==> hex_val_of(s[i]) >= 0
}

/// The bytes an even-length hex digit sequence decodes to.
pub open spec fn hex_decode_of(s: Seq<char>) -> Seq<u8>
    decreases s.len(),
{
    if s.len() < 2 {
        Seq::empty()
    } else {
        seq![(hex_val_of(s[0]) * 16 + hex_val_of(s[1])) as u8] + hex_decode_of(s.skip(2))
    }
}

/// Relies on hex::encode: lowercase output, exactly two digits per input
/// byte, bytes in order.
#[verifier::external_body]
pub(crate) fn hex_encode(data: &Vec<u8>) -> (r: String)
    ensures
        r@ == hex_of(data@),
{
    hex::encode(data)
}

/// Relies on hex::decode: succeeds exactly on even-length strings of hex
/// digits (either case), pairing digits into bytes in order.
#[verifier::external_body]
pub(crate) fn hex_decode(s: &str) -> (r: Option<Vec<u8>>)
    ensures
        match r {
            Some(v) => s@.len() % 2 == 0 && is_hex_seq(s@) && v@ == hex_decode_of(s@),
            None => !(s@.len() % 2 == 0 && is_hex_seq(s@)),
        },
{
    match hex::decode(s) {
        Ok(v) => Some(v),
        Err(_) => None,
    }
}

/// Decodes the hex form of a block, as a reference node returns it.
pub fn block_bytes_from_hex(s: &str) -> (r: Option<Vec<u8>>)
    ensures
        match r {
            Some(v) => s@.len() % 2 == 0 && is_hex_seq(s@) && v@ == hex_decode_of(s@),
            None => !(s@.len() % 2 == 0 && is_hex_seq(s@)),
        },
{
    hex_decode(s)
}

/// The display form of a block hash: the double SHA-256 of the 80-byte
/// header, byte-reversed, in lowercase hex.
pub open spec fn block_hash_display_of(header: Seq<u8>) -> Seq<char> {
    hex_of(dsha256_of(header).reverse())
}

/// Renders the hash of a block's header the way reference nodes print it.
/// Returns `None` when the input is shorter than a header.
pub fn block_hash_display(block_bytes: &Vec<u8>) -> (r: Option<String>)
    ensures
        match r {
            Some(s) => block_bytes@.len() >= 80 && s@ == block_hash_display_of(
                block_bytes@.subrange(0, 80),
            ),
            None => block_bytes@.len() < 80,
        },
{
    if block_bytes.len() < 80 {
        return None;
    }
    let header = crate::bytes::subvec(block_bytes, 0, 80);
    let hash = dsha256(header.as_slice());
    let mut rev: Vec<u8> = Vec::new();
    let mut i: usize = 32;
    while i > 0
        invariant
            i <= 32,
            hash@.len() == 32,
            rev@ == hash@.subrange(i as int, 32).reverse(),
        decreases i,
    {
        i = i - 1;
        rev.push(hash[i]);
        proof {
            assert(rev@ =~= hash@.subrange(i as int, 32).reverse());
        }
    }
    proof {
        assert(hash@.subrange(0, 32) =~= hash@);
    }
    Some(hex_encode(&rev))
}

} // verus!

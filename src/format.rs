//! The compressed block, its per-value tags and the table-size rule.
use vstd::prelude::*;
use crate::bytes::byte_len;

verus! {

/// Default size of both predictor tables.
pub const DEFAULT_TABLE_SIZE: u64 = 32;

/// A compressed run of doubles.
///
/// `encoding` holds one 4-bit tag per value, two to a byte, the earlier value
/// in the high nibble; `residual` holds the big-endian residual bytes of all
/// values in order.
#[derive(Debug, PartialEq)]
pub struct FPCCompressedBlock {
    pub num_bytes_encoded: usize,
    pub encoding: Vec<u8>,
    pub residual: Vec<u8>,
}

/// Why a compress or decompress call failed.
#[derive(Debug, PartialEq, Eq, Clone, Copy)]
pub enum FpcError {
    /// The table size is zero or not a power of two.
    InvalidTableSize,
    /// The block runs out of header or residual bytes before its last value.
    MalformedBlock,
}

/// `t` is a power of two that fits in 64 bits.
pub open spec fn is_power_of_two(t: u64) -> bool {
    exists|k: u64| k < 64 && t == 1u64 << k
}

/// A power of two is at least one.
pub proof fn lemma_power_of_two_positive(t: u64)
    requires
        is_power_of_two(t),
    ensures
        t >= 1,
{
    let k = choose|k: u64| k < 64 && t == 1u64 << k;
    assert(1u64 << k != 0) by (bit_vector)
        requires
            k < 64,
    ;
}

/// Decides whether `t` is a valid table size.
pub fn valid_table_size(t: u64) -> (r: bool)
    ensures
        r == is_power_of_two(t),
{
    let mut k: u64 = 0;
    while k < 64
        invariant
            k <= 64,
            forall|j: u64| j < k ==> t != 1u64 << j,
        decreases 64 - k,
    {
        if (1u64 << k) == t {
            return true;
        }
        k = k + 1;
    }
    false
}

/// The 3-bit code for the leading zero bytes of a residual word: a count of
/// four is written as three, counts above four are shifted down by one.
pub open spec fn lzb_code(x: u64) -> u8 {
    let z = 8 - byte_len(x);
    if z < 4 {
        z as u8
    } else if z == 4 {
        3
    } else {
        (z - 1) as u8
    }
}

/// The leading zero byte count that a 3-bit code stands for.
pub open spec fn decoded_lzb(code: u8) -> nat {
    if code < 4 {
        code as nat
    } else {
        (code + 1) as nat
    }
}

/// How many residual bytes a value with this 3-bit code carries.
pub open spec fn residual_width(code: u8) -> nat {
    (8 - decoded_lzb(code)) as nat
}

/// The tag of value `i` in a packed header: high nibble for even `i`, low for odd.
pub open spec fn tag_at(header: Seq<u8>, i: int) -> u8 {
    if i % 2 == 0 {
        header[i / 2] >> 4
    } else {
        header[i / 2] & 0xf
    }
}

/// Tags packed two to a byte, a lone last tag in the high nibble.
pub open spec fn packed_header(tags: Seq<u8>) -> Seq<u8> {
    Seq::new(
        (tags.len() + 1) / 2,
        |j: int|
            if 2 * j + 1 < tags.len() {
                (tags[2 * j] << 4) | tags[2 * j + 1]
            } else {
                tags[2 * j] << 4
            },
    )
}

/// Total residual bytes that the first `n` tags of `header` call for.
pub open spec fn residual_len_of(header: Seq<u8>, n: nat) -> nat
    decreases n,
{
    if n == 0 {
        0
    } else {
        residual_len_of(header, (n - 1) as nat) + residual_width(tag_at(header, n - 1) & 7)
    }
}

/// Every tag below 16 comes back from its nibble.
pub proof fn lemma_tag_at_packed(tags: Seq<u8>, i: int)
    requires
        0 <= i < tags.len(),
        forall|j: int| 0 <= j < tags.len() ==> tags[j] < 16,
    ensures
        tag_at(packed_header(tags), i) == tags[i],
{
    let h = packed_header(tags);
    let j = i / 2;
    let a = tags[2 * j];
    if 2 * j + 1 < tags.len() {
        let b = tags[2 * j + 1];
        assert(((a << 4) | b) >> 4 == a && ((a << 4) | b) & 0xf == b) by (bit_vector)
            requires
                a < 16,
                b < 16,
        ;
    } else {
        assert((a << 4) >> 4 == a) by (bit_vector)
            requires
                a < 16,
        ;
    }
}

/// The width for a code, as a machine integer.
pub fn residual_width_of(code: u8) -> (w: usize)
    requires
        code < 8,
    ensures
        w == residual_width(code),
        w <= 8,
{
    if code < 4 {
        8 - code as usize
    } else {
        7 - code as usize
    }
}

} // verus!

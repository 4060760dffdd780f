//! Big-endian byte views of 64-bit words.
use vstd::prelude::*;

verus! {

/// Whether `x` fits in its `k` lowest bytes, i.e. every byte above them is zero.
pub open spec fn fits_in(x: u64, k: nat) -> bool
    decreases k,
{
    if k == 0 {
        x == 0
    } else {
        fits_in(x >> 8, (k - 1) as nat)
    }
}

/// Number of significant bytes of `x`: 8 minus its count of leading zero bytes.
pub open spec fn byte_len(x: u64) -> nat
    decreases x
    via byte_len_decreases
{
    if x == 0 {
        0
    } else {
        1 + byte_len(x >> 8)
    }
}

#[via_fn]
proof fn byte_len_decreases(x: u64) {
    if x != 0 {
        assert(x >> 8 < x) by (bit_vector)
            requires
                x != 0,
        ;
    }
}

/// The `k` lowest bytes of `x`, most significant first.
pub open spec fn low_bytes_be(x: u64, k: nat) -> Seq<u8> {
    Seq::new(k, |j: int| ((x >> ((8 * (k - 1 - j)) as u64)) & 0xff) as u8)
}

/// The big-endian integer spelled by `s`, truncated to 64 bits.
pub open spec fn from_be(s: Seq<u8>) -> u64
    decreases s.len(),
{
    if s.len() == 0 {
        0
    } else {
        (from_be(s.drop_last()) << 8) | (s.last() as u64)
    }
}

/// Every word fits in eight bytes.
pub proof fn lemma_fits_in_eight(x: u64)
    ensures
        fits_in(x, 8),
{
    reveal_with_fuel(fits_in, 9);
    assert((((((((x >> 8) >> 8) >> 8) >> 8) >> 8) >> 8) >> 8) >> 8 == 0) by (bit_vector);
}

/// A word that fits in `k` bytes fits in any wider span.
pub proof fn lemma_fits_in_wider(x: u64, k: nat, m: nat)
    requires
        fits_in(x, k),
        k <= m,
    ensures
        fits_in(x, m),
    decreases m,
{
    if k == 0 {
        if m > 0 {
            assert(x >> 8 == 0) by (bit_vector)
                requires
                    x == 0,
            ;
            lemma_fits_in_wider(x >> 8, 0, (m - 1) as nat);
        }
    } else {
        lemma_fits_in_wider(x >> 8, (k - 1) as nat, (m - 1) as nat);
    }
}

/// `x` fits in its significant bytes, and in no fewer.
pub proof fn lemma_byte_len_fits(x: u64)
    ensures
        fits_in(x, byte_len(x)),
        forall|k: nat| fits_in(x, k) ==> byte_len(x) <= k,
    decreases x,
{
    if x != 0 {
        assert(x >> 8 < x) by (bit_vector)
            requires
                x != 0,
        ;
        lemma_byte_len_fits(x >> 8);
        assert forall|k: nat| fits_in(x, k) implies byte_len(x) <= k by {
            if k == 0 {
                assert(x == 0);
            } else {
                assert(fits_in(x >> 8, (k - 1) as nat));
            }
        }
    } else {
        assert forall|k: nat| fits_in(x, k) implies byte_len(x) <= k by {}
    }
}

/// A word has at most eight significant bytes.
pub proof fn lemma_byte_len_bound(x: u64)
    ensures
        byte_len(x) <= 8,
{
    lemma_fits_in_eight(x);
    lemma_byte_len_fits(x);
}

proof fn lemma_shift_compose(x: u64, s: u64)
    requires
        s <= 56,
    ensures
        (x >> 8) >> s == x >> ((s + 8) as u64),
{
    assert((x >> 8) >> s == x >> vstd::prelude::add(s, 8)) by (bit_vector)
        requires
            s <= 56,
    ;
}

/// Reading back the `k` low bytes of a word that fits in them gives the word.
pub proof fn lemma_from_be_low_bytes(x: u64, k: nat)
    requires
        k <= 8,
        fits_in(x, k),
    ensures
        from_be(low_bytes_be(x, k)) == x,
    decreases k,
{
    let s = low_bytes_be(x, k);
    if k == 0 {
        assert(s.len() == 0);
    } else {
        let t = low_bytes_be(x >> 8, (k - 1) as nat);
        assert forall|j: int| 0 <= j < k - 1 implies s.drop_last()[j] == t[j] by {
            lemma_shift_compose(x, (8 * (k - 2 - j)) as u64);
        }
        assert(s.drop_last() =~= t);
        lemma_from_be_low_bytes(x >> 8, (k - 1) as nat);
        assert(s.last() == ((x >> 0u64) & 0xff) as u8);
        assert((((x >> 8) << 8) | (((x >> 0u64) & 0xff) as u8 as u64)) == x) by (bit_vector);
    }
}

/// Counts the significant bytes of `x`.
pub fn significant_bytes(x: u64) -> (n: usize)
    ensures
        n == byte_len(x),
        n <= 8,
{
    proof {
        lemma_byte_len_bound(x);
    }
    let mut y: u64 = x;
    let mut n: usize = 0;
    while y != 0
        invariant
            n + byte_len(y) == byte_len(x),
            byte_len(x) <= 8,
        decreases y,
    {
        assert(y >> 8 < y) by (bit_vector)
            requires
                y != 0,
        ;
        y = y >> 8;
        n = n + 1;
    }
    n
}

/// Appends the `k` low bytes of `x` to `buf`, most significant first.
pub fn push_low_bytes_be(buf: &mut Vec<u8>, x: u64, k: usize)
    requires
        k <= 8,
    ensures
        final(buf)@ == old(buf)@ + low_bytes_be(x, k as nat),
{
    let ghost start = buf@;
    let mut j: usize = 0;
    while j < k
        invariant
            j <= k <= 8,
            buf@ == start + low_bytes_be(x, k as nat).subrange(0, j as int),
        decreases k - j,
    {
        let shift: u64 = (8 * (k - 1 - j)) as u64;
        buf.push(((x >> shift) & 0xff) as u8);
        j = j + 1;
        assert(low_bytes_be(x, k as nat).subrange(0, j as int) =~= low_bytes_be(x, k as nat).subrange(0, j - 1).push(((x >> shift) & 0xff) as u8));
    }
    assert(low_bytes_be(x, k as nat).subrange(0, k as int) =~= low_bytes_be(x, k as nat));
}

/// The big-endian word spelled by `buf[start..start + k]`.
pub fn read_be(buf: &Vec<u8>, start: usize, k: usize) -> (r: u64)
    requires
        start + k <= buf@.len(),
    ensures
        r == from_be(buf@.subrange(start as int, start + k)),
{
    let len: usize = buf.len();
    let mut r: u64 = 0;
    let mut j: usize = 0;
    while j < k
        invariant
            j <= k,
            len == buf@.len(),
            start + k <= buf@.len(),
            r == from_be(buf@.subrange(start as int, start + j)),
        decreases k - j,
    {
        assert(buf@.subrange(start as int, start + j + 1).drop_last() =~= buf@.subrange(start as int, start + j));
        let b: u8 = buf[start + j];
        r = (r << 8) | (b as u64);
        j = j + 1;
    }
    r
}

} // verus!

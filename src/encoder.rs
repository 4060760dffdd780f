//! The encoder: one tag and a few residual bytes per value.
use vstd::prelude::*;
use crate::bytes::{byte_len, low_bytes_be, lemma_byte_len_bound, significant_bytes, push_low_bytes_be};
use crate::format::{
    FPCCompressedBlock, FpcError, is_power_of_two, lemma_power_of_two_positive, valid_table_size,
    lzb_code, residual_width, residual_width_of, packed_header, tag_at, residual_len_of,
};
use crate::laws::lemma_block_shape;
use crate::predictor::{PredictorState, Predictor, fcm_guess, dfcm_guess, state_after};

verus! {

/// FCM wins only when its residual is strictly smaller.
pub open spec fn fcm_wins(s: PredictorState, v: u64) -> bool {
    (fcm_guess(s) ^ v) < (dfcm_guess(s) ^ v)
}

/// The residual word of the winning predictor.
pub open spec fn chosen_residual(s: PredictorState, v: u64) -> u64 {
    if fcm_wins(s, v) {
        fcm_guess(s) ^ v
    } else {
        dfcm_guess(s) ^ v
    }
}

/// The tag of value `v` in state `s`: the predictor bit over the 3-bit code.
pub open spec fn tag_for(s: PredictorState, v: u64) -> u8 {
    let code = lzb_code(chosen_residual(s, v));
    if fcm_wins(s, v) {
        (8 + code) as u8
    } else {
        code
    }
}

/// The residual bytes of value `v` in state `s`.
pub open spec fn residual_for(s: PredictorState, v: u64) -> Seq<u8> {
    let x = chosen_residual(s, v);
    low_bytes_be(x, residual_width(lzb_code(x)))
}

/// The tags of `vals` with tables of size `t`, one per value.
pub open spec fn encoded_tags(t: u64, vals: Seq<u64>) -> Seq<u8>
    decreases vals.len(),
{
    if vals.len() == 0 {
        Seq::empty()
    } else {
        encoded_tags(t, vals.drop_last()).push(
            tag_for(state_after(t, vals.drop_last()), vals.last()),
        )
    }
}

/// The residual bytes of `vals` with tables of size `t`, in order.
pub open spec fn encoded_residual(t: u64, vals: Seq<u64>) -> Seq<u8>
    decreases vals.len(),
{
    if vals.len() == 0 {
        Seq::empty()
    } else {
        encoded_residual(t, vals.drop_last()) + residual_for(
            state_after(t, vals.drop_last()),
            vals.last(),
        )
    }
}

/// The 3-bit code fits in three bits, is four only for a word of exactly
/// three significant bytes, and its width covers the word.
pub proof fn lemma_lzb_code(x: u64)
    ensures
        lzb_code(x) < 8,
        (lzb_code(x) == 4) == (byte_len(x) == 3),
        byte_len(x) <= residual_width(lzb_code(x)) <= 8,
{
    lemma_byte_len_bound(x);
}

/// A tag is below 16, its low three bits are the code and bit 3 the predictor.
pub proof fn lemma_tag_for(s: PredictorState, v: u64)
    ensures
        tag_for(s, v) < 16,
        tag_for(s, v) & 7 == lzb_code(chosen_residual(s, v)),
        (tag_for(s, v) & 8 != 0) == fcm_wins(s, v),
{
    let c = lzb_code(chosen_residual(s, v));
    lemma_lzb_code(chosen_residual(s, v));
    assert(((8 + c) as u8) & 7 == c && ((8 + c) as u8) & 8 != 0 && c & 7 == c && c & 8 == 0)
        by (bit_vector)
        requires
            c < 8,
    ;
}

/// The prefix of length `i + 1` is the prefix of length `i` and then `vals[i]`.
pub proof fn lemma_step_prefix(vals: Seq<u64>, i: int)
    requires
        0 <= i < vals.len(),
    ensures
        vals.subrange(0, i + 1).drop_last() == vals.subrange(0, i),
        vals.subrange(0, i + 1).last() == vals[i],
{
    assert(vals.subrange(0, i + 1).drop_last() =~= vals.subrange(0, i));
}

/// Appends the tags and residual bytes of `values` to caller-owned buffers.
///
/// `encoding` must hold exactly one zero byte per two values, rounded up; the
/// tags are or-ed into it. `residual` keeps what it held and grows.
pub fn compress_into(
    table_size: u64,
    values: &Vec<u64>,
    encoding: &mut Vec<u8>,
    residual: &mut Vec<u8>,
) -> (r: Result<(), FpcError>)
    requires
        table_size <= usize::MAX,
        old(encoding)@.len() == (values@.len() + 1) / 2,
        forall|j: int| 0 <= j < old(encoding)@.len() ==> old(encoding)@[j] == 0,
    ensures
        !is_power_of_two(table_size) ==> r == Err::<(), FpcError>(FpcError::InvalidTableSize)
            && final(encoding)@ == old(encoding)@ && final(residual)@ == old(residual)@,
        is_power_of_two(table_size) ==> r == Ok::<(), FpcError>(())
            && final(encoding)@ == packed_header(encoded_tags(table_size, values@))
            && final(residual)@ == old(residual)@ + encoded_residual(table_size, values@),
{
    if !valid_table_size(table_size) {
        return Err(FpcError::InvalidTableSize);
    }
    proof {
        lemma_power_of_two_positive(table_size);
    }
    let ghost t = table_size;
    let ghost res0 = residual@;
    let mut p = Predictor::new(table_size);
    let n: usize = values.len();
    let mut i: usize = 0;
    while i < n
        invariant
            n == values@.len(),
            i <= n,
            t == table_size,
            t >= 1,
            p.wf(),
            p.size() == t,
            p@ == state_after(t, values@.subrange(0, i as int)),
            encoding@.len() == (n + 1) / 2,
            forall|j: int|
                0 <= j < encoding@.len() ==> #[trigger] encoding@[j] == if j < (i + 1) / 2 {
                    packed_header(encoded_tags(t, values@.subrange(0, i as int)))[j]
                } else {
                    0u8
                },
            encoded_tags(t, values@.subrange(0, i as int)).len() == i,
            forall|j: int| 0 <= j < i ==> #[trigger] encoded_tags(t, values@.subrange(0, i as int))[j] < 16,
            residual@ == res0 + encoded_residual(t, values@.subrange(0, i as int)),
        decreases n - i,
    {
        let ghost s = p@;
        let ghost pre = values@.subrange(0, i as int);
        let ghost tags0 = encoded_tags(t, pre);
        let v: u64 = values[i];
        let fcm_diff: u64 = p.fcm_guess() ^ v;
        let dfcm_diff: u64 = p.dfcm_guess() ^ v;
        let fcm_won: bool = fcm_diff < dfcm_diff;
        let x: u64 = if fcm_won { fcm_diff } else { dfcm_diff };
        let lzb: usize = 8 - significant_bytes(x);
        let code: u8 = if lzb < 4 {
            lzb as u8
        } else if lzb == 4 {
            3
        } else {
            (lzb - 1) as u8
        };
        assert(code == lzb_code(x));
        proof {
            lemma_lzb_code(x);
            lemma_tag_for(s, v);
        }
        push_low_bytes_be(residual, x, residual_width_of(code));
        let tag: u8 = if fcm_won { 8 + code } else { code };
        assert(tag == tag_for(s, v));
        let slot: usize = i / 2;
        let old_byte: u8 = encoding[slot];
        if i % 2 == 0 {
            encoding.set(slot, old_byte | (tag << 4));
        } else {
            encoding.set(slot, old_byte | tag);
        }
        p.update(v);
        proof {
            lemma_step_prefix(values@, i as int);
            let post = values@.subrange(0, i + 1);
            let tags1 = encoded_tags(t, post);
            assert(tags1 == tags0.push(tag));
            assert(encoded_residual(t, post) == encoded_residual(t, pre) + residual_for(s, v));
            assert(residual@ == res0 + encoded_residual(t, post));
            let h0 = packed_header(tags0);
            let h1 = packed_header(tags1);
            assert forall|j: int| 0 <= j < encoding@.len() implies #[trigger] encoding@[j] == if j < (i + 2) / 2 {
                h1[j]
            } else {
                0u8
            } by {
                if j < slot {
                    assert(h1[j] == h0[j]);
                } else if j == slot {
                    if i % 2 == 0 {
                        assert(0u8 | (tag << 4) == tag << 4) by (bit_vector);
                    } else {
                        let a = tags0[2 * j];
                        assert(old_byte == a << 4);
                    }
                }
            }
        }
        i = i + 1;
    }
    proof {
        assert(values@.subrange(0, n as int) =~= values@);
        assert(encoding@ =~= packed_header(encoded_tags(t, values@)));
    }
    Ok(())
}

/// Compresses `values`, the bit patterns of a run of doubles, into a fresh block.
pub fn compress(table_size: u64, values: &Vec<u64>) -> (r: Result<FPCCompressedBlock, FpcError>)
    requires
        table_size <= usize::MAX,
    ensures
        match r {
            Ok(blk) => {
                &&& is_power_of_two(table_size)
                &&& blk.num_bytes_encoded == values@.len()
                &&& blk.encoding@ == packed_header(encoded_tags(table_size, values@))
                &&& blk.residual@ == encoded_residual(table_size, values@)
                &&& blk.encoding@.len() == (values@.len() + 1) / 2
                &&& values@.len() % 2 == 1 ==> blk.encoding@.last() & 0xf == 0
                &&& forall|i: int|
                    0 <= i < values@.len() ==> (#[trigger] tag_at(blk.encoding@, i) & 7 == 4) == (
                    byte_len(chosen_residual(state_after(table_size, values@.subrange(0, i)), values@[i]))
                        == 3)
                &&& blk.residual@.len() == residual_len_of(blk.encoding@, values@.len())
            },
            Err(e) => !is_power_of_two(table_size) && e == FpcError::InvalidTableSize,
        },
{
    let n: usize = values.len();
    let mut encoding: Vec<u8> = vec![0u8; n / 2 + n % 2];
    let mut residual: Vec<u8> = Vec::new();
    match compress_into(table_size, values, &mut encoding, &mut residual) {
        Ok(()) => {
            assert(residual@ =~= encoded_residual(table_size, values@));
            proof {
                lemma_block_shape(table_size, values@);
            }
            Ok(FPCCompressedBlock { num_bytes_encoded: n, encoding, residual })
        },
        Err(e) => Err(e),
    }
}

} // verus!

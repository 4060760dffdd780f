//! The decoder: replays the predictors over the tags and residual bytes.
use vstd::prelude::*;
use crate::bytes::{from_be, read_be};
use crate::format::{
    FPCCompressedBlock, FpcError, is_power_of_two, lemma_power_of_two_positive, valid_table_size,
    residual_width, residual_width_of, tag_at,
};
use crate::predictor::{PredictorState, Predictor, fcm_guess, dfcm_guess, initial_state, next_state};

verus! {

/// The bit pattern of value `i`: its residual bytes, read from `cursor`,
/// xor-ed with the guess of the predictor that its tag names.
pub open spec fn value_from(s: PredictorState, tag: u8, residual: Seq<u8>, cursor: nat) -> u64 {
    let r = from_be(residual.subrange(cursor as int, (cursor + residual_width(tag & 7)) as int));
    r ^ (if tag & 8 != 0 {
        fcm_guess(s)
    } else {
        dfcm_guess(s)
    })
}

/// The values `i..n` of a block, decoded from state `s` with the residual
/// read from `cursor`; `None` where the header or the residual runs out.
pub open spec fn decode_from(
    t: u64,
    s: PredictorState,
    n: nat,
    header: Seq<u8>,
    residual: Seq<u8>,
    i: nat,
    cursor: nat,
) -> Option<Seq<u64>>
    decreases n - i,
{
    if i >= n {
        Some(Seq::empty())
    } else if header.len() <= i / 2 {
        None
    } else {
        let tag = tag_at(header, i as int);
        let w = residual_width(tag & 7);
        if cursor + w > residual.len() {
            None
        } else {
            let v = value_from(s, tag, residual, cursor);
            match decode_from(t, next_state(s, v, t), n, header, residual, i + 1, cursor + w) {
                Some(rest) => Some(seq![v] + rest),
                None => None,
            }
        }
    }
}

/// The values of a block of `n` values, or `None` where it is malformed.
pub open spec fn decoded(t: u64, n: nat, header: Seq<u8>, residual: Seq<u8>) -> Option<Seq<u64>> {
    decode_from(t, initial_state(t), n, header, residual, 0, 0)
}

/// Appends the bit patterns of the values of `blk` to `res`.
///
/// On a malformed block the values decoded before the fault stay appended.
pub fn decompress_into(
    table_size: u64,
    blk: &FPCCompressedBlock,
    res: &mut Vec<u64>,
) -> (r: Result<(), FpcError>)
    requires
        table_size <= usize::MAX,
    ensures
        !is_power_of_two(table_size) ==> r == Err::<(), FpcError>(FpcError::InvalidTableSize)
            && final(res)@ == old(res)@,
        is_power_of_two(table_size) ==> match decoded(
            table_size,
            blk.num_bytes_encoded as nat,
            blk.encoding@,
            blk.residual@,
        ) {
            Some(vals) => r == Ok::<(), FpcError>(()) && final(res)@ == old(res)@ + vals,
            None => r == Err::<(), FpcError>(FpcError::MalformedBlock)
                && old(res)@.len() <= final(res)@.len()
                && final(res)@.subrange(0, old(res)@.len() as int) == old(res)@,
        },
{
    if !valid_table_size(table_size) {
        return Err(FpcError::InvalidTableSize);
    }
    proof {
        lemma_power_of_two_positive(table_size);
    }
    let ghost t = table_size;
    let ghost start = res@;
    let ghost header = blk.encoding@;
    let ghost rs = blk.residual@;
    let ghost n = blk.num_bytes_encoded as nat;
    let ghost whole = decoded(t, n, header, rs);
    let mut p = Predictor::new(table_size);
    let count: usize = blk.num_bytes_encoded;
    let header_len: usize = blk.encoding.len();
    let residual_len: usize = blk.residual.len();
    let mut i: usize = 0;
    let mut cursor: usize = 0;
    while i < count
        invariant
            count == n,
            n == blk.num_bytes_encoded,
            start == old(res)@,
            header == blk.encoding@,
            rs == blk.residual@,
            header_len == header.len(),
            residual_len == rs.len(),
            i <= count,
            cursor <= residual_len,
            t == table_size,
            t >= 1,
            is_power_of_two(t),
            p.wf(),
            p.size() == t,
            whole == decoded(t, n, header, rs),
            start.len() <= res@.len(),
            res@.subrange(0, start.len() as int) == start,
            whole == match decode_from(t, p@, n, header, rs, i as nat, cursor as nat) {
                Some(rest) => Some(res@.subrange(start.len() as int, res@.len() as int) + rest),
                None => None::<Seq<u64>>,
            },
        decreases count - i,
    {
        if i / 2 >= header_len {
            assert(decode_from(t, p@, n, header, rs, i as nat, cursor as nat) is None);
            return Err(FpcError::MalformedBlock);
        }
        let byte: u8 = blk.encoding[i / 2];
        let tag: u8 = if i % 2 == 0 { byte >> 4 } else { byte & 0xf };
        let code: u8 = tag & 7;
        assert(code < 8) by (bit_vector)
            requires
                code == tag & 7,
        ;
        let w: usize = residual_width_of(code);
        if w > residual_len - cursor {
            return Err(FpcError::MalformedBlock);
        }
        let r: u64 = read_be(&blk.residual, cursor, w);
        let guess: u64 = if tag & 8 != 0 { p.fcm_guess() } else { p.dfcm_guess() };
        let v: u64 = r ^ guess;
        assert(v == value_from(p@, tag, rs, cursor as nat));
        let ghost before = res@;
        res.push(v);
        p.update(v);
        proof {
            assert(res@.subrange(0, start.len() as int) =~= before.subrange(0, start.len() as int));
            assert(res@.subrange(start.len() as int, res@.len() as int) =~= before.subrange(
                start.len() as int,
                before.len() as int,
            ).push(v));
            match decode_from(t, p@, n, header, rs, (i + 1) as nat, (cursor + w) as nat) {
                Some(rest) => {
                    assert(before.subrange(start.len() as int, before.len() as int).push(v) + rest
                        =~= before.subrange(start.len() as int, before.len() as int) + (seq![v] + rest));
                },
                None => {},
            }
        }
        i = i + 1;
        cursor = cursor + w;
    }
    proof {
        assert(res@.subrange(start.len() as int, res@.len() as int) + Seq::<u64>::empty()
            =~= res@.subrange(start.len() as int, res@.len() as int));
        assert(res@ =~= start + res@.subrange(start.len() as int, res@.len() as int));
    }
    Ok(())
}

/// Decompresses `blk` into the bit patterns of its values.
pub fn decompress(table_size: u64, blk: &FPCCompressedBlock) -> (r: Result<Vec<u64>, FpcError>)
    requires
        table_size <= usize::MAX,
    ensures
        !is_power_of_two(table_size) ==> r == Err::<Vec<u64>, FpcError>(FpcError::InvalidTableSize),
        is_power_of_two(table_size) ==> match decoded(
            table_size,
            blk.num_bytes_encoded as nat,
            blk.encoding@,
            blk.residual@,
        ) {
            Some(vals) => r is Ok && r->Ok_0@ == vals,
            None => r == Err::<Vec<u64>, FpcError>(FpcError::MalformedBlock),
        },
{
    let mut res: Vec<u64> = Vec::new();
    match decompress_into(table_size, blk, &mut res) {
        Ok(()) => {
            assert(res@ =~= Seq::<u64>::empty() + res@);
            Ok(res)
        },
        Err(e) => Err(e),
    }
}

} // verus!

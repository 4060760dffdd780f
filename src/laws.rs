//! What holds of every block that the encoder makes.
use vstd::prelude::*;
use crate::bytes::{byte_len, lemma_byte_len_fits, lemma_fits_in_wider, lemma_from_be_low_bytes};
use crate::decoder::{decode_from, decoded, value_from};
use crate::encoder::{
    chosen_residual, encoded_residual, encoded_tags, fcm_wins, lemma_lzb_code, lemma_step_prefix,
    lemma_tag_for, residual_for, tag_for,
};
use crate::format::{
    is_power_of_two, lemma_tag_at_packed, lzb_code, packed_header,
    residual_len_of, residual_width, tag_at,
};
use crate::predictor::{dfcm_guess, fcm_guess, next_state, state_after};

verus! {

/// The tags of a prefix are the prefix of the tags, one per value, each below 16.
pub proof fn lemma_tags_prefix(t: u64, vals: Seq<u64>, k: int)
    requires
        0 <= k <= vals.len(),
    ensures
        encoded_tags(t, vals).len() == vals.len(),
        encoded_tags(t, vals).subrange(0, k) == encoded_tags(t, vals.subrange(0, k)),
        forall|j: int| 0 <= j < vals.len() ==> #[trigger] encoded_tags(t, vals)[j] < 16,
    decreases vals.len(),
{
    if vals.len() == 0 {
        assert(encoded_tags(t, vals).subrange(0, k) =~= encoded_tags(t, vals.subrange(0, k)));
    } else {
        let init = vals.drop_last();
        if k == vals.len() {
            lemma_tags_prefix(t, init, 0);
            assert(vals.subrange(0, k) =~= vals);
            assert(encoded_tags(t, vals).subrange(0, k) =~= encoded_tags(t, vals));
        } else {
            lemma_tags_prefix(t, init, k);
            assert(init.subrange(0, k) =~= vals.subrange(0, k));
            assert(encoded_tags(t, vals).subrange(0, k) =~= encoded_tags(t, init).subrange(0, k));
        }
        lemma_tag_for(state_after(t, init), vals.last());
        assert forall|j: int| 0 <= j < vals.len() implies #[trigger] encoded_tags(t, vals)[j] < 16 by {
            if j < init.len() {
                assert(encoded_tags(t, vals)[j] == encoded_tags(t, init)[j]);
            }
        }
    }
}

/// Tag `k` is the tag of `vals[k]` in the state after the values before it.
pub proof fn lemma_tag_of_value(t: u64, vals: Seq<u64>, k: int)
    requires
        0 <= k < vals.len(),
    ensures
        encoded_tags(t, vals)[k] == tag_for(state_after(t, vals.subrange(0, k)), vals[k]),
{
    lemma_tags_prefix(t, vals, k + 1);
    lemma_tags_prefix(t, vals.subrange(0, k), 0);
    lemma_step_prefix(vals, k);
    let pre = vals.subrange(0, k + 1);
    assert(encoded_tags(t, pre) == encoded_tags(t, vals.subrange(0, k)).push(
        tag_for(state_after(t, vals.subrange(0, k)), vals[k]),
    ));
    assert(encoded_tags(t, vals)[k] == encoded_tags(t, vals).subrange(0, k + 1)[k]);
}

/// The residual of a prefix is a prefix of the residual.
pub proof fn lemma_residual_prefix(t: u64, vals: Seq<u64>, k: int)
    requires
        0 <= k <= vals.len(),
    ensures
        encoded_residual(t, vals.subrange(0, k)).len() <= encoded_residual(t, vals).len(),
        encoded_residual(t, vals).subrange(0, encoded_residual(t, vals.subrange(0, k)).len() as int)
            == encoded_residual(t, vals.subrange(0, k)),
    decreases vals.len(),
{
    let r = encoded_residual(t, vals);
    if k == vals.len() {
        assert(vals.subrange(0, k) =~= vals);
        assert(r.subrange(0, r.len() as int) =~= r);
    } else {
        let init = vals.drop_last();
        lemma_residual_prefix(t, init, k);
        assert(init.subrange(0, k) =~= vals.subrange(0, k));
        let p = encoded_residual(t, vals.subrange(0, k));
        assert(r.subrange(0, p.len() as int) =~= encoded_residual(t, init).subrange(0, p.len() as int));
    }
}

/// The residual of the first `k + 1` values extends that of the first `k`
/// by the residual of `vals[k]`.
pub proof fn lemma_residual_step(t: u64, vals: Seq<u64>, k: int)
    requires
        0 <= k < vals.len(),
    ensures
        encoded_residual(t, vals.subrange(0, k + 1)) == encoded_residual(t, vals.subrange(0, k))
            + residual_for(state_after(t, vals.subrange(0, k)), vals[k]),
        state_after(t, vals.subrange(0, k + 1)) == next_state(
            state_after(t, vals.subrange(0, k)),
            vals[k],
            t,
        ),
{
    lemma_step_prefix(vals, k);
}

/// The residual bytes of one value spell its chosen residual word, and there
/// are as many as its tag's code calls for.
pub proof fn lemma_residual_for(s: crate::predictor::PredictorState, v: u64)
    ensures
        residual_for(s, v).len() == residual_width(tag_for(s, v) & 7),
        crate::bytes::from_be(residual_for(s, v)) == chosen_residual(s, v),
{
    let x = chosen_residual(s, v);
    let w = residual_width(lzb_code(x));
    lemma_lzb_code(x);
    lemma_tag_for(s, v);
    lemma_byte_len_fits(x);
    lemma_fits_in_wider(x, byte_len(x), w);
    lemma_from_be_low_bytes(x, w);
}

proof fn lemma_decode_suffix(t: u64, vals: Seq<u64>, k: int)
    requires
        is_power_of_two(t),
        0 <= k <= vals.len(),
    ensures
        decode_from(
            t,
            state_after(t, vals.subrange(0, k)),
            vals.len(),
            packed_header(encoded_tags(t, vals)),
            encoded_residual(t, vals),
            k as nat,
            encoded_residual(t, vals.subrange(0, k)).len(),
        ) == Some(vals.subrange(k, vals.len() as int)),
    decreases vals.len() - k,
{
    let header = packed_header(encoded_tags(t, vals));
    let r = encoded_residual(t, vals);
    let s = state_after(t, vals.subrange(0, k));
    let cursor = encoded_residual(t, vals.subrange(0, k)).len();
    if k == vals.len() {
        assert(vals.subrange(k, k) =~= Seq::<u64>::empty());
    } else {
        let v = vals[k];
        let tags = encoded_tags(t, vals);
        lemma_tags_prefix(t, vals, 0);
        lemma_tag_at_packed(tags, k);
        lemma_tag_of_value(t, vals, k);
        let tag = tag_for(s, v);
        assert(tag_at(header, k) == tag);
        lemma_residual_step(t, vals, k);
        lemma_residual_prefix(t, vals, k + 1);
        lemma_residual_for(s, v);
        let w = residual_width(tag & 7);
        let bytes = residual_for(s, v);
        let next = encoded_residual(t, vals.subrange(0, k + 1));
        assert(next.len() == cursor + w);
        assert(r.subrange(cursor as int, (cursor + w) as int) =~= bytes) by {
            assert(r.subrange(0, next.len() as int) == next);
            assert forall|j: int| 0 <= j < w implies r.subrange(cursor as int, (cursor + w) as int)[j] == bytes[j] by {
                assert(r.subrange(cursor as int, (cursor + w) as int)[j] == r.subrange(0, next.len() as int)[cursor + j]);
            }
        }
        lemma_tag_for(s, v);
        let g = if fcm_wins(s, v) { fcm_guess(s) } else { dfcm_guess(s) };
        assert((g ^ v) ^ g == v) by (bit_vector);
        assert(value_from(s, tag, r, cursor) == v);
        lemma_decode_suffix(t, vals, k + 1);
        assert(seq![v] + vals.subrange(k + 1, vals.len() as int) =~= vals.subrange(k, vals.len() as int));
    }
}

/// Decoding a block that the encoder made from `vals`, with the same table
/// size, gives back `vals` bit for bit.
pub proof fn lemma_round_trip(t: u64, vals: Seq<u64>)
    requires
        is_power_of_two(t),
    ensures
        decoded(t, vals.len(), packed_header(encoded_tags(t, vals)), encoded_residual(t, vals))
            == Some(vals),
{
    lemma_decode_suffix(t, vals, 0);
    assert(vals.subrange(0, 0) =~= Seq::<u64>::empty());
    assert(vals.subrange(0, vals.len() as int) =~= vals);
}

proof fn lemma_residual_len_prefix(t: u64, vals: Seq<u64>, k: int)
    requires
        0 <= k <= vals.len(),
    ensures
        residual_len_of(packed_header(encoded_tags(t, vals)), k as nat)
            == encoded_residual(t, vals.subrange(0, k)).len(),
    decreases k,
{
    let header = packed_header(encoded_tags(t, vals));
    if k == 0 {
        assert(vals.subrange(0, 0) =~= Seq::<u64>::empty());
    } else {
        lemma_residual_len_prefix(t, vals, k - 1);
        lemma_tags_prefix(t, vals, 0);
        lemma_tag_at_packed(encoded_tags(t, vals), k - 1);
        lemma_tag_of_value(t, vals, k - 1);
        lemma_residual_step(t, vals, k - 1);
        lemma_residual_for(state_after(t, vals.subrange(0, k - 1)), vals[k - 1]);
    }
}

/// The shape of the block that the encoder makes from `vals`: one header
/// byte per two values, rounded up; a zero low nibble after an odd count; a
/// code of four exactly where the chosen residual word has three significant
/// bytes, five leading zero bytes; and a residual exactly as long as the codes
/// call for.
pub proof fn lemma_block_shape(t: u64, vals: Seq<u64>)
    ensures
        packed_header(encoded_tags(t, vals)).len() == (vals.len() + 1) / 2,
        vals.len() % 2 == 1 ==> packed_header(encoded_tags(t, vals)).last() & 0xf == 0,
        forall|i: int|
            0 <= i < vals.len() ==> (#[trigger] tag_at(packed_header(encoded_tags(t, vals)), i) & 7
                == 4) == (byte_len(chosen_residual(state_after(t, vals.subrange(0, i)), vals[i]))
                == 3),
        encoded_residual(t, vals).len() == residual_len_of(
            packed_header(encoded_tags(t, vals)),
            vals.len(),
        ),
{
    let tags = encoded_tags(t, vals);
    let header = packed_header(tags);
    lemma_tags_prefix(t, vals, 0);
    if vals.len() % 2 == 1 {
        let a = tags[vals.len() - 1];
        assert(header.last() == a << 4);
        assert((a << 4) & 0xf == 0) by (bit_vector);
    }
    assert forall|i: int| 0 <= i < vals.len() implies (#[trigger] tag_at(header, i) & 7 == 4) == (
    byte_len(chosen_residual(state_after(t, vals.subrange(0, i)), vals[i])) == 3) by {
        lemma_tag_at_packed(tags, i);
        lemma_tag_of_value(t, vals, i);
        let st = state_after(t, vals.subrange(0, i));
        lemma_tag_for(st, vals[i]);
        lemma_lzb_code(chosen_residual(st, vals[i]));
    }
    lemma_residual_len_prefix(t, vals, vals.len() as int);
    assert(vals.subrange(0, vals.len() as int) =~= vals);
}

/// An empty run encodes to an empty header and an empty residual, and a
/// block of no values decodes to no values.
pub proof fn lemma_empty_input(t: u64)
    ensures
        encoded_tags(t, Seq::empty()) == Seq::<u8>::empty(),
        packed_header(Seq::<u8>::empty()) == Seq::<u8>::empty(),
        encoded_residual(t, Seq::empty()) == Seq::<u8>::empty(),
        decoded(t, 0, Seq::empty(), Seq::empty()) == Some(Seq::<u64>::empty()),
{
    assert(packed_header(Seq::<u8>::empty()) =~= Seq::<u8>::empty());
}

} // verus!

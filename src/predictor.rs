//! The FCM and DFCM predictors shared by the encoder and the decoder.
use vstd::prelude::*;
use vstd::wrapping::u64_specs;

verus! {

/// What the predictors hold between two values: both tables, both rolling
/// hashes and the bit pattern of the last value.
pub ghost struct PredictorState {
    pub fcm: Seq<u64>,
    pub dfcm: Seq<u64>,
    pub fcm_hash: u64,
    pub dfcm_hash: u64,
    pub last: u64,
}

/// Tables of `t` zero entries, zero hashes, zero last value.
pub open spec fn initial_state(t: u64) -> PredictorState {
    PredictorState {
        fcm: Seq::new(t as nat, |i: int| 0u64),
        dfcm: Seq::new(t as nat, |i: int| 0u64),
        fcm_hash: 0,
        dfcm_hash: 0,
        last: 0,
    }
}

/// The FCM guess: the entry under the FCM hash.
pub open spec fn fcm_guess(s: PredictorState) -> u64 {
    s.fcm[s.fcm_hash as int]
}

/// The DFCM guess: the last value plus the delta under the DFCM hash.
pub open spec fn dfcm_guess(s: PredictorState) -> u64 {
    u64_specs::wrapping_add(s.dfcm[s.dfcm_hash as int], s.last)
}

/// The state once the value with bit pattern `v` has gone through, with
/// tables of size `t`.
pub open spec fn next_state(s: PredictorState, v: u64, t: u64) -> PredictorState {
    let delta = u64_specs::wrapping_sub(v, s.last);
    PredictorState {
        fcm: s.fcm.update(s.fcm_hash as int, v),
        dfcm: s.dfcm.update(s.dfcm_hash as int, delta),
        fcm_hash: ((s.fcm_hash << 6) ^ (v >> 48)) & ((t - 1) as u64),
        dfcm_hash: ((s.dfcm_hash << 2) ^ (delta >> 40)) & ((t - 1) as u64),
        last: v,
    }
}

/// The state after the values `vals`, in order, starting from `initial_state(t)`.
pub open spec fn state_after(t: u64, vals: Seq<u64>) -> PredictorState
    decreases vals.len(),
{
    if vals.len() == 0 {
        initial_state(t)
    } else {
        next_state(state_after(t, vals.drop_last()), vals.last(), t)
    }
}

/// Tables of size `t` and both hashes inside them.
pub open spec fn state_fits(s: PredictorState, t: u64) -> bool {
    &&& s.fcm.len() == t
    &&& s.dfcm.len() == t
    &&& s.fcm_hash < t
    &&& s.dfcm_hash < t
}

proof fn lemma_masked_below(x: u64, t: u64)
    requires
        t >= 1,
    ensures
        x & ((t - 1) as u64) < t,
{
    let m = (t - 1) as u64;
    assert(x & m <= m) by (bit_vector);
}

/// A step keeps tables and hashes in range.
pub proof fn lemma_next_state_fits(s: PredictorState, v: u64, t: u64)
    requires
        t >= 1,
        state_fits(s, t),
    ensures
        state_fits(next_state(s, v, t), t),
{
    let delta = u64_specs::wrapping_sub(v, s.last);
    lemma_masked_below((s.fcm_hash << 6) ^ (v >> 48), t);
    lemma_masked_below((s.dfcm_hash << 2) ^ (delta >> 40), t);
}

/// Every reachable state keeps tables and hashes in range.
pub proof fn lemma_state_after_fits(t: u64, vals: Seq<u64>)
    requires
        t >= 1,
    ensures
        state_fits(state_after(t, vals), t),
    decreases vals.len(),
{
    if vals.len() > 0 {
        lemma_state_after_fits(t, vals.drop_last());
        lemma_next_state_fits(state_after(t, vals.drop_last()), vals.last(), t);
    }
}

/// The predictor state of one compress or decompress call.
pub struct Predictor {
    fcm: Vec<u64>,
    dfcm: Vec<u64>,
    fcm_hash: u64,
    dfcm_hash: u64,
    last_value: u64,
    table_size: u64,
}

impl View for Predictor {
    type V = PredictorState;

    closed spec fn view(&self) -> PredictorState {
        PredictorState {
            fcm: self.fcm@,
            dfcm: self.dfcm@,
            fcm_hash: self.fcm_hash,
            dfcm_hash: self.dfcm_hash,
            last: self.last_value,
        }
    }
}

impl Predictor {
    /// The table size this predictor was made with.
    pub closed spec fn size(&self) -> u64 {
        self.table_size
    }

    /// Tables of the size made with, both hashes inside them.
    pub closed spec fn wf(&self) -> bool {
        &&& 1 <= self.table_size <= usize::MAX
        &&& state_fits(self@, self.table_size)
    }

    /// Fresh predictors with tables of `t` entries.
    pub fn new(t: u64) -> (p: Predictor)
        requires
            1 <= t <= usize::MAX,
        ensures
            p.wf(),
            p.size() == t,
            p@ == initial_state(t),
    {
        let fcm: Vec<u64> = vec![0u64; t as usize];
        let dfcm: Vec<u64> = vec![0u64; t as usize];
        let p = Predictor { fcm, dfcm, fcm_hash: 0, dfcm_hash: 0, last_value: 0, table_size: t };
        assert(p@.fcm =~= initial_state(t).fcm);
        assert(p@.dfcm =~= initial_state(t).dfcm);
        p
    }

    /// The FCM guess for the next value.
    pub fn fcm_guess(&self) -> (r: u64)
        requires
            self.wf(),
        ensures
            r == fcm_guess(self@),
    {
        self.fcm[self.fcm_hash as usize]
    }

    /// The DFCM guess for the next value.
    pub fn dfcm_guess(&self) -> (r: u64)
        requires
            self.wf(),
        ensures
            r == dfcm_guess(self@),
    {
        self.dfcm[self.dfcm_hash as usize].wrapping_add(self.last_value)
    }

    /// Feeds the value with bit pattern `v` through both predictors.
    pub fn update(&mut self, v: u64)
        requires
            old(self).wf(),
        ensures
            final(self).wf(),
            final(self).size() == old(self).size(),
            final(self)@ == next_state(old(self)@, v, old(self).size()),
    {
        proof {
            lemma_next_state_fits(self@, v, self.table_size);
        }
        let mask: u64 = self.table_size - 1;
        self.fcm.set(self.fcm_hash as usize, v);
        self.fcm_hash = ((self.fcm_hash << 6) ^ (v >> 48)) & mask;
        let delta: u64 = v.wrapping_sub(self.last_value);
        self.dfcm.set(self.dfcm_hash as usize, delta);
        self.dfcm_hash = ((self.dfcm_hash << 2) ^ (delta >> 40)) & mask;
        self.last_value = v;
    }
}

} // verus!

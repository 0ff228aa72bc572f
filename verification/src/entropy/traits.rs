//! The abstraction between predictors and the range coder.

use crate::coding::rans::valid_cdf;
use crate::format::PredictorId;
use vstd::pervasive::arbitrary;
use vstd::prelude::*;

verus! {

/// A byte-level probability predictor.
///
/// The coder asks for a cumulative frequency table, codes the actual byte with
/// it, and feeds the byte back. The decoder runs the same sequence of calls, so
/// a predictor must be deterministic: everything it answers is a function of its
/// [`Model`](Self::Model), and every call moves the model in the way stated here.
///
/// The functions of the model have bodies here so that a type which computes with
/// floating-point numbers, outside of verified code, can implement the methods alone. Such a
/// body is one fixed value of which nothing is known. A type that keeps them is held to that
/// value, one and the same table for every state, which its methods do not give: what is
/// proved of predictors is proved of types that say what their model does.
pub trait ProbabilityPredictor: Send {
    /// The mathematical value of the predictor's state.
    type Model;

    /// The state of this predictor.
    open spec fn model(&self) -> Self::Model {
        arbitrary()
    }

    /// The frequency table that a predictor in state `m` gives for the next byte.
    open spec fn cdf_of(m: Self::Model) -> Seq<u16> {
        arbitrary()
    }

    /// The state after the table was asked for.
    open spec fn predicted(m: Self::Model) -> Self::Model {
        arbitrary()
    }

    /// The state after `byte` was fed back.
    open spec fn updated(m: Self::Model, byte: u8) -> Self::Model {
        arbitrary()
    }

    /// The state after a reset.
    open spec fn reset_of(m: Self::Model) -> Self::Model {
        arbitrary()
    }

    /// The name of a predictor in state `m`.
    open spec fn name_of(m: Self::Model) -> Seq<char> {
        arbitrary()
    }

    /// The identifier of a predictor in state `m`.
    open spec fn id_of(m: Self::Model) -> PredictorId {
        arbitrary()
    }

    /// The serialized form of `m`, where the predictor has one.
    open spec fn saved(m: Self::Model) -> Option<Seq<u8>> {
        arbitrary()
    }

    /// The state after `data` was loaded, where the predictor accepts it.
    open spec fn loaded(m: Self::Model, data: Seq<u8>) -> Option<Self::Model> {
        arbitrary()
    }

    /// The serialized state that a reset restores, where one was installed.
    open spec fn baseline_of(m: Self::Model) -> Option<Seq<u8>> {
        arbitrary()
    }

    /// The state after `data` was installed for resets, where the predictor accepts it.
    open spec fn with_baseline(m: Self::Model, data: Seq<u8>) -> Option<Self::Model> {
        arbitrary()
    }

    /// Returns the 15-bit cumulative frequency table for the next byte.
    fn predict_cdf(&mut self) -> (cdf: [u16; 257])
        ensures
            cdf@ == Self::cdf_of(old(self).model()),
            valid_cdf(cdf@),
            final(self).model() == Self::predicted(old(self).model()),
    ;

    /// Returns the two table entries that bound the interval of `byte`.
    ///
    /// Updating with `byte` afterwards leads to the state that
    /// [`predict_cdf`](Self::predict_cdf) and the same update would lead to.
    fn query_cdf(&mut self, byte: u8) -> (r: (u16, u16))
        ensures
            r.0 == Self::cdf_of(old(self).model())[byte as int],
            r.1 == Self::cdf_of(old(self).model())[byte + 1],
            Self::updated(final(self).model(), byte) == Self::updated(
                Self::predicted(old(self).model()),
                byte,
            ),
    {
        let cdf = self.predict_cdf();
        let s: usize = byte as usize;
        (cdf[s], cdf[s + 1])
    }

    /// Feeds a confirmed byte to the predictor.
    fn update(&mut self, byte: u8)
        ensures
            final(self).model() == Self::updated(old(self).model(), byte),
    ;

    /// Resets the predictor, as at a block boundary.
    fn reset(&mut self)
        ensures
            final(self).model() == Self::reset_of(old(self).model()),
    ;

    /// Human-readable name.
    fn name(&self) -> (s: &str)
        ensures
            s@ == Self::name_of(self.model()),
    ;

    /// Identifier stored in the archive header.
    fn predictor_id(&self) -> (id: PredictorId)
        ensures
            id == Self::id_of(self.model()),
    ;

    /// The serialized learned state, where the predictor supports it.
    fn save_state(&self) -> (r: Option<Vec<u8>>)
        ensures
            match (r, Self::saved(self.model())) {
                (Some(v), Some(s)) => v@ == s,
                (None, None) => true,
                _ => false,
            },
    ;

    /// Loads a state that [`save_state`](Self::save_state) gave; tells whether it did.
    fn load_state(&mut self, data: &[u8]) -> (r: bool)
        ensures
            match Self::loaded(old(self).model(), data@) {
                Some(m) => r && final(self).model() == m,
                None => !r && final(self).model() == old(self).model(),
            },
    ;

    /// The serialized state that a reset restores, where one was installed.
    fn coding_baseline(&self) -> (r: Option<&[u8]>)
        ensures
            match (r, Self::baseline_of(self.model())) {
                (Some(v), Some(s)) => v@ == s,
                (None, None) => true,
                _ => false,
            },
    ;

    /// Installs a serialized state for resets; tells whether it did.
    fn set_coding_baseline(&mut self, state: &[u8]) -> (r: bool)
        ensures
            match Self::with_baseline(old(self).model(), state@) {
                Some(m) => r && final(self).model() == m,
                None => !r && final(self).model() == old(self).model(),
            },
    ;
}

/// A reset leads to `m`, whatever the predictor did before.
pub open spec fn resets_to<P: ProbabilityPredictor>(m: P::Model) -> bool {
    forall|other: P::Model| #[trigger] P::reset_of(other) == m
}

/// The state after one coded byte: a table was asked for, then the byte fed back.
pub open spec fn coded<P: ProbabilityPredictor>(m: P::Model, byte: u8) -> P::Model {
    P::updated(P::predicted(m), byte)
}

/// The state after all of `data` was coded.
pub open spec fn coded_all<P: ProbabilityPredictor>(m: P::Model, data: Seq<u8>) -> P::Model
    decreases data.len(),
{
    if data.len() == 0 {
        m
    } else {
        coded_all::<P>(coded::<P>(m, data[0]), data.drop_first())
    }
}

/// Every table asked for while `data` is coded is well formed.
pub open spec fn tables_valid<P: ProbabilityPredictor>(m: P::Model, data: Seq<u8>) -> bool
    decreases data.len(),
{
    data.len() > 0 ==> {
        &&& valid_cdf(P::cdf_of(m))
        &&& tables_valid::<P>(coded::<P>(m, data[0]), data.drop_first())
    }
}

/// Coding goes byte by byte: nothing coded changes nothing, one byte is one table asked for
/// and the byte fed back, and coding two pieces is coding the one and then the other.
pub proof fn coding_continues<P: ProbabilityPredictor>(m: P::Model, a: Seq<u8>, b: Seq<u8>, x: u8)
    ensures
        coded_all::<P>(m, Seq::empty()) == m,
        coded_all::<P>(m, seq![x]) == P::updated(P::predicted(m), x),
        coded_all::<P>(m, a + b) == coded_all::<P>(coded_all::<P>(m, a), b),
    decreases a.len(),
{
    reveal_with_fuel(coded_all, 2);
    assert(seq![x].drop_first() =~= Seq::empty());
    if a.len() == 0 {
        assert(a + b =~= b);
    } else {
        assert((a + b).drop_first() =~= a.drop_first() + b);
        coding_continues::<P>(coded::<P>(m, a[0]), a.drop_first(), b, x);
    }
}

} // verus!

//! Order-0 adaptive frequency model.
//!
//! Tracks how often each byte value has appeared so far and uses the observed frequencies
//! as the probability distribution. No context is considered.

use crate::bytes::{le_bytes, le_value, lemma_le_round_trip, lemma_pow256_values, push_le, read_le};
use crate::coding::cdf::{
    lemma_count_in_sum, lemma_sum_update, strict_cdf, strict_table, sum_of,
};
use crate::coding::rans::{valid_cdf, PROB_TOTAL};
use crate::format::PredictorId;
use vstd::arithmetic::div_mod::{lemma_div_is_ordered, lemma_div_multiples_vanish_fancy};
use vstd::prelude::*;
use vstd::string::*;

verus! {

/// Counts are halved when they add up to more.
pub const RESCALE_LIMIT: u32 = 1_000_000;

/// The largest count that a loaded state may hold.
pub const MAX_COUNT: u32 = 2_000_000;

/// Size of a saved state: a version byte and 256 counts.
pub const STATE_SIZE: usize = 1025;

/// Counts as a model keeps them: 256 of them, none zero, none above the limit.
pub open spec fn are_counts(counts: Seq<u32>) -> bool {
    counts.len() == 256 && forall|i: int| 0 <= i < 256 ==> 1 <= #[trigger] counts[i] <= MAX_COUNT
}

/// The sum of all counts.
pub open spec fn total_of(counts: Seq<u32>) -> nat {
    sum_of(counts, 256)
}

/// Half a count, but at least 1.
pub open spec fn halved(c: u32) -> u32 {
    if c / 2 < 1 {
        1
    } else {
        c / 2
    }
}

/// The counts after `byte` was seen: they are halved when they add up to too much.
pub open spec fn counted(counts: Seq<u32>, byte: u8) -> Seq<u32> {
    let more = counts.update(byte as int, (counts[byte as int] + 1) as u32);
    if total_of(more) > RESCALE_LIMIT {
        more.map_values(|c: u32| halved(c))
    } else {
        more
    }
}

/// The cumulative counts scaled to the total of a table and rounded.
pub open spec fn scaled(counts: Seq<u32>) -> Seq<u16> {
    let total = total_of(counts);
    Seq::new(
        256,
        |i: int| ((sum_of(counts, i as nat) * PROB_TOTAL + total / 2) / total as int) as u16,
    )
}

/// The table made of counts alone, where its fix-ups do not go beyond the total.
pub open spec fn count_table(counts: Seq<u32>) -> Option<Seq<u16>> {
    strict_table(scaled(counts))
}

/// The saved form of counts.
pub open spec fn saved_counts(counts: Seq<u32>) -> Seq<u8>
    decreases counts.len(),
{
    if counts.len() == 0 {
        seq![1u8]
    } else {
        saved_counts(counts.drop_last()) + le_bytes(counts.last() as nat, 4)
    }
}

/// The counts in a saved state.
pub open spec fn counts_in(data: Seq<u8>) -> Seq<u32> {
    Seq::new(256, |i: int| le_value(data.subrange(1 + 4 * i, 5 + 4 * i)) as u32)
}

/// What loading a state gives: the counts, where the size and the version are right and
/// no count is zero or above the limit.
pub open spec fn loaded_counts(data: Seq<u8>) -> Option<Seq<u32>> {
    if data.len() == STATE_SIZE && data[0] == 1 && are_counts(counts_in(data)) {
        Some(counts_in(data))
    } else {
        None
    }
}

/// Adaptive order-0 (unigram) frequency model with Laplace smoothing.
pub struct Order0Model {
    counts: [u32; 256],
    total: u32,
}

impl View for Order0Model {
    type V = Seq<u32>;

    closed spec fn view(&self) -> Seq<u32> {
        self.counts@
    }
}

/// The counts of a fresh model: 1 for each byte.
pub open spec fn initial_counts() -> Seq<u32> {
    Seq::new(256, |i: int| 1u32)
}

proof fn lemma_sum_bound(s: Seq<u32>, n: nat)
    requires
        n <= s.len(),
        forall|i: int| 0 <= i < s.len() ==> 1 <= #[trigger] s[i] <= MAX_COUNT + 1,
    ensures
        n <= sum_of(s, n) <= n * 2_000_001,
    decreases n,
{
    if n > 0 {
        lemma_sum_bound(s, (n - 1) as nat);
    }
}

proof fn lemma_sum_ordered(s: Seq<u32>, i: nat, j: nat)
    requires
        i <= j,
    ensures
        sum_of(s, i) <= sum_of(s, j),
    decreases j,
{
    if i < j {
        lemma_sum_ordered(s, i, (j - 1) as nat);
    }
}

proof fn lemma_initial_sum(n: nat)
    requires
        n <= 256,
    ensures
        sum_of(initial_counts(), n) == n,
    decreases n,
{
    if n > 0 {
        lemma_initial_sum((n - 1) as nat);
    }
}

/// A scaled value is at most the total of a table.
proof fn lemma_scaled_bound(cum: nat, total: nat)
    requires
        cum <= total,
        0 < total,
    ensures
        0 <= (cum * PROB_TOTAL + total / 2) / total as int <= PROB_TOTAL,
{
    assert(cum * PROB_TOTAL <= total * PROB_TOTAL) by (nonlinear_arith)
        requires
            cum <= total,
    ;
    lemma_div_is_ordered(
        (cum * PROB_TOTAL + total / 2) as int,
        (PROB_TOTAL * total + total / 2) as int,
        total as int,
    );
    lemma_div_multiples_vanish_fancy(PROB_TOTAL as int, (total / 2) as int, total as int);
    assert(PROB_TOTAL * total == total * PROB_TOTAL) by (nonlinear_arith);
}

impl Order0Model {
    #[verifier::type_invariant]
    spec fn valid(&self) -> bool {
        &&& are_counts(self.counts@)
        &&& self.total == total_of(self.counts@)
    }

    /// A model that has seen nothing.
    pub fn new() -> (m: Order0Model)
        ensures
            m@ == initial_counts(),
    {
        let counts: [u32; 256] = [1;256];
        proof {
            assert(counts@ =~= initial_counts());
            lemma_initial_sum(256);
        }
        Order0Model { counts, total: 256 }
    }

    /// The count of a byte.
    pub fn count(&self, byte: u8) -> (c: u32)
        ensures
            c == self@[byte as int],
    {
        self.counts[byte as usize]
    }

    /// The sum of all counts.
    pub fn total(&self) -> (n: u32)
        ensures
            n == total_of(self@),
    {
        proof {
            use_type_invariant(self);
        }
        self.total
    }

    /// Builds the frequency table directly from the counts. Gives none where that goes
    /// beyond the total; the table then comes from the probabilities.
    pub fn predict_cdf(&self) -> (r: Option<[u16; 257]>)
        ensures
            match r {
                Some(cdf) => count_table(self@) == Some(cdf@) && valid_cdf(cdf@),
                None => count_table(self@) is None,
            },
    {
        proof {
            use_type_invariant(self);
            lemma_sum_bound(self.counts@, 256);
        }
        let total: u64 = self.total as u64;
        let mut values: [u16; 256] = [0;256];
        let mut cum: u64 = 0;
        let mut i: usize = 0;
        while i < 256
            invariant
                i <= 256,
                are_counts(self.counts@),
                total == total_of(self.counts@),
                0 < total <= 256 * 2_000_001,
                cum == sum_of(self.counts@, i as nat),
                forall|k: int| 0 <= k < i ==> values@[k] == scaled(self.counts@)[k],
            decreases 256 - i,
        {
            proof {
                lemma_sum_ordered(self.counts@, i as nat, 256);
                lemma_scaled_bound(cum as nat, total as nat);
                lemma_sum_ordered(self.counts@, (i + 1) as nat, 256);
                assert(cum * PROB_TOTAL <= 256 * 2_000_001 * 32768) by (nonlinear_arith)
                    requires
                        cum <= 256 * 2_000_001,
                        PROB_TOTAL == 32768,
                ;
            }
            values[i] = ((cum * PROB_TOTAL as u64 + total / 2) / total) as u16;
            cum = cum + self.counts[i] as u64;
            i = i + 1;
        }
        assert(values@ =~= scaled(self.counts@));
        strict_cdf(&values)
    }

    /// The two table entries that bound the interval of `byte`, those of
    /// [`predict_cdf`](Self::predict_cdf).
    pub fn query_cdf(&self, byte: u8) -> (r: Option<(u16, u16)>)
        ensures
            match r {
                Some(e) => count_table(self@) matches Some(t) && e.0 == t[byte as int] && e.1
                    == t[byte + 1],
                None => count_table(self@) is None,
            },
    {
        match self.predict_cdf() {
            Some(cdf) => Some((cdf[byte as usize], cdf[byte as usize + 1])),
            None => None,
        }
    }

    /// Feeds a byte to the model.
    pub fn update(&mut self, byte: u8)
        ensures
            final(self)@ == counted(old(self)@, byte),
            are_counts(final(self)@),
    {
        proof {
            use_type_invariant(&*self);
            lemma_sum_bound(self.counts@, 256);
        }
        let ghost start = self.counts@;
        let k: usize = byte as usize;
        let mut counts = self.counts;
        let count: u32 = counts[k] + 1;
        counts[k] = count;
        let mut total: u32 = self.total + 1;
        proof {
            lemma_sum_update(start, byte as int, count, 256);
            assert(counts@ =~= start.update(byte as int, count));
        }
        let ghost more = counts@;
        if total > RESCALE_LIMIT {
            total = 0;
            let mut i: usize = 0;
            while i < 256
                invariant
                    i <= 256,
                    counts@.len() == 256,
                    forall|j: int| 0 <= j < 256 ==> 1 <= #[trigger] more[j] <= MAX_COUNT + 1,
                    forall|j: int| 0 <= j < i ==> #[trigger] counts@[j] == halved(more[j]),
                    forall|j: int| i <= j < 256 ==> #[trigger] counts@[j] == more[j],
                    total == sum_of(more.map_values(|c: u32| halved(c)), i as nat),
                    total <= i * 1_000_000,
                    more.len() == 256,
                decreases 256 - i,
            {
                let half: u32 = counts[i] / 2;
                let c: u32 = if half < 1 {
                    1
                } else {
                    half
                };
                counts[i] = c;
                total = total + c;
                i = i + 1;
            }
            proof {
                assert(counts@ =~= more.map_values(|c: u32| halved(c)));
                assert(are_counts(counts@));
            }
        } else {
            proof {
                assert forall|j: int| 0 <= j < 256 implies 1 <= #[trigger] counts@[j]
                    <= MAX_COUNT by {
                    lemma_count_in_sum(counts@, j, 256);
                }
            }
        }
        *self = Order0Model { counts, total };
    }

    /// Forgets everything seen.
    pub fn reset(&mut self)
        ensures
            final(self)@ == initial_counts(),
    {
        *self = Order0Model::new();
    }

    /// Human-readable name.
    pub fn name(&self) -> (s: &str)
        ensures
            s@ == "order-0"@,
    {
        "order-0"
    }

    /// Identifier stored in the archive header.
    pub fn predictor_id(&self) -> (id: PredictorId)
        ensures
            id == PredictorId::Order0,
    {
        PredictorId::Order0
    }

    /// The saved form of the counts.
    pub fn save_state(&self) -> (r: Option<Vec<u8>>)
        ensures
            r matches Some(v) && v@ == saved_counts(self@),
            are_counts(self@),
    {
        proof {
            use_type_invariant(self);
        }
        let mut out: Vec<u8> = Vec::new();
        out.push(1);
        let mut i: usize = 0;
        assert(self.counts@.take(0) =~= Seq::empty());
        assert(out@ =~= seq![1u8]);
        while i < 256
            invariant
                i <= 256,
                out@ == saved_counts(self.counts@.take(i as int)),
            decreases 256 - i,
        {
            assert(self.counts@.take(i + 1).drop_last() =~= self.counts@.take(i as int));
            push_le(&mut out, self.counts[i] as u64, 4);
            i = i + 1;
        }
        assert(self.counts@.take(256) =~= self.counts@);
        Some(out)
    }

    /// Loads saved counts; refuses, changing nothing, what is not a saved state.
    pub fn load_state(&mut self, data: &[u8]) -> (r: bool)
        ensures
            match loaded_counts(data@) {
                Some(counts) => r && final(self)@ == counts,
                None => !r && final(self)@ == old(self)@,
            },
    {
        if data.len() != STATE_SIZE {
            return false;
        }
        if data[0] != 1 {
            return false;
        }
        let mut counts: [u32; 256] = [0;256];
        let mut total: u32 = 0;
        let mut i: usize = 0;
        while i < 256
            invariant
                i <= 256,
                data@.len() == STATE_SIZE,
                counts@.len() == 256,
                forall|k: int|
                    0 <= k < i ==> 1 <= #[trigger] counts@[k] <= MAX_COUNT && counts@[k]
                        == counts_in(data@)[k],
                total == sum_of(counts@, i as nat),
                total <= i * 2_000_000,
            decreases 256 - i,
        {
            proof {
                lemma_pow256_values();
            }
            let c: u32 = read_le(data, 1 + 4 * i, 4) as u32;
            assert(c == counts_in(data@)[i as int]);
            if c == 0 || c > MAX_COUNT {
                return false;
            }
            proof {
                lemma_sum_update(counts@, i as int, c, i as nat);
            }
            counts[i] = c;
            total = total + c;
            i = i + 1;
        }
        assert(counts@ =~= counts_in(data@));
        *self = Order0Model { counts, total };
        true
    }
}

impl Default for Order0Model {
    fn default() -> (d: Order0Model)
        ensures
            d@ == initial_counts(),
    {
        Order0Model::new()
    }
}

proof fn lemma_saved(counts: Seq<u32>)
    ensures
        saved_counts(counts).len() == 1 + 4 * counts.len(),
        saved_counts(counts)[0] == 1,
        forall|i: int|
            0 <= i < counts.len() ==> saved_counts(counts).subrange(1 + 4 * i, 5 + 4 * i)
                == le_bytes(#[trigger] counts[i] as nat, 4),
    decreases counts.len(),
{
    if counts.len() > 0 {
        let before = saved_counts(counts.drop_last());
        let all = saved_counts(counts);
        lemma_saved(counts.drop_last());
        crate::bytes::lemma_le_bytes_len(counts.last() as nat, 4);
        assert forall|i: int| 0 <= i < counts.len() implies all.subrange(1 + 4 * i, 5 + 4 * i)
            == le_bytes(#[trigger] counts[i] as nat, 4) by {
            if i < counts.len() - 1 {
                assert(counts.drop_last()[i] == counts[i]);
                assert(all.subrange(1 + 4 * i, 5 + 4 * i) =~= before.subrange(
                    1 + 4 * i,
                    5 + 4 * i,
                ));
            } else {
                assert(all.subrange(1 + 4 * i, 5 + 4 * i) =~= le_bytes(counts[i] as nat, 4));
            }
        }
    }
}

/// A saved state loads, into any model, as the counts that were saved.
pub proof fn saved_counts_load(counts: Seq<u32>)
    requires
        are_counts(counts),
    ensures
        loaded_counts(saved_counts(counts)) == Some(counts),
{
    lemma_saved(counts);
    lemma_pow256_values();
    let data = saved_counts(counts);
    assert forall|i: int| 0 <= i < 256 implies #[trigger] counts_in(data)[i] == counts[i] by {
        lemma_le_round_trip(counts[i] as nat, 4);
        assert(data.subrange(1 + 4 * i, 5 + 4 * i) == le_bytes(counts[i] as nat, 4));
    }
    assert(counts_in(data) =~= counts);
}

/// Whatever a model sees, its counts stay within their bounds and add up to at most the
/// limit, or to what the halved counts of a loaded state add up to.
pub proof fn counted_stays_bounded(counts: Seq<u32>, byte: u8)
    requires
        are_counts(counts),
    ensures
        are_counts(counted(counts, byte)),
        total_of(counts) <= RESCALE_LIMIT ==> total_of(counted(counts, byte)) <= RESCALE_LIMIT,
{
    let more = counts.update(byte as int, (counts[byte as int] + 1) as u32);
    lemma_sum_update(counts, byte as int, (counts[byte as int] + 1) as u32, 256);
    if total_of(more) > RESCALE_LIMIT {
        lemma_halved_sum(more, 256);
    } else {
        assert forall|j: int| 0 <= j < 256 implies 1 <= #[trigger] more[j] <= MAX_COUNT by {
            lemma_count_in_sum(more, j, 256);
        }
    }
}

proof fn lemma_halved_sum(s: Seq<u32>, n: nat)
    requires
        n <= s.len(),
        forall|i: int| 0 <= i < s.len() ==> 1 <= #[trigger] s[i],
    ensures
        2 * sum_of(s.map_values(|c: u32| halved(c)), n) <= sum_of(s, n) + n,
    decreases n,
{
    if n > 0 {
        lemma_halved_sum(s, (n - 1) as nat);
    }
}

/// A byte that is seen counts once: its count grows by one and no other changes. Where the
/// counts add up to a million already, all are halved after that, but none below 1.
pub proof fn bytes_are_counted(counts: Seq<u32>, byte: u8, i: int)
    requires
        are_counts(counts),
        0 <= i < 256,
    ensures
        ({
            let grown = if i == byte {
                counts[i] + 1
            } else {
                counts[i] as int
            };
            counted(counts, byte)[i] == if total_of(counts) < 1_000_000 {
                grown
            } else if grown < 2 {
                1
            } else {
                grown / 2
            }
        }),
        counted(counts, byte).len() == 256,
        initial_counts()[i] == 1,
{
    lemma_sum_update(counts, byte as int, (counts[byte as int] + 1) as u32, 256);
}

/// The share of the table below a byte is that of the counts below it, rounded: off by half
/// a part at most. The table has these shares where they differ, and the smallest ones above
/// those before where they do not.
pub proof fn tables_follow_the_counts(counts: Seq<u32>, i: int)
    requires
        are_counts(counts),
        0 <= i < 256,
    ensures
        ({
            let below = sum_of(counts, i as nat) as int * 32_768;
            let total = total_of(counts) as int;
            let share = scaled(counts)[i] as int;
            2 * (share * total - below) <= total && 2 * (below - share * total) <= total
        }),
        count_table(counts) matches Some(t) ==> t[i] >= scaled(counts)[i] && t[0] == 0 && (i > 0
            ==> t[i] == scaled(counts)[i] || t[i] == t[i - 1] + 1 && t[i - 1] >= scaled(counts)[i]),
{
    let total = total_of(counts);
    let cum = sum_of(counts, i as nat);
    lemma_sum_bound(counts, 256);
    lemma_sum_ordered(counts, i as nat, 256);
    lemma_scaled_bound(cum, total);
    let x = (cum * PROB_TOTAL + total / 2) as int;
    let t = total as int;
    vstd::arithmetic::div_mod::lemma_fundamental_div_mod(x, t);
    vstd::arithmetic::div_mod::lemma_mod_bound(x, t);
    let share = scaled(counts)[i] as int;
    assert(share == x / t);
    assert(t * share == share * t) by (nonlinear_arith);
    if count_table(counts) is Some {
        crate::coding::cdf::strict_tables_raise_little(scaled(counts), i as nat);
        if i > 0 {
            crate::coding::cdf::strict_tables_raise_little(scaled(counts), (i - 1) as nat);
        }
    }
}

/// Where the counts stand in a saved state: the version 1, and four bytes for each byte, in
/// order.
pub proof fn order0_state_layout(counts: Seq<u32>, i: int)
    requires
        are_counts(counts),
        0 <= i < 256,
    ensures
        saved_counts(counts).len() == 1025,
        saved_counts(counts)[0] == 1,
        le_value(saved_counts(counts).subrange(1 + 4 * i, 5 + 4 * i)) == counts[i],
{
    lemma_saved(counts);
    lemma_pow256_values();
    lemma_le_round_trip(counts[i] as nat, 4);
    assert(saved_counts(counts).subrange(1 + 4 * i, 5 + 4 * i) == le_bytes(counts[i] as nat, 4));
}

/// What [`Order0Model::update`], [`Order0Model::count`], [`Order0Model::reset`] and
/// [`Order0Model::total`] do: a byte counts once, for itself alone, and a reset leaves 1 for
/// each.
pub proof fn updates_count_bytes(
    m: &mut Order0Model,
    byte: u8,
    i: u8,
    before: u32,
    after: u32,
    fresh: Order0Model,
)
    requires
        call_ensures(Order0Model::update, (m, byte), ()),
        call_ensures(Order0Model::count, (old(m), i), before),
        call_ensures(Order0Model::count, (final(m), i), after),
        are_counts(old(m)@),
        call_ensures(Order0Model::new, (), fresh),
    ensures
        total_of(old(m)@) < 1_000_000 ==> after == before + if i == byte {
            1int
        } else {
            0
        },
        fresh@[i as int] == 1,
{
    bytes_are_counted(old(m)@, byte, i as int);
    bytes_are_counted(initial_counts(), byte, i as int);
}

/// What [`Order0Model::predict_cdf`] and [`Order0Model::query_cdf`] give belongs together: the
/// interval of a byte is that in the table, and there is one where there is a table.
pub proof fn queries_follow_the_table(
    m: Order0Model,
    byte: u8,
    table: Option<[u16; 257]>,
    interval: Option<(u16, u16)>,
)
    requires
        call_ensures(Order0Model::predict_cdf, (&m,), table),
        call_ensures(Order0Model::query_cdf, (&m, byte), interval),
    ensures
        table is Some <==> interval is Some,
        table is Some ==> interval == Some((table->0@[byte as int], table->0@[byte + 1])),
{
}

/// What [`Order0Model::save_state`] and [`Order0Model::load_state`] do, one after the other.
pub proof fn order0_states_are_loaded(
    m: Order0Model,
    state: Option<Vec<u8>>,
    given: &[u8],
    other: &mut Order0Model,
    r: bool,
)
    requires
        call_ensures(Order0Model::save_state, (&m,), state),
        state is Some ==> given@ == state->0@,
        call_ensures(Order0Model::load_state, (other, given), r),
    ensures
        state is Some,
        r && final(other)@ == m@,
{
    saved_counts_load(m@);
}

/// A state that loads was checked: the version, the length, and every count from 1 to two
/// million, which is what it then counts.
pub proof fn accepted_counts_are_checked(data: Seq<u8>, i: int)
    requires
        loaded_counts(data) is Some,
        0 <= i < 256,
    ensures
        data.len() == 1025,
        data[0] == 1,
        1 <= loaded_counts(data)->0[i] <= 2_000_000,
        loaded_counts(data)->0[i] == le_value(data.subrange(1 + 4 * i, 5 + 4 * i)),
{
    let part = data.subrange(1 + 4 * i, 5 + 4 * i);
    crate::bytes::lemma_le_value_bound(part);
    lemma_pow256_values();
}

/// What a reset leaves, and what the predictor calls itself.
pub proof fn order0_resets_forget(m: &mut Order0Model, p: Order0Model, id: PredictorId, i: int)
    requires
        call_ensures(Order0Model::reset, (m,), ()),
        call_ensures(Order0Model::predictor_id, (&p,), id),
        0 <= i < 256,
    ensures
        final(m)@[i] == 1,
        final(m)@.len() == 256,
        id == PredictorId::Order0,
{
}

/// What [`Order0Model::save_state`] gives is the saved form of the counts.
pub proof fn order0_states_are_saved(m: Order0Model, state: Option<Vec<u8>>, i: int)
    requires
        call_ensures(Order0Model::save_state, (&m,), state),
        0 <= i < 256,
    ensures
        state is Some,
        state->0@.len() == 1025 && state->0@[0] == 1,
        le_value(state->0@.subrange(1 + 4 * i, 5 + 4 * i)) == m@[i],
{
    order0_state_layout(m@, i);
}

} // verus!

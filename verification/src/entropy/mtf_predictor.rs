//! Counts for the prediction of BWT+MTF output streams.
//!
//! Most values of such a stream are small, and runs of zeros are common. Within a zero
//! run the context is the length of the run; after another value it is that value; for
//! the first value there is none. The probabilities made of the counts are floating-point
//! numbers, and not made here.

use crate::coding::cdf::{lemma_sum_update, sum_of};
use crate::format::PredictorId;
use vstd::prelude::*;
use vstd::string::*;

verus! {

/// Contexts after a value that is not zero.
pub const ORDER1_SIZE: usize = 256;

/// Contexts within a zero run.
pub const RUN_BUCKETS: usize = 11;

/// A table is halved when one of its counts reaches this.
pub const RESCALE_THRESHOLD: u16 = 16_000;

/// A table is halved when its counts add up to this.
pub const TOTAL_RESCALE_THRESHOLD: u32 = 1_000_000;

/// The class of a zero run by its length.
pub open spec fn bucket_of(run_len: u32) -> int {
    if run_len <= 6 {
        run_len as int
    } else if run_len <= 15 {
        7
    } else if run_len <= 31 {
        8
    } else if run_len <= 63 {
        9
    } else {
        10
    }
}

/// Maps a zero-run length to its class.
pub fn run_bucket(run_len: u32) -> (b: usize)
    ensures
        b == bucket_of(run_len),
        b < RUN_BUCKETS,
{
    if run_len <= 6 {
        run_len as usize
    } else if run_len <= 15 {
        7
    } else if run_len <= 31 {
        8
    } else if run_len <= 63 {
        9
    } else {
        10
    }
}

/// The counts of one context, with their sum.
#[derive(Clone, Copy)]
pub struct CountTable {
    pub counts: [u16; 256],
    pub total: u32,
}

/// Counts as 32-bit numbers.
pub open spec fn widened(counts: Seq<u16>) -> Seq<u32> {
    counts.map_values(|c: u16| c as u32)
}

/// Counts within their limit.
pub open spec fn are_counts(counts: Seq<u16>) -> bool {
    &&& counts.len() == 256
    &&& forall|i: int| 0 <= i < 256 ==> #[trigger] counts[i] < RESCALE_THRESHOLD
    &&& sum_of(widened(counts), 256) < TOTAL_RESCALE_THRESHOLD
}

/// No counts.
pub open spec fn no_counts() -> Seq<u16> {
    Seq::new(256, |i: int| 0u16)
}

/// The counts after `byte` was seen: they are halved when one, or their sum, reaches its
/// limit.
pub open spec fn bumped(counts: Seq<u16>, byte: u8) -> Seq<u16> {
    let more = counts.update(byte as int, (counts[byte as int] + 1) as u16);
    if more[byte as int] >= RESCALE_THRESHOLD || sum_of(widened(more), 256)
        >= TOTAL_RESCALE_THRESHOLD {
        more.map_values(|c: u16| c / 2)
    } else {
        more
    }
}

proof fn lemma_halved_sum(more: Seq<u16>, n: nat)
    requires
        n <= more.len(),
    ensures
        2 * sum_of(widened(more.map_values(|c: u16| c / 2)), n) <= sum_of(widened(more), n),
    decreases n,
{
    if n > 0 {
        lemma_halved_sum(more, (n - 1) as nat);
    }
}

proof fn lemma_widened_update(counts: Seq<u16>, k: int, v: u16)
    requires
        0 <= k < counts.len(),
    ensures
        widened(counts.update(k, v)) == widened(counts).update(k, v as u32),
{
    assert(widened(counts.update(k, v)) =~= widened(counts).update(k, v as u32));
}

/// Counts stay within their limits.
pub proof fn bumped_stays_bounded(counts: Seq<u16>, byte: u8)
    requires
        are_counts(counts),
    ensures
        are_counts(bumped(counts, byte)),
{
    let v = (counts[byte as int] + 1) as u16;
    let more = counts.update(byte as int, v);
    lemma_widened_update(counts, byte as int, v);
    lemma_sum_update(widened(counts), byte as int, v as u32, 256);
    lemma_halved_sum(more, 256);
}

proof fn lemma_no_counts(n: nat)
    requires
        n <= 256,
    ensures
        sum_of(widened(no_counts()), n) == 0,
    decreases n,
{
    if n > 0 {
        lemma_no_counts((n - 1) as nat);
    }
}

impl CountTable {
    /// The counts are within their limits, and the total is theirs.
    pub open spec fn valid(self) -> bool {
        are_counts(self.counts@) && self.total == sum_of(widened(self.counts@), 256)
    }

    /// A table without counts.
    pub fn new() -> (t: CountTable)
        ensures
            t.valid(),
            t.counts@ == no_counts(),
    {
        let counts: [u16; 256] = [0;256];
        proof {
            assert(counts@ =~= no_counts());
            lemma_no_counts(256);
        }
        CountTable { counts, total: 0 }
    }

    /// Counts a byte.
    pub fn bump(&mut self, byte: u8)
        requires
            old(self).valid(),
        ensures
            final(self).valid(),
            final(self).counts@ == bumped(old(self).counts@, byte),
    {
        let ghost start = self.counts@;
        let k: usize = byte as usize;
        let count: u16 = self.counts[k] + 1;
        let mut counts = self.counts;
        counts[k] = count;
        let mut total: u32 = self.total + 1;
        let ghost more = counts@;
        proof {
            bumped_stays_bounded(start, byte);
            lemma_widened_update(start, byte as int, count);
            lemma_sum_update(widened(start), byte as int, count as u32, 256);
            assert(more =~= start.update(byte as int, count));
        }
        if count >= RESCALE_THRESHOLD || total >= TOTAL_RESCALE_THRESHOLD {
            let ghost halves = more.map_values(|c: u16| c / 2);
            total = 0;
            let mut i: usize = 0;
            while i < 256
                invariant
                    i <= 256,
                    counts@.len() == 256,
                    more.len() == 256,
                    halves == more.map_values(|c: u16| c / 2),
                    forall|j: int| 0 <= j < i ==> #[trigger] counts@[j] == more[j] / 2,
                    forall|j: int| i <= j < 256 ==> #[trigger] counts@[j] == more[j],
                    total == sum_of(widened(halves), i as nat),
                    total <= i * 32767,
                decreases 256 - i,
            {
                let half: u16 = counts[i] / 2;
                counts[i] = half;
                total = total + half as u32;
                i = i + 1;
            }
            assert(counts@ =~= halves);
        }
        self.counts = counts;
        self.total = total;
    }
}

/// The value of an [`MtfPredictor`].
pub struct MtfModel {
    /// Counts within zero runs, by the class of the run.
    pub run_ctx: Seq<Seq<u16>>,
    /// Counts after other values, by the value.
    pub order1: Seq<Seq<u16>>,
    /// Counts of all values.
    pub order0: Seq<u16>,
    /// The length of the zero run that is going on.
    pub run_len: u32,
    /// The previous value.
    pub prev: u8,
    /// Whether there is a previous value.
    pub has_context: bool,
}

impl MtfModel {
    /// Nothing was seen.
    pub open spec fn fresh() -> MtfModel {
        MtfModel {
            run_ctx: Seq::new(11, |i: int| no_counts()),
            order1: Seq::new(256, |i: int| no_counts()),
            order0: no_counts(),
            run_len: 0,
            prev: 0,
            has_context: false,
        }
    }

    /// The counts that the next prediction rests on.
    pub open spec fn active(self) -> Seq<u16> {
        if !self.has_context {
            self.order0
        } else if self.prev == 0 {
            self.run_ctx[bucket_of(self.run_len)]
        } else {
            self.order1[self.prev as int]
        }
    }

    /// The state after `byte` was seen: the counts that were active, and those of all
    /// values, count it.
    pub open spec fn counted(self, byte: u8) -> MtfModel {
        let bucket = bucket_of(self.run_len);
        MtfModel {
            run_ctx: if self.has_context && self.prev == 0 {
                self.run_ctx.update(bucket, bumped(self.run_ctx[bucket], byte))
            } else {
                self.run_ctx
            },
            order1: if self.has_context && self.prev != 0 {
                self.order1.update(self.prev as int, bumped(self.order1[self.prev as int], byte))
            } else {
                self.order1
            },
            order0: bumped(self.order0, byte),
            run_len: if byte != 0 {
                0
            } else if self.run_len == u32::MAX {
                u32::MAX
            } else {
                (self.run_len + 1) as u32
            },
            prev: byte,
            has_context: true,
        }
    }

    /// All tables are valid.
    pub open spec fn valid(self) -> bool {
        &&& self.run_ctx.len() == 11
        &&& self.order1.len() == 256
        &&& forall|i: int| 0 <= i < 11 ==> are_counts(#[trigger] self.run_ctx[i])
        &&& forall|i: int| 0 <= i < 256 ==> are_counts(#[trigger] self.order1[i])
        &&& are_counts(self.order0)
    }
}

/// MTF-aware counts for BWT+MTF preprocessed data.
pub struct MtfPredictor {
    run_ctx: Vec<CountTable>,
    order1: Vec<CountTable>,
    order0: CountTable,
    run_len: u32,
    prev: u8,
    has_context: bool,
}

spec fn counts_of(tables: Seq<CountTable>) -> Seq<Seq<u16>> {
    tables.map_values(|t: CountTable| t.counts@)
}

impl View for MtfPredictor {
    type V = MtfModel;

    closed spec fn view(&self) -> MtfModel {
        MtfModel {
            run_ctx: counts_of(self.run_ctx@),
            order1: counts_of(self.order1@),
            order0: self.order0.counts@,
            run_len: self.run_len,
            prev: self.prev,
            has_context: self.has_context,
        }
    }
}

fn empty_tables(n: usize) -> (tables: Vec<CountTable>)
    ensures
        tables@.len() == n,
        forall|i: int| 0 <= i < n ==> (#[trigger] tables@[i]).valid(),
        counts_of(tables@) == Seq::new(n as nat, |i: int| no_counts()),
{
    let mut tables: Vec<CountTable> = Vec::new();
    while tables.len() < n
        invariant
            tables@.len() <= n,
            forall|i: int|
                0 <= i < tables@.len() ==> (#[trigger] tables@[i]).valid() && tables@[i].counts@
                    == no_counts(),
        decreases n - tables@.len(),
    {
        tables.push(CountTable::new());
    }
    assert(counts_of(tables@) =~= Seq::new(n as nat, |i: int| no_counts()));
    tables
}

/// Counts a byte in one of several tables.
fn bump_at(tables: &mut Vec<CountTable>, k: usize, byte: u8)
    requires
        k < old(tables)@.len(),
        forall|i: int| 0 <= i < old(tables)@.len() ==> (#[trigger] old(tables)@[i]).valid(),
    ensures
        final(tables)@.len() == old(tables)@.len(),
        forall|i: int| 0 <= i < final(tables)@.len() ==> (#[trigger] final(tables)@[i]).valid(),
        counts_of(final(tables)@) == counts_of(old(tables)@).update(
            k as int,
            bumped(counts_of(old(tables)@)[k as int], byte),
        ),
{
    let mut table = tables[k];
    table.bump(byte);
    tables.set(k, table);
    assert(counts_of(tables@) =~= counts_of(old(tables)@).update(
        k as int,
        bumped(counts_of(old(tables)@)[k as int], byte),
    ));
}

impl MtfPredictor {
    /// The tables are complete, their counts within their limits, and the totals theirs.
    pub closed spec fn wf(&self) -> bool {
        &&& self.run_ctx@.len() == 11
        &&& self.order1@.len() == 256
        &&& forall|i: int| 0 <= i < 11 ==> (#[trigger] self.run_ctx@[i]).valid()
        &&& forall|i: int| 0 <= i < 256 ==> (#[trigger] self.order1@[i]).valid()
        &&& self.order0.valid()
    }

    /// A predictor that has seen nothing.
    pub fn new() -> (p: MtfPredictor)
        ensures
            p@ == MtfModel::fresh(),
            p.wf(),
    {
        MtfPredictor {
            run_ctx: empty_tables(RUN_BUCKETS),
            order1: empty_tables(ORDER1_SIZE),
            order0: CountTable::new(),
            run_len: 0,
            prev: 0,
            has_context: false,
        }
    }

    /// The counts that the next prediction rests on, with their sum.
    pub fn active(&self) -> (t: CountTable)
        requires
            self.wf(),
        ensures
            t.counts@ == self@.active(),
            t.valid(),
    {
        if !self.has_context {
            self.order0
        } else if self.prev == 0 {
            self.run_ctx[run_bucket(self.run_len)]
        } else {
            self.order1[self.prev as usize]
        }
    }

    /// Feeds a byte to the predictor.
    pub fn update(&mut self, byte: u8)
        requires
            old(self).wf(),
        ensures
            final(self)@ == old(self)@.counted(byte),
            final(self).wf(),
    {
        if self.has_context {
            if self.prev == 0 {
                bump_at(&mut self.run_ctx, run_bucket(self.run_len), byte);
            } else {
                bump_at(&mut self.order1, self.prev as usize, byte);
            }
        }
        self.order0.bump(byte);
        self.run_len = if byte == 0 {
            self.run_len.saturating_add(1)
        } else {
            0
        };
        self.prev = byte;
        self.has_context = true;
    }

    /// Forgets everything seen.
    pub fn reset(&mut self)
        ensures
            final(self)@ == MtfModel::fresh(),
            final(self).wf(),
    {
        *self = MtfPredictor::new();
    }

    /// Human-readable name.
    pub fn name(&self) -> (s: &str)
        ensures
            s@ == "mtf"@,
    {
        "mtf"
    }

    /// Identifier stored in the archive header.
    pub fn predictor_id(&self) -> (id: PredictorId)
        ensures
            id == PredictorId::Mtf,
    {
        PredictorId::Mtf
    }
}

impl Default for MtfPredictor {
    fn default() -> (d: MtfPredictor)
        ensures
            d@ == MtfModel::fresh(),
            d.wf(),
    {
        MtfPredictor::new()
    }
}

/// The value of a predictor is valid.
pub proof fn mtf_wf_is_valid(p: &MtfPredictor)
    requires
        p.wf(),
    ensures
        p@.valid(),
{
    assert forall|i: int| 0 <= i < 11 implies are_counts(#[trigger] p@.run_ctx[i]) by {
        assert(p.run_ctx@[i].valid());
    }
    assert forall|i: int| 0 <= i < 256 implies are_counts(#[trigger] p@.order1[i]) by {
        assert(p.order1@[i].valid());
    }
}

/// Whatever is seen, all counts stay within their limits.
pub proof fn counted_stays_valid(m: MtfModel, byte: u8)
    requires
        m.valid(),
    ensures
        m.counted(byte).valid(),
        MtfModel::fresh().valid(),
{
    lemma_no_counts(256);
    bumped_stays_bounded(m.order0, byte);
    bumped_stays_bounded(m.run_ctx[bucket_of(m.run_len)], byte);
    bumped_stays_bounded(m.order1[m.prev as int], byte);
}

/// A value that is seen counts once in a table: its count grows by one and no other changes,
/// until it reaches 16,000 or all reach a million; then all are halved.
pub proof fn tables_count_what_came(counts: Seq<u16>, byte: u8, i: int)
    requires
        are_counts(counts),
        0 <= i < 256,
    ensures
        ({
            let grown = if i == byte {
                counts[i] + 1
            } else {
                counts[i] as int
            };
            bumped(counts, byte)[i] == if counts[byte as int] + 1 < 16_000 && sum_of(
                widened(counts),
                256,
            ) + 1 < 1_000_000 {
                grown
            } else {
                grown / 2
            }
        }),
        bumped(counts, byte).len() == 256,
{
    let v = (counts[byte as int] + 1) as u16;
    lemma_widened_update(counts, byte as int, v);
    lemma_sum_update(widened(counts), byte as int, v as u32, 256);
}

/// A value is counted where the prediction of it looked, and among all values; no other table
/// changes.
pub proof fn active_tables_learn(m: MtfModel, byte: u8, i: int)
    requires
        m.valid(),
    ensures
        m.counted(byte).order0 == bumped(m.order0, byte),
        0 <= i < 256 && !(m.has_context && m.prev == i && i > 0) ==> m.counted(byte).order1[i]
            == m.order1[i],
        0 <= i < 11 && !(m.has_context && m.prev == 0 && i == bucket_of(m.run_len)) ==> m.counted(
            byte,
        ).run_ctx[i] == m.run_ctx[i],
        m.has_context && m.prev > 0 ==> m.active() == m.order1[m.prev as int] && m.counted(
            byte,
        ).order1[m.prev as int] == bumped(m.active(), byte),
        m.has_context && m.prev == 0 ==> m.active() == m.run_ctx[bucket_of(m.run_len)] && m.counted(
            byte,
        ).run_ctx[bucket_of(m.run_len)] == bumped(m.active(), byte),
        !m.has_context ==> m.active() == m.order0,
{
}

/// The context of the next value: after another value that value, in a run of zeros the
/// length of the run.
pub proof fn contexts_follow_the_values(m: MtfModel, byte: u8)
    ensures
        m.counted(byte).has_context,
        m.counted(byte).prev == byte,
        byte > 0 ==> m.counted(byte).run_len == 0,
        byte == 0 && m.run_len < u32::MAX ==> m.counted(byte).run_len == m.run_len + 1,
        byte > 0 ==> m.counted(byte).active() == m.counted(byte).order1[byte as int],
        !MtfModel::fresh().has_context,
        MtfModel::fresh().run_len == 0,
{
}

/// Runs of the same class are alike in length: up to 6 exactly, then 7 to 15, 16 to 31, 32 to
/// 63, and longer.
pub proof fn runs_are_classed_by_length(a: u32, b: u32)
    ensures
        0 <= bucket_of(a) < 11,
        a <= b ==> bucket_of(a) <= bucket_of(b),
        bucket_of(a) == bucket_of(b) <==> a == b || (7 <= a <= 15 && 7 <= b <= 15) || (16 <= a <= 31
            && 16 <= b <= 31) || (32 <= a <= 63 && 32 <= b <= 63) || (a >= 64 && b >= 64),
        a <= 6 ==> bucket_of(a) == a,
{
}

/// What [`MtfPredictor::update`] and [`MtfPredictor::active`] do: the table that predicts a
/// value counts it, once and for itself alone.
pub proof fn updates_count_in_the_active_table(
    p: &mut MtfPredictor,
    byte: u8,
    before: CountTable,
    i: int,
)
    requires
        call_ensures(MtfPredictor::update, (p, byte), ()),
        call_ensures(MtfPredictor::active, (old(p),), before),
        old(p).wf(),
        0 <= i < 256,
    ensures
        ({
            let m = old(p)@;
            let after = if !m.has_context {
                final(p)@.order0
            } else if m.prev == 0 {
                final(p)@.run_ctx[bucket_of(m.run_len)]
            } else {
                final(p)@.order1[m.prev as int]
            };
            before.counts@[byte as int] + 1 < 16_000 && sum_of(widened(before.counts@), 256) + 1
                < 1_000_000 ==> after[i] == before.counts@[i] + if i == byte {
                1int
            } else {
                0
            }
        }),
        final(p)@.prev == byte && final(p)@.has_context,
        byte > 0 ==> final(p)@.run_len == 0,
        byte == 0 && old(p)@.run_len < u32::MAX ==> final(p)@.run_len == old(p)@.run_len + 1,
{
    mtf_wf_is_valid(&*old(p));
    active_tables_learn(old(p)@, byte, i);
    contexts_follow_the_values(old(p)@, byte);
    assert(are_counts(old(p)@.active()));
    tables_count_what_came(old(p)@.active(), byte, i);
}

/// What a reset leaves, and what the predictor calls itself.
pub proof fn mtf_resets_forget(p: &mut MtfPredictor, q: MtfPredictor, id: PredictorId, i: int)
    requires
        call_ensures(MtfPredictor::reset, (p,), ()),
        call_ensures(MtfPredictor::predictor_id, (&q,), id),
        0 <= i < 256,
    ensures
        final(p)@.order0[i] == 0,
        final(p)@.order1[i][i] == 0,
        final(p)@.run_ctx[i % 11][i] == 0,
        !final(p)@.has_context,
        final(p)@.run_len == 0,
        id == PredictorId::Mtf,
{
}

} // verus!

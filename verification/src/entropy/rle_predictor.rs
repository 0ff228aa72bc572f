//! Context-class predictor with hierarchical decomposition for BWT+MTF+RLE streams.
//!
//! The stream holds the digits of zero runs (0 and 1) and literals (2 to 255). The
//! prediction of a byte is decomposed: is it a run digit or a literal; which run digit;
//! which literal. Each decision has its own counts in each of three context classes. The
//! counts are kept here; the probabilities made of them are floating-point numbers.

use super::words::{
    lemma_words_bytes_in, lemma_words_round_trip, push_words, read_words, words_bytes, words_in,
};
use crate::coding::cdf::{lemma_count_in_sum, lemma_sum_update, sum_of};
use crate::format::PredictorId;
use vstd::prelude::*;
use vstd::string::*;

verus! {

/// Context class of the first byte.
pub const CTX_START: usize = 0;

/// Context class after a run digit.
pub const CTX_IN_RUN: usize = 1;

/// Context class after a literal.
pub const CTX_AFTER_LIT: usize = 2;

/// Counts are halved when their total is above this.
pub const RESCALE_LIMIT: u32 = 500_000;

/// The largest count that a loaded state may hold.
pub const MAX_COUNT: u32 = 1_000_000;

/// Size of a saved state.
pub const STATE_SIZE: usize = 3110;

/// Counts of a yes-or-no decision.
#[derive(Clone, Copy, PartialEq, Eq, Structural)]
pub struct BinaryModel {
    pub count_yes: u32,
    pub count_total: u32,
}

impl BinaryModel {
    /// No more yes than in total, and the total within its limit.
    pub open spec fn valid(self) -> bool {
        self.count_yes <= self.count_total <= MAX_COUNT
    }

    /// The counts after one more decision.
    pub open spec fn counted(self, is_yes: bool) -> BinaryModel {
        let yes = if is_yes {
            self.count_yes + 1
        } else {
            self.count_yes as int
        };
        let total = self.count_total + 1;
        if total > RESCALE_LIMIT {
            BinaryModel { count_yes: (yes / 2) as u32, count_total: (total / 2) as u32 }
        } else {
            BinaryModel { count_yes: yes as u32, count_total: total as u32 }
        }
    }

    /// No decisions yet.
    pub fn new() -> (m: BinaryModel)
        ensures
            m == (BinaryModel { count_yes: 0, count_total: 0 }),
    {
        BinaryModel { count_yes: 0, count_total: 0 }
    }

    /// Counts one more decision.
    pub fn update(&mut self, is_yes: bool)
        requires
            old(self).valid(),
        ensures
            *final(self) == old(self).counted(is_yes),
            final(self).valid(),
    {
        if is_yes {
            self.count_yes = self.count_yes + 1;
        }
        self.count_total = self.count_total + 1;
        if self.count_total > RESCALE_LIMIT {
            self.count_total = self.count_total / 2;
            self.count_yes = self.count_yes / 2;
        }
    }
}

/// The counts of one context class.
#[derive(Clone, Copy)]
pub struct RleContext {
    /// Is the next byte a run digit?
    pub run_vs_lit: BinaryModel,
    /// Is the run digit a 0?
    pub runa_vs_runb: BinaryModel,
    /// How often each literal came, from 2 on.
    pub lit_counts: [u32; 254],
    /// How many literals came.
    pub lit_total: u32,
}

/// The value of an [`RleContext`].
pub struct ContextModel {
    pub run_vs_lit: BinaryModel,
    pub runa_vs_runb: BinaryModel,
    pub lit_counts: Seq<u32>,
    pub lit_total: u32,
}

impl View for RleContext {
    type V = ContextModel;

    open spec fn view(&self) -> ContextModel {
        ContextModel {
            run_vs_lit: self.run_vs_lit,
            runa_vs_runb: self.runa_vs_runb,
            lit_counts: self.lit_counts@,
            lit_total: self.lit_total,
        }
    }
}

impl ContextModel {
    /// The counts are within their limits, and the total is that of the literals.
    pub open spec fn valid(self) -> bool {
        &&& self.run_vs_lit.valid()
        &&& self.runa_vs_runb.valid()
        &&& self.lit_counts.len() == 254
        &&& forall|i: int| 0 <= i < 254 ==> #[trigger] self.lit_counts[i] <= MAX_COUNT
        &&& self.lit_total == sum_of(self.lit_counts, 254)
    }

    /// The counts of a class in which nothing was seen.
    pub open spec fn fresh() -> ContextModel {
        let none = BinaryModel { count_yes: 0, count_total: 0 };
        ContextModel {
            run_vs_lit: none,
            runa_vs_runb: none,
            lit_counts: Seq::new(254, |i: int| 0u32),
            lit_total: 0,
        }
    }

    /// The counts after `byte` was seen.
    pub open spec fn counted(self, byte: u8) -> ContextModel {
        let run_vs_lit = self.run_vs_lit.counted(byte <= 1);
        if byte <= 1 {
            ContextModel {
                run_vs_lit,
                runa_vs_runb: self.runa_vs_runb.counted(byte == 0),
                ..self
            }
        } else {
            let more = self.lit_counts.update(
                byte - 2,
                (self.lit_counts[byte - 2] + 1) as u32,
            );
            let counts = if self.lit_total + 1 > RESCALE_LIMIT {
                more.map_values(|c: u32| c / 2)
            } else {
                more
            };
            ContextModel {
                run_vs_lit,
                lit_counts: counts,
                lit_total: sum_of(counts, 254) as u32,
                ..self
            }
        }
    }

    /// The words that the class is saved as.
    pub open spec fn words(self) -> Seq<u32> {
        seq![
            self.run_vs_lit.count_yes,
            self.run_vs_lit.count_total,
            self.runa_vs_runb.count_yes,
            self.runa_vs_runb.count_total,
        ] + self.lit_counts + seq![self.lit_total]
    }

    /// The class that was saved as the given 259 words.
    pub open spec fn of_words(words: Seq<u32>) -> ContextModel {
        ContextModel {
            run_vs_lit: BinaryModel { count_yes: words[0], count_total: words[1] },
            runa_vs_runb: BinaryModel { count_yes: words[2], count_total: words[3] },
            lit_counts: words.subrange(4, 258),
            lit_total: words[258],
        }
    }
}

/// The value of an [`RlePredictor`]: its classes and the current one.
pub struct RleModel {
    pub contexts: Seq<ContextModel>,
    pub ctx: int,
}

impl RleModel {
    /// All classes are valid, and the current one is one of them.
    pub open spec fn valid(self) -> bool {
        &&& self.contexts.len() == 3
        &&& self.contexts[0].valid()
        &&& self.contexts[1].valid()
        &&& self.contexts[2].valid()
        &&& 0 <= self.ctx < 3
    }

    /// Nothing was seen.
    pub open spec fn fresh() -> RleModel {
        RleModel {
            contexts: seq![ContextModel::fresh(), ContextModel::fresh(), ContextModel::fresh()],
            ctx: CTX_START as int,
        }
    }

    /// The state after `byte` was seen: its context class counts it, and the class of the
    /// byte is the next one.
    pub open spec fn counted(self, byte: u8) -> RleModel {
        RleModel {
            contexts: self.contexts.update(self.ctx, self.contexts[self.ctx].counted(byte)),
            ctx: class_of(byte),
        }
    }

    /// The saved form: a version byte, the words of the classes, the current class.
    pub open spec fn saved(self) -> Seq<u8> {
        seq![1u8] + words_bytes(self.contexts[0].words()) + words_bytes(self.contexts[1].words())
            + words_bytes(self.contexts[2].words()) + seq![self.ctx as u8]
    }

    /// What loading a state gives: a state where the version, the size and all counts are
    /// right. A current class that does not exist is taken for the first.
    pub open spec fn loaded(data: Seq<u8>) -> Option<RleModel> {
        let m = RleModel::found_in(data);
        if data.len() == STATE_SIZE && data[0] == 1 && m.valid() {
            Some(m)
        } else {
            None
        }
    }

    /// The state that the words in `data` describe.
    pub open spec fn found_in(data: Seq<u8>) -> RleModel {
        RleModel {
            contexts: seq![
                ContextModel::of_words(words_in(data, 1, 259)),
                ContextModel::of_words(words_in(data, 1037, 259)),
                ContextModel::of_words(words_in(data, 2073, 259)),
            ],
            ctx: if data[3109] >= 3 {
                0
            } else {
                data[3109] as int
            },
        }
    }
}

/// The context class after a byte.
pub open spec fn class_of(byte: u8) -> int {
    if byte <= 1 {
        CTX_IN_RUN as int
    } else {
        CTX_AFTER_LIT as int
    }
}

proof fn lemma_sum_bound(s: Seq<u32>, n: nat)
    requires
        n <= s.len(),
        forall|i: int| 0 <= i < s.len() ==> #[trigger] s[i] <= MAX_COUNT,
    ensures
        sum_of(s, n) <= n * 1_000_000,
    decreases n,
{
    if n > 0 {
        lemma_sum_bound(s, (n - 1) as nat);
    }
}

proof fn lemma_zero_sum(s: Seq<u32>, n: nat)
    requires
        n <= s.len(),
        forall|i: int| 0 <= i < s.len() ==> #[trigger] s[i] == 0,
    ensures
        sum_of(s, n) == 0,
    decreases n,
{
    if n > 0 {
        lemma_zero_sum(s, (n - 1) as nat);
    }
}

impl RleContext {
    fn new() -> (c: RleContext)
        ensures
            c@ == ContextModel::fresh(),
            c@.valid(),
    {
        let lit_counts: [u32; 254] = [0;254];
        proof {
            assert(lit_counts@ =~= Seq::new(254, |i: int| 0u32));
            lemma_zero_sum(lit_counts@, 254);
        }
        RleContext {
            run_vs_lit: BinaryModel::new(),
            runa_vs_runb: BinaryModel::new(),
            lit_counts,
            lit_total: 0,
        }
    }

    /// Counts a literal.
    fn count_literal(&mut self, index: usize)
        requires
            index < 254,
            old(self)@.valid(),
        ensures
            final(self).run_vs_lit == old(self).run_vs_lit,
            final(self).runa_vs_runb == old(self).runa_vs_runb,
            ({
                let more = old(self).lit_counts@.update(
                    index as int,
                    (old(self).lit_counts@[index as int] + 1) as u32,
                );
                let counts = if old(self).lit_total + 1 > RESCALE_LIMIT {
                    more.map_values(|c: u32| c / 2)
                } else {
                    more
                };
                final(self).lit_counts@ == counts && final(self).lit_total == sum_of(counts, 254)
            }),
            final(self)@.valid(),
    {
        let mut counts = self.lit_counts;
        let ghost start = counts@;
        proof {
            lemma_sum_bound(start, 254);
        }
        let count: u32 = counts[index] + 1;
        counts[index] = count;
        let ghost more = counts@;
        let mut total: u32 = self.lit_total + 1;
        proof {
            lemma_sum_update(start, index as int, count, 254);
            assert(more =~= start.update(index as int, count));
        }
        if total > RESCALE_LIMIT {
            total = 0;
            let mut i: usize = 0;
            while i < 254
                invariant
                    i <= 254,
                    counts@.len() == 254,
                    more.len() == 254,
                    forall|k: int| 0 <= k < 254 ==> #[trigger] more[k] <= MAX_COUNT + 1,
                    forall|k: int| 0 <= k < i ==> #[trigger] counts@[k] == more[k] / 2,
                    forall|k: int| i <= k < 254 ==> #[trigger] counts@[k] == more[k],
                    total == sum_of(more.map_values(|c: u32| c / 2), i as nat),
                    total <= i * 500_000,
                decreases 254 - i,
            {
                let half: u32 = counts[i] / 2;
                counts[i] = half;
                total = total + half;
                i = i + 1;
            }
            assert(counts@ =~= more.map_values(|c: u32| c / 2));
        } else {
            proof {
                assert forall|k: int| 0 <= k < 254 implies #[trigger] counts@[k] <= MAX_COUNT by {
                    lemma_count_in_sum(counts@, k, 254);
                }
            }
        }
        self.lit_counts = counts;
        self.lit_total = total;
    }

    fn update(&mut self, byte: u8)
        requires
            old(self)@.valid(),
        ensures
            final(self)@ == old(self)@.counted(byte),
            final(self)@.valid(),
    {
        if byte <= 1 {
            self.run_vs_lit.update(true);
            self.runa_vs_runb.update(byte == 0);
        } else {
            self.run_vs_lit.update(false);
            self.count_literal(byte as usize - 2);
        }
    }

    fn push_state(&self, out: &mut Vec<u8>)
        ensures
            final(out)@ == old(out)@ + words_bytes(self@.words()),
    {
        let mut words: Vec<u32> = Vec::new();
        words.push(self.run_vs_lit.count_yes);
        words.push(self.run_vs_lit.count_total);
        words.push(self.runa_vs_runb.count_yes);
        words.push(self.runa_vs_runb.count_total);
        let mut i: usize = 0;
        while i < 254
            invariant
                i <= 254,
                words@ == seq![
                    self.run_vs_lit.count_yes,
                    self.run_vs_lit.count_total,
                    self.runa_vs_runb.count_yes,
                    self.runa_vs_runb.count_total,
                ] + self.lit_counts@.take(i as int),
            decreases 254 - i,
        {
            words.push(self.lit_counts[i]);
            assert(self.lit_counts@.take(i + 1) =~= self.lit_counts@.take(i as int).push(
                self.lit_counts@[i as int],
            ));
            i = i + 1;
        }
        words.push(self.lit_total);
        assert(words@ =~= self@.words());
        push_words(out, words.as_slice());
    }

    /// The class that was saved as the given words, where its counts are right.
    fn from_words(words: &[u32]) -> (r: Option<RleContext>)
        requires
            words@.len() == 259,
        ensures
            match r {
                Some(c) => c@ == ContextModel::of_words(words@) && c@.valid(),
                None => !ContextModel::of_words(words@).valid(),
            },
    {
        let ghost m = ContextModel::of_words(words@);
        let run_vs_lit = BinaryModel { count_yes: words[0], count_total: words[1] };
        let runa_vs_runb = BinaryModel { count_yes: words[2], count_total: words[3] };
        if words[0] > words[1] || words[1] > MAX_COUNT {
            return None;
        }
        if words[2] > words[3] || words[3] > MAX_COUNT {
            return None;
        }
        let mut lit_counts: [u32; 254] = [0;254];
        let mut total: u32 = 0;
        let mut i: usize = 0;
        while i < 254
            invariant
                i <= 254,
                words@.len() == 259,
                m == ContextModel::of_words(words@),
                lit_counts@.len() == 254,
                forall|k: int|
                    0 <= k < i ==> #[trigger] lit_counts@[k] == m.lit_counts[k] && lit_counts@[k]
                        <= MAX_COUNT,
                total == sum_of(m.lit_counts, i as nat),
                total <= i * 1_000_000,
            decreases 254 - i,
        {
            let c: u32 = words[4 + i];
            assert(c == m.lit_counts[i as int]);
            if c > MAX_COUNT {
                return None;
            }
            lit_counts[i] = c;
            total = total + c;
            i = i + 1;
        }
        assert(lit_counts@ =~= m.lit_counts);
        if total != words[258] {
            return None;
        }
        Some(RleContext { run_vs_lit, runa_vs_runb, lit_counts, lit_total: total })
    }
}

/// Counts for the prediction of BWT+MTF+RLE encoded streams.
pub struct RlePredictor {
    contexts: [RleContext; 3],
    ctx: usize,
}

impl View for RlePredictor {
    type V = RleModel;

    closed spec fn view(&self) -> RleModel {
        RleModel {
            contexts: seq![self.contexts@[0]@, self.contexts@[1]@, self.contexts@[2]@],
            ctx: self.ctx as int,
        }
    }
}

impl RlePredictor {
    #[verifier::type_invariant]
    spec fn valid(&self) -> bool {
        self@.valid()
    }

    /// A predictor that has seen nothing.
    pub fn new() -> (p: RlePredictor)
        ensures
            p@ == RleModel::fresh(),
            p@.valid(),
    {
        let contexts: [RleContext; 3] = [RleContext::new(), RleContext::new(), RleContext::new()];
        RlePredictor { contexts, ctx: CTX_START }
    }

    /// The counts of the current context class, which the next prediction rests on.
    pub fn current(&self) -> (c: RleContext)
        ensures
            c@ == self@.contexts[self@.ctx],
            c@.valid(),
    {
        proof {
            use_type_invariant(self);
        }
        if self.ctx == 0 {
            self.contexts[0]
        } else if self.ctx == 1 {
            self.contexts[1]
        } else {
            self.contexts[2]
        }
    }

    /// The context class after a byte.
    pub fn context_of(byte: u8) -> (ctx: usize)
        ensures
            ctx == class_of(byte),
    {
        if byte <= 1 {
            CTX_IN_RUN
        } else {
            CTX_AFTER_LIT
        }
    }

    /// Feeds a byte to the predictor.
    pub fn update(&mut self, byte: u8)
        ensures
            final(self)@ == old(self)@.counted(byte),
            final(self)@.valid(),
    {
        proof {
            use_type_invariant(&*self);
        }
        let ghost start = self@;
        let c: usize = self.ctx;
        let mut contexts = self.contexts;
        let mut context = contexts[c];
        context.update(byte);
        contexts[c] = context;
        *self = RlePredictor { contexts, ctx: RlePredictor::context_of(byte) };
        assert(self@.contexts =~= start.contexts.update(
            start.ctx,
            start.contexts[start.ctx].counted(byte),
        ));
    }

    /// Forgets everything seen.
    pub fn reset(&mut self)
        ensures
            final(self)@ == RleModel::fresh(),
            final(self)@.valid(),
    {
        *self = RlePredictor::new();
    }

    /// Human-readable name.
    pub fn name(&self) -> (s: &str)
        ensures
            s@ == "rle-ctx"@,
    {
        "rle-ctx"
    }

    /// Identifier stored in the archive header.
    pub fn predictor_id(&self) -> (id: PredictorId)
        ensures
            id == PredictorId::Rle,
    {
        PredictorId::Rle
    }

    /// The saved form of the counts.
    pub fn save_state(&self) -> (r: Option<Vec<u8>>)
        ensures
            r matches Some(v) && v@ == self@.saved(),
            self@.valid(),
    {
        proof {
            use_type_invariant(self);
        }
        let mut out: Vec<u8> = Vec::new();
        out.push(1);
        self.contexts[0].push_state(&mut out);
        self.contexts[1].push_state(&mut out);
        self.contexts[2].push_state(&mut out);
        out.push(self.ctx as u8);
        assert(out@ =~= self@.saved());
        Some(out)
    }

    /// Loads a saved state; refuses, changing nothing, what is not one.
    pub fn load_state(&mut self, data: &[u8]) -> (r: bool)
        ensures
            match RleModel::loaded(data@) {
                Some(m) => r && final(self)@ == m,
                None => !r && final(self)@ == old(self)@,
            },
    {
        if data.len() != STATE_SIZE {
            return false;
        }
        if data[0] != 1 {
            return false;
        }
        let first = match RleContext::from_words(read_words(data, 1, 259).as_slice()) {
            Some(c) => c,
            None => {
                return false;
            },
        };
        let second = match RleContext::from_words(read_words(data, 1037, 259).as_slice()) {
            Some(c) => c,
            None => {
                return false;
            },
        };
        let third = match RleContext::from_words(read_words(data, 2073, 259).as_slice()) {
            Some(c) => c,
            None => {
                return false;
            },
        };
        let ctx: usize = if data[3109] >= 3 {
            0
        } else {
            data[3109] as usize
        };
        let contexts: [RleContext; 3] = [first, second, third];
        proof {
            let m = RleModel::found_in(data@);
            assert(seq![contexts@[0]@, contexts@[1]@, contexts@[2]@] =~= m.contexts);
        }
        *self = RlePredictor { contexts, ctx };
        true
    }
}

impl Default for RlePredictor {
    fn default() -> (d: RlePredictor)
        ensures
            d@ == RleModel::fresh(),
    {
        RlePredictor::new()
    }
}

/// A saved state loads, into any predictor, as the state that was saved.
pub proof fn rle_state_round_trips(m: RleModel)
    requires
        m.valid(),
    ensures
        RleModel::loaded(m.saved()) == Some(m),
{
    let a = m.contexts[0].words();
    let b = m.contexts[1].words();
    let c = m.contexts[2].words();
    let x = words_bytes(a);
    let y = words_bytes(b);
    let z = words_bytes(c);
    let end = seq![m.ctx as u8];
    let data = m.saved();
    lemma_words_round_trip(a, seq![1u8], y + z + end);
    lemma_words_round_trip(b, seq![1u8] + x, z + end);
    lemma_words_round_trip(c, seq![1u8] + x + y, end);
    assert(seq![1u8] + x + (y + z + end) =~= data);
    assert((seq![1u8] + x) + y + (z + end) =~= data);
    assert((seq![1u8] + x + y) + z + end =~= data);
    assert(a.subrange(4, 258) =~= m.contexts[0].lit_counts);
    assert(b.subrange(4, 258) =~= m.contexts[1].lit_counts);
    assert(c.subrange(4, 258) =~= m.contexts[2].lit_counts);
    assert(RleModel::found_in(data).contexts =~= m.contexts);
}

/// A state that loads, and whose current class exists, is what saving gives afterwards.
pub proof fn rle_state_is_saved_as_loaded(data: Seq<u8>)
    requires
        RleModel::loaded(data) is Some,
        data[3109] < 3,
    ensures
        RleModel::loaded(data).unwrap().saved() == data,
{
    let m = RleModel::loaded(data).unwrap();
    let a = words_in(data, 1, 259);
    let b = words_in(data, 1037, 259);
    let c = words_in(data, 2073, 259);
    assert(m.contexts[0].words() =~= a);
    assert(m.contexts[1].words() =~= b);
    assert(m.contexts[2].words() =~= c);
    lemma_words_bytes_in(data, 1, 259);
    lemma_words_bytes_in(data, 1037, 259);
    lemma_words_bytes_in(data, 2073, 259);
    assert(m.saved() =~= data);
}

/// A decision is counted once, as a yes or not; beyond half a million both counts are
/// halved.
pub proof fn decisions_are_counted(m: BinaryModel, is_yes: bool)
    requires
        m.valid(),
    ensures
        ({
            let yes = if is_yes {
                m.count_yes + 1
            } else {
                m.count_yes as int
            };
            if m.count_total < 500_000 {
                m.counted(is_yes).count_yes == yes && m.counted(is_yes).count_total == m.count_total
                    + 1
            } else {
                m.counted(is_yes).count_yes == yes / 2 && m.counted(is_yes).count_total == (
                m.count_total + 1) / 2
            }
        }),
{
}

/// What a byte changes in the class it is seen in: whether it is a run digit is counted, then
/// which digit, or which literal; nothing else. Literals beyond half a million are halved.
pub proof fn class_counts_what_came(c: ContextModel, byte: u8, i: int)
    requires
        c.valid(),
        0 <= i < 254,
    ensures
        c.counted(byte).run_vs_lit == c.run_vs_lit.counted(byte < 2),
        byte < 2 ==> c.counted(byte).runa_vs_runb == c.runa_vs_runb.counted(byte == 0) && c.counted(
            byte,
        ).lit_counts[i] == c.lit_counts[i] && c.counted(byte).lit_total == c.lit_total,
        byte >= 2 ==> c.counted(byte).runa_vs_runb == c.runa_vs_runb,
        byte >= 2 && c.lit_total < 500_000 ==> c.counted(byte).lit_total == c.lit_total + 1
            && c.counted(byte).lit_counts[i] == c.lit_counts[i] + if i == byte - 2 {
            1int
        } else {
            0int
        },
        byte >= 2 && c.lit_total >= 500_000 ==> c.counted(byte).lit_counts[i] == (c.lit_counts[i]
            + if i == byte - 2 {
            1int
        } else {
            0int
        }) / 2,
{
    if byte >= 2 {
        assert(c.lit_counts[byte - 2] <= MAX_COUNT);
        lemma_sum_update(c.lit_counts, byte - 2, (c.lit_counts[byte - 2] + 1) as u32, 254);
        lemma_sum_bound(c.lit_counts, 254);
    }
}

/// A byte is seen in the current class alone; the next class is that after a digit or after a
/// literal.
pub proof fn classes_follow_the_bytes(m: RleModel, byte: u8, k: int)
    requires
        m.valid(),
        0 <= k < 3,
    ensures
        m.counted(byte).contexts.len() == 3,
        k == m.ctx ==> m.counted(byte).contexts[k] == m.contexts[k].counted(byte),
        k != m.ctx ==> m.counted(byte).contexts[k] == m.contexts[k],
        byte < 2 ==> m.counted(byte).ctx == 1,
        byte >= 2 ==> m.counted(byte).ctx == 2,
        RleModel::fresh().ctx == 0,
{
}

/// Where the counts stand in a saved state: the version 1, then 259 words for each class: the
/// two decisions as yes and total, the literals, their total. The current class is the last
/// byte.
pub proof fn rle_state_layout(m: RleModel, k: int, i: int)
    requires
        m.valid(),
        0 <= k < 3,
        0 <= i < 254,
    ensures
        ({
            let s = m.saved();
            let at = 1 + 1036 * k;
            let c = m.contexts[k];
            &&& s.len() == 3110
            &&& s[0] == 1
            &&& s[3109] == m.ctx
            &&& super::words::word_at(s, at, 0) == c.run_vs_lit.count_yes
            &&& super::words::word_at(s, at, 1) == c.run_vs_lit.count_total
            &&& super::words::word_at(s, at, 2) == c.runa_vs_runb.count_yes
            &&& super::words::word_at(s, at, 3) == c.runa_vs_runb.count_total
            &&& super::words::word_at(s, at, 4 + i) == c.lit_counts[i]
            &&& super::words::word_at(s, at, 258) == c.lit_total
        }),
{
    let a = m.contexts[0].words();
    let b = m.contexts[1].words();
    let c = m.contexts[2].words();
    let x = words_bytes(a);
    let y = words_bytes(b);
    let z = words_bytes(c);
    let end = seq![m.ctx as u8];
    let data = m.saved();
    lemma_words_round_trip(a, seq![1u8], y + z + end);
    lemma_words_round_trip(b, seq![1u8] + x, z + end);
    lemma_words_round_trip(c, seq![1u8] + x + y, end);
    assert(seq![1u8] + x + (y + z + end) =~= data);
    assert((seq![1u8] + x) + y + (z + end) =~= data);
    assert((seq![1u8] + x + y) + z + end =~= data);
    let words = m.contexts[k].words();
    let found = words_in(data, 1 + 1036 * k, 259);
    assert(found == words);
    assert(found[0] == words[0] && found[1] == words[1] && found[2] == words[2] && found[3]
        == words[3] && found[4 + i] == words[4 + i] && found[258] == words[258]);
}

/// What [`RlePredictor::update`] and [`RlePredictor::current`] do: the class that predicts a
/// byte counts it, and the next class is the one after a digit or after a literal.
pub proof fn updates_count_in_the_current_class(
    p: &mut RlePredictor,
    byte: u8,
    before: RleContext,
    i: int,
)
    requires
        call_ensures(RlePredictor::update, (p, byte), ()),
        call_ensures(RlePredictor::current, (old(p),), before),
        old(p)@.valid(),
        0 <= i < 254,
    ensures
        ({
            let after = final(p)@.contexts[old(p)@.ctx];
            &&& before@ == old(p)@.contexts[old(p)@.ctx]
            &&& byte >= 2 && before.lit_total < 500_000 ==> after.lit_counts[i]
                == before.lit_counts@[i] + if i == byte - 2 {
                1int
            } else {
                0
            }
            &&& byte < 2 ==> after.lit_counts[i] == before.lit_counts@[i]
            &&& before.run_vs_lit.count_total < 500_000 ==> after.run_vs_lit.count_total
                == before.run_vs_lit.count_total + 1 && after.run_vs_lit.count_yes
                == before.run_vs_lit.count_yes + if byte < 2 {
                1int
            } else {
                0
            }
            &&& byte < 2 && before.runa_vs_runb.count_total < 500_000
                ==> after.runa_vs_runb.count_total == before.runa_vs_runb.count_total + 1
                && after.runa_vs_runb.count_yes == before.runa_vs_runb.count_yes + if byte == 0 {
                1int
            } else {
                0
            }
            &&& final(p)@.ctx == if byte < 2 {
                1int
            } else {
                2
            }
        }),
{
    let c = old(p)@.contexts[old(p)@.ctx];
    class_counts_what_came(c, byte, i);
    classes_follow_the_bytes(old(p)@, byte, old(p)@.ctx);
    decisions_are_counted(c.run_vs_lit, byte < 2);
    decisions_are_counted(c.runa_vs_runb, byte == 0);
}

/// What [`RlePredictor::save_state`] and [`RlePredictor::load_state`] do, one after the other.
pub proof fn rle_states_are_loaded(
    p: RlePredictor,
    state: Option<Vec<u8>>,
    given: &[u8],
    other: &mut RlePredictor,
    r: bool,
)
    requires
        call_ensures(RlePredictor::save_state, (&p,), state),
        state is Some ==> given@ == state->0@,
        call_ensures(RlePredictor::load_state, (other, given), r),
    ensures
        state is Some,
        r && final(other)@ == p@,
{
    rle_state_round_trips(p@);
}

/// A state that loads was checked: the version, the length, every count at most a million, no
/// more yes than in total, and the total of literals that of their counts.
pub proof fn accepted_classes_are_checked(data: Seq<u8>, k: int, i: int)
    requires
        RleModel::loaded(data) is Some,
        0 <= k < 3,
        0 <= i < 254,
    ensures
        data.len() == 3110,
        data[0] == 1,
        ({
            let c = RleModel::loaded(data)->0.contexts[k];
            let at = 1 + 1036 * k;
            &&& c.run_vs_lit.count_yes == super::words::word_at(data, at, 0)
            &&& c.run_vs_lit.count_yes <= c.run_vs_lit.count_total <= 1_000_000
            &&& c.runa_vs_runb.count_yes <= c.runa_vs_runb.count_total <= 1_000_000
            &&& c.lit_counts[i] == super::words::word_at(data, at, 4 + i) <= 1_000_000
            &&& c.lit_total == sum_of(c.lit_counts, 254)
        }),
{
}

/// What a reset leaves, and what the predictor calls itself.
pub proof fn rle_resets_forget(p: &mut RlePredictor, q: RlePredictor, id: PredictorId, k: int, i: int)
    requires
        call_ensures(RlePredictor::reset, (p,), ()),
        call_ensures(RlePredictor::predictor_id, (&q,), id),
        0 <= k < 3,
        0 <= i < 254,
    ensures
        final(p)@.contexts[k].lit_counts[i] == 0,
        final(p)@.contexts[k].lit_total == 0,
        final(p)@.contexts[k].run_vs_lit.count_total == 0,
        final(p)@.contexts[k].runa_vs_runb.count_total == 0,
        final(p)@.ctx == 0,
        id == PredictorId::Rle,
{
}

/// What [`RlePredictor::save_state`] gives is the saved form of the counts.
pub proof fn rle_states_are_saved(p: RlePredictor, state: Option<Vec<u8>>, k: int, i: int)
    requires
        call_ensures(RlePredictor::save_state, (&p,), state),
        0 <= k < 3,
        0 <= i < 254,
    ensures
        state is Some,
        state->0@.len() == 3110 && state->0@[0] == 1 && state->0@[3109] == p@.ctx,
        super::words::word_at(state->0@, 1 + 1036 * k, 4 + i) == p@.contexts[k].lit_counts[i],
        super::words::word_at(state->0@, 1 + 1036 * k, 1)
            == p@.contexts[k].run_vs_lit.count_total,
{
    rle_state_layout(p@, k, i);
}

} // verus!

//! State of the neural predictor: a state space model beside the run-length predictor.
//!
//! The predictor keeps a hidden vector, two logistic classifiers and a mixer, all in
//! floating-point numbers, and counts of literals by the two values before them. The
//! numbers are computed outside; here they are carried as their bit patterns. What is done
//! here is everything else: the bounds of the configuration and of loaded states, the
//! counts, the saved form, and the frequency table made of scaled weights.

use super::bits::{
    clamp_bits, clamped, finite, is_finite, magnitude, rank, rank_of, ONE, THOUSAND, ZERO,
};
use super::rle_predictor::{RleModel, RlePredictor, STATE_SIZE as RLE_STATE_SIZE};
use super::words::{
    lemma_words_bytes_in, lemma_words_round_trip, push_word, push_words, read_word, read_words,
    word_at, words_bytes, words_in,
};
use crate::bytes::{copy_of, le_bytes, push_all};
use crate::coding::cdf::{lemma_count_in_sum, lemma_sum_update, sum_of};
use crate::coding::rans::{valid_cdf, PROB_TOTAL};
use crate::format::PredictorId;
use vstd::prelude::*;
use vstd::slice::slice_subrange;
use vstd::string::*;

verus! {

// Configuration.

/// Maximum hidden state dimension.
pub const D_MAX: usize = 32;

/// Default learning rate: 0.01.
pub const DEFAULT_LR: u32 = 0x3C23_D70A;

/// Default decay of performance tracking: 0.995.
pub const DEFAULT_MIX_DECAY: u32 = 0x3F7E_B852;

/// Default sensitivity of the mixing weight: 100.0.
pub const DEFAULT_MIX_SENSITIVITY: u32 = 0x42C8_0000;

/// Default maximum mixing weight: 0.9.
pub const DEFAULT_MAX_ALPHA: u32 = 0x3F66_6666;

/// Default lowest decay rate: 0.5.
pub const DEFAULT_DECAY_LO: u32 = 0x3F00_0000;

/// Default highest decay rate: 0.999.
pub const DEFAULT_DECAY_HI: u32 = 0x3F7F_BE77;

/// Default blend weight of the literal counts: 0.3.
pub const DEFAULT_O2_LIT_BLEND: u32 = 0x3E99_999A;

/// Hyperparameters; floating-point ones as their bit patterns.
#[derive(Clone, Copy, Debug, PartialEq, Eq, Structural)]
pub struct NeuralSsmConfig {
    /// Hidden state dimension (1 to [`D_MAX`]).
    pub d: usize,
    /// Learning rate of the classifiers.
    pub lr: u32,
    /// Decay of performance tracking.
    pub mix_decay: u32,
    /// Steps before the model can contribute.
    pub warmup: u32,
    /// Sensitivity of the mixing weight to the difference in performance.
    pub mix_sensitivity: u32,
    /// Maximum mixing weight.
    pub max_alpha: u32,
    /// Lowest decay rate (shortest memory).
    pub decay_lo: u32,
    /// Highest decay rate (longest memory).
    pub decay_hi: u32,
    /// Blend weight of the literal counts.
    pub o2_lit_blend: u32,
    /// Observations before the literal counts contribute.
    pub o2_min_obs: u32,
}

impl NeuralSsmConfig {
    /// The default hyperparameters.
    pub open spec fn standard() -> NeuralSsmConfig {
        NeuralSsmConfig {
            d: 32,
            lr: DEFAULT_LR,
            mix_decay: DEFAULT_MIX_DECAY,
            warmup: 0,
            mix_sensitivity: DEFAULT_MIX_SENSITIVITY,
            max_alpha: DEFAULT_MAX_ALPHA,
            decay_lo: DEFAULT_DECAY_LO,
            decay_hi: DEFAULT_DECAY_HI,
            o2_lit_blend: DEFAULT_O2_LIT_BLEND,
            o2_min_obs: 10,
        }
    }

    /// The configuration that is used in its place: numbers that are infinite or none are
    /// replaced by the defaults, others brought within their bounds.
    pub open spec fn sanitized(self) -> NeuralSsmConfig {
        let decay_lo = if is_finite(self.decay_lo) {
            clamped(self.decay_lo, ZERO, ONE)
        } else {
            DEFAULT_DECAY_LO
        };
        NeuralSsmConfig {
            d: if self.d < 1 {
                1
            } else if self.d > D_MAX {
                D_MAX
            } else {
                self.d
            },
            lr: if is_finite(self.lr) && rank(self.lr) >= 0 {
                clamped(self.lr, self.lr, ONE)
            } else {
                DEFAULT_LR
            },
            mix_decay: if is_finite(self.mix_decay) {
                clamped(self.mix_decay, ZERO, ONE)
            } else {
                DEFAULT_MIX_DECAY
            },
            warmup: self.warmup,
            mix_sensitivity: if is_finite(self.mix_sensitivity) && rank(self.mix_sensitivity)
                >= 0 {
                clamped(self.mix_sensitivity, self.mix_sensitivity, THOUSAND)
            } else {
                DEFAULT_MIX_SENSITIVITY
            },
            max_alpha: if is_finite(self.max_alpha) {
                clamped(self.max_alpha, ZERO, ONE)
            } else {
                DEFAULT_MAX_ALPHA
            },
            decay_lo,
            decay_hi: if is_finite(self.decay_hi) {
                clamped(self.decay_hi, decay_lo, ONE)
            } else if rank(decay_lo) > rank(DEFAULT_DECAY_HI) {
                decay_lo
            } else {
                DEFAULT_DECAY_HI
            },
            o2_lit_blend: if is_finite(self.o2_lit_blend) {
                clamped(self.o2_lit_blend, ZERO, ONE)
            } else {
                DEFAULT_O2_LIT_BLEND
            },
            o2_min_obs: self.o2_min_obs,
        }
    }

    /// Brings the hyperparameters within their bounds, so that the model cannot diverge.
    fn sanitize(self) -> (c: NeuralSsmConfig)
        ensures
            c == self.sanitized(),
    {
        let d: usize = if self.d < 1 {
            1
        } else if self.d > D_MAX {
            D_MAX
        } else {
            self.d
        };
        let lr: u32 = if finite(self.lr) && rank_of(self.lr) >= 0 {
            clamp_bits(self.lr, self.lr, ONE)
        } else {
            DEFAULT_LR
        };
        let mix_decay: u32 = if finite(self.mix_decay) {
            clamp_bits(self.mix_decay, ZERO, ONE)
        } else {
            DEFAULT_MIX_DECAY
        };
        let mix_sensitivity: u32 = if finite(self.mix_sensitivity) && rank_of(
            self.mix_sensitivity,
        ) >= 0 {
            clamp_bits(self.mix_sensitivity, self.mix_sensitivity, THOUSAND)
        } else {
            DEFAULT_MIX_SENSITIVITY
        };
        let max_alpha: u32 = if finite(self.max_alpha) {
            clamp_bits(self.max_alpha, ZERO, ONE)
        } else {
            DEFAULT_MAX_ALPHA
        };
        let decay_lo: u32 = if finite(self.decay_lo) {
            clamp_bits(self.decay_lo, ZERO, ONE)
        } else {
            DEFAULT_DECAY_LO
        };
        let decay_hi: u32 = if finite(self.decay_hi) {
            clamp_bits(self.decay_hi, decay_lo, ONE)
        } else if rank_of(decay_lo) > rank_of(DEFAULT_DECAY_HI) {
            decay_lo
        } else {
            DEFAULT_DECAY_HI
        };
        let o2_lit_blend: u32 = if finite(self.o2_lit_blend) {
            clamp_bits(self.o2_lit_blend, ZERO, ONE)
        } else {
            DEFAULT_O2_LIT_BLEND
        };
        NeuralSsmConfig {
            d,
            lr,
            mix_decay,
            warmup: self.warmup,
            mix_sensitivity,
            max_alpha,
            decay_lo,
            decay_hi,
            o2_lit_blend,
            o2_min_obs: self.o2_min_obs,
        }
    }
}

impl Default for NeuralSsmConfig {
    fn default() -> (c: NeuralSsmConfig)
        ensures
            c == NeuralSsmConfig::standard(),
    {
        NeuralSsmConfig {
            d: 32,
            lr: DEFAULT_LR,
            mix_decay: DEFAULT_MIX_DECAY,
            warmup: 0,
            mix_sensitivity: DEFAULT_MIX_SENSITIVITY,
            max_alpha: DEFAULT_MAX_ALPHA,
            decay_lo: DEFAULT_DECAY_LO,
            decay_hi: DEFAULT_DECAY_HI,
            o2_lit_blend: DEFAULT_O2_LIT_BLEND,
            o2_min_obs: 10,
        }
    }
}

/// A number between 0 and 1.
pub open spec fn is_fraction(bits: u32) -> bool {
    is_finite(bits) && 0 <= rank(bits) <= rank(ONE)
}

/// Whatever the configuration, the one in use is within its bounds, and using that again
/// changes nothing. The default is within them.
pub proof fn sanitized_config_is_bounded(c: NeuralSsmConfig)
    ensures
        1 <= c.sanitized().d <= D_MAX,
        is_fraction(c.sanitized().lr),
        is_fraction(c.sanitized().mix_decay),
        is_fraction(c.sanitized().max_alpha),
        is_fraction(c.sanitized().decay_lo),
        is_fraction(c.sanitized().decay_hi),
        is_fraction(c.sanitized().o2_lit_blend),
        rank(c.sanitized().decay_lo) <= rank(c.sanitized().decay_hi),
        0 <= rank(c.sanitized().mix_sensitivity) <= rank(THOUSAND),
        c.sanitized().sanitized() == c.sanitized(),
        NeuralSsmConfig::standard().sanitized() == NeuralSsmConfig::standard(),
{
}

// Embeddings.

/// A mixing step of [`mantissa_of`].
pub open spec fn stirred(x: u32) -> u32 {
    ((x >> 16u32) ^ x).wrapping_mul(0x0045_d9f3)
}

/// The 23 bits of the pseudo-random number for a seed.
pub open spec fn mantissa_of(seed: u32) -> u32 {
    let x = stirred(stirred(seed.wrapping_add(0x9e37_79b9)));
    ((x >> 16u32) ^ x) >> 9u32
}

/// The 23 bits from which coordinate `i` of the embedding of `symbol` is made: the number
/// is these bits divided by 2 to the power of 22, minus 1.
pub fn embedding_mantissa(symbol: u8, i: u32) -> (m: u32)
    requires
        i <= 0xFFFF,
    ensures
        m == mantissa_of((symbol as u32).wrapping_mul(997).wrapping_add((i + 42) as u32)),
{
    let seed: u32 = (symbol as u32).wrapping_mul(997).wrapping_add(i + 42);
    let mut x: u32 = seed.wrapping_add(0x9e37_79b9);
    x = ((x >> 16u32) ^ x).wrapping_mul(0x0045_d9f3);
    x = ((x >> 16u32) ^ x).wrapping_mul(0x0045_d9f3);
    x = (x >> 16u32) ^ x;
    x >> 9u32
}

// Frequency table.

/// The boundary before symbol `i`, where `scaled` is the share of the mass below it: one
/// count is reserved for each symbol.
pub open spec fn boundary(scaled: u32, i: int) -> u16 {
    if i + scaled > PROB_TOTAL {
        PROB_TOTAL as u16
    } else {
        (i + scaled) as u16
    }
}

/// Shares of the mass below each symbol as a table needs them: from 0 on, never falling,
/// and leaving room for the counts that are reserved.
pub open spec fn are_shares(scaled: Seq<u32>) -> bool {
    &&& scaled.len() == 256
    &&& scaled[0] == 0
    &&& forall|i: int, j: int| 0 <= i <= j < 256 ==> scaled[i] <= scaled[j]
    &&& scaled[255] <= PROB_TOTAL - 256
}

/// The table of the given shares.
pub open spec fn reserved_table(scaled: Seq<u32>) -> Seq<u16> {
    Seq::new(
        257,
        |i: int|
            if i < 256 {
                boundary(scaled[i], i)
            } else {
                PROB_TOTAL as u16
            },
    )
}

/// The boundary before symbol `symbol_index`.
pub fn quantized_boundary(scaled: u32, symbol_index: usize) -> (b: u16)
    requires
        symbol_index <= 256,
    ensures
        b == boundary(scaled, symbol_index as int),
{
    if scaled > PROB_TOTAL - symbol_index as u32 {
        PROB_TOTAL as u16
    } else {
        (symbol_index as u32 + scaled) as u16
    }
}

/// A table of shares is well formed, and its entries are the boundaries.
pub proof fn reserved_table_is_valid(scaled: Seq<u32>)
    requires
        are_shares(scaled),
    ensures
        valid_cdf(reserved_table(scaled)),
        forall|i: int| 0 <= i < 256 ==> reserved_table(scaled)[i] == boundary(
            #[trigger] scaled[i],
            i,
        ),
{
    let t = reserved_table(scaled);
    assert forall|i: int, j: int| 0 <= i < j <= 256 implies t[i] < t[j] by {
        assert(scaled[i] <= scaled[255]);
        if j < 256 {
            assert(scaled[i] <= scaled[j]);
            assert(scaled[j] <= scaled[255]);
        }
    }
}

/// The table of the given shares, where they are such as a table needs.
pub fn reserved_cdf(scaled: &[u32; 256]) -> (r: Option<[u16; 257]>)
    ensures
        match r {
            Some(cdf) => are_shares(scaled@) && cdf@ == reserved_table(scaled@) && valid_cdf(cdf@),
            None => !are_shares(scaled@),
        },
{
    if scaled[0] != 0 || scaled[255] > PROB_TOTAL - 256 {
        return None;
    }
    let mut cdf: [u16; 257] = [PROB_TOTAL as u16;257];
    let mut i: usize = 0;
    while i < 256
        invariant
            i <= 256,
            scaled@[0] == 0,
            forall|j: int, k: int| 0 <= j <= k < i ==> scaled@[j] <= scaled@[k],
            forall|k: int| 0 <= k < i ==> cdf@[k] == boundary(scaled@[k], k),
            forall|k: int| i <= k < 257 ==> cdf@[k] == PROB_TOTAL,
        decreases 256 - i,
    {
        if i > 0 && scaled[i] < scaled[i - 1] {
            assert(scaled@[i - 1] > scaled@[i as int]);
            return None;
        }
        cdf[i] = quantized_boundary(scaled[i], i);
        i = i + 1;
    }
    proof {
        assert(cdf@ =~= reserved_table(scaled@));
        reserved_table_is_valid(scaled@);
    }
    Some(cdf)
}

/// The interval of one symbol, from the share of the mass below it and that of the mass
/// below the next symbol. The last symbol's interval ends with the table.
pub open spec fn interval_of(below: u32, through: u32, byte: u8) -> (u16, u16) {
    (
        boundary(below, byte as int),
        if byte == 255 {
            PROB_TOTAL as u16
        } else {
            boundary(through, byte + 1)
        },
    )
}

/// The interval of one symbol, for an encoder that needs no more of the table.
pub fn reserved_interval(below: u32, through: u32, byte: u8) -> (r: (u16, u16))
    ensures
        r == interval_of(below, through, byte),
{
    let lo: u16 = quantized_boundary(below, byte as usize);
    let hi: u16 = if byte == 255 {
        PROB_TOTAL as u16
    } else {
        quantized_boundary(through, byte as usize + 1)
    };
    (lo, hi)
}

/// The interval made for an encoder is that in the table made for a decoder, and it is not
/// empty. For the last symbol the share of the mass through it does not matter.
pub proof fn interval_matches_table(scaled: Seq<u32>, through: u32, byte: u8)
    requires
        are_shares(scaled),
        byte < 255 ==> through == scaled[byte + 1],
    ensures
        interval_of(scaled[byte as int], through, byte) == (
            reserved_table(scaled)[byte as int],
            reserved_table(scaled)[byte + 1],
        ),
        reserved_table(scaled)[byte as int] < reserved_table(scaled)[byte + 1],
{
    reserved_table_is_valid(scaled);
}

// Literal contexts.

/// How many contexts of literals there are.
pub const NUM_O2_CTX: usize = 64;

/// All literal counts.
pub const O2_COUNTS: usize = 16_256;

/// The counts of a context are halved when they add up to more.
pub const O2_LIMIT: u32 = 100_000;

/// The largest literal count that a loaded state may hold.
pub const MAX_O2_COUNT: u32 = 200_000;

/// The class of a value: small ones exactly, larger ones in growing groups.
pub open spec fn bucket_of(b: u8) -> int {
    if b <= 3 {
        b as int
    } else if b <= 5 {
        4
    } else if b <= 9 {
        5
    } else if b <= 19 {
        6
    } else {
        7
    }
}

/// The context of a literal by the two values before it.
pub open spec fn context_of(prev: u8, prev_prev: u8) -> int {
    bucket_of(prev) * 8 + bucket_of(prev_prev)
}

/// The class of a value.
pub fn rank_bucket(b: u8) -> (r: usize)
    ensures
        r == bucket_of(b),
        r < 8,
{
    if b <= 3 {
        b as usize
    } else if b <= 5 {
        4
    } else if b <= 9 {
        5
    } else if b <= 19 {
        6
    } else {
        7
    }
}

/// The context of a literal by the two values before it.
pub fn o2_context(prev: u8, prev_prev: u8) -> (c: usize)
    ensures
        c == context_of(prev, prev_prev),
        c < NUM_O2_CTX,
{
    rank_bucket(prev) * 8 + rank_bucket(prev_prev)
}

/// The counts of context `c`.
pub open spec fn context_counts(counts: Seq<u32>, c: int) -> Seq<u32> {
    counts.subrange(254 * c, 254 * c + 254)
}

/// Literal counts and their totals, by context.
pub open spec fn are_counts(counts: Seq<u32>, totals: Seq<u32>) -> bool {
    &&& counts.len() == O2_COUNTS
    &&& totals.len() == NUM_O2_CTX
    &&& forall|i: int| 0 <= i < O2_COUNTS ==> #[trigger] counts[i] <= MAX_O2_COUNT
    &&& forall|c: int|
        0 <= c < NUM_O2_CTX ==> #[trigger] totals[c] == sum_of(context_counts(counts, c), 254)
}

/// The counts of one context after literal `k` was seen.
pub open spec fn literal_seen(counts: Seq<u32>, k: int) -> Seq<u32> {
    let more = counts.update(k, (counts[k] + 1) as u32);
    if sum_of(more, 254) > O2_LIMIT {
        more.map_values(|c: u32| c / 2)
    } else {
        more
    }
}

/// `counts` with the counts of context `c` replaced.
pub open spec fn with_context(counts: Seq<u32>, c: int, new: Seq<u32>) -> Seq<u32> {
    counts.take(254 * c) + new + counts.skip(254 * c + 254)
}

proof fn lemma_zero_sum(s: Seq<u32>, n: nat)
    requires
        n <= s.len(),
        forall|i: int| 0 <= i < s.len() ==> #[trigger] s[i] == 0,
    ensures
        sum_of(s, n) == 0,
    decreases n,
{
    if n > 0 {
        lemma_zero_sum(s, (n - 1) as nat);
    }
}

proof fn lemma_sum_bound(s: Seq<u32>, n: nat)
    requires
        n <= s.len(),
        forall|i: int| 0 <= i < s.len() ==> #[trigger] s[i] <= MAX_O2_COUNT + 1,
    ensures
        sum_of(s, n) <= n * 200_001,
    decreases n,
{
    if n > 0 {
        lemma_sum_bound(s, (n - 1) as nat);
    }
}

/// What replacing the counts of one context leaves of the others.
proof fn lemma_with_context(counts: Seq<u32>, c: int, new: Seq<u32>, other: int)
    requires
        counts.len() == O2_COUNTS,
        0 <= c < NUM_O2_CTX,
        0 <= other < NUM_O2_CTX,
        new.len() == 254,
    ensures
        with_context(counts, c, new).len() == O2_COUNTS,
        context_counts(with_context(counts, c, new), other) == if other == c {
            new
        } else {
            context_counts(counts, other)
        },
{
    let all = with_context(counts, c, new);
    if other == c {
        assert(context_counts(all, other) =~= new);
    } else if other < c {
        assert(254 * other + 254 <= 254 * c);
        assert(context_counts(all, other) =~= context_counts(counts, other));
    } else {
        assert(254 * c + 254 <= 254 * other);
        assert(context_counts(all, other) =~= context_counts(counts, other));
    }
}

/// Counting a literal keeps counts and totals right.
proof fn lemma_counts_kept(counts: Seq<u32>, totals: Seq<u32>, c: int, new: Seq<u32>)
    requires
        are_counts(counts, totals),
        0 <= c < NUM_O2_CTX,
        new.len() == 254,
        forall|i: int| 0 <= i < 254 ==> #[trigger] new[i] <= MAX_O2_COUNT,
    ensures
        are_counts(
            with_context(counts, c, new),
            totals.update(c, sum_of(new, 254) as u32),
        ),
{
    let all = with_context(counts, c, new);
    let sums = totals.update(c, sum_of(new, 254) as u32);
    lemma_sum_bound(new, 254);
    lemma_with_context(counts, c, new, c);
    assert forall|i: int| 0 <= i < O2_COUNTS implies #[trigger] all[i] <= MAX_O2_COUNT by {
        if 254 * c <= i < 254 * c + 254 {
            assert(all[i] == new[i - 254 * c]);
        } else {
            assert(all[i] == counts[i]);
        }
    }
    assert forall|k: int| 0 <= k < NUM_O2_CTX implies #[trigger] sums[k] == sum_of(
        context_counts(all, k),
        254,
    ) by {
        lemma_with_context(counts, c, new, k);
        if k != c {
            assert(sums[k] == totals[k]);
        }
    }
}

proof fn lemma_literal_seen(counts: Seq<u32>, k: int)
    requires
        counts.len() == 254,
        0 <= k < 254,
        forall|i: int| 0 <= i < 254 ==> #[trigger] counts[i] <= MAX_O2_COUNT,
    ensures
        literal_seen(counts, k).len() == 254,
        forall|i: int| 0 <= i < 254 ==> #[trigger] literal_seen(counts, k)[i] <= MAX_O2_COUNT,
{
    let more = counts.update(k, (counts[k] + 1) as u32);
    if sum_of(more, 254) <= O2_LIMIT {
        assert forall|i: int| 0 <= i < 254 implies #[trigger] more[i] <= MAX_O2_COUNT by {
            lemma_count_in_sum(more, i, 254);
        }
    }
}

// The state.

/// The learned floating-point numbers, as their bit patterns.
pub struct SsmFloats {
    /// Hidden state, one number for each dimension.
    pub h: Vec<u32>,
    /// Weights of the classifier for run digits.
    pub w_run: Vec<u32>,
    /// Bias of the classifier for run digits.
    pub b_run: u32,
    /// Weights of the classifier for the digit 0.
    pub w_runa: Vec<u32>,
    /// Bias of the classifier for the digit 0.
    pub b_runa: u32,
    /// Performance of the model so far.
    pub ssm_perf: u32,
    /// Performance of the run-length predictor so far.
    pub rle_perf: u32,
}

/// The value of [`SsmFloats`].
pub struct FloatsModel {
    pub h: Seq<u32>,
    pub w_run: Seq<u32>,
    pub b_run: u32,
    pub w_runa: Seq<u32>,
    pub b_runa: u32,
    pub ssm_perf: u32,
    pub rle_perf: u32,
}

impl View for SsmFloats {
    type V = FloatsModel;

    open spec fn view(&self) -> FloatsModel {
        FloatsModel {
            h: self.h@,
            w_run: self.w_run@,
            b_run: self.b_run,
            w_runa: self.w_runa@,
            b_runa: self.b_runa,
            ssm_perf: self.ssm_perf,
            rle_perf: self.rle_perf,
        }
    }
}

/// The pattern of 10.0, the largest magnitude of a weight.
pub const WEIGHT_BOUND: u32 = 0x4120_0000;

/// The pattern of 5.0, the largest magnitude of a hidden number in a loaded state.
pub const HIDDEN_BOUND: u32 = 0x40A0_0000;

/// All numbers are finite, with a magnitude up to a bound.
pub open spec fn all_within(s: Seq<u32>, bound: u32) -> bool {
    forall|i: int| 0 <= i < s.len() ==> magnitude(#[trigger] s[i]) <= bound
}

/// `n` zeros.
pub open spec fn zeros(n: nat) -> Seq<u32> {
    Seq::new(n, |i: int| 0u32)
}

impl FloatsModel {
    /// There are `d` dimensions.
    pub open spec fn has_dimension(self, d: int) -> bool {
        self.h.len() == d && self.w_run.len() == d && self.w_runa.len() == d
    }

    /// All numbers are finite and within the bounds of a loaded state.
    pub open spec fn bounded(self) -> bool {
        &&& all_within(self.h, HIDDEN_BOUND)
        &&& all_within(self.w_run, WEIGHT_BOUND)
        &&& magnitude(self.b_run) <= WEIGHT_BOUND
        &&& all_within(self.w_runa, WEIGHT_BOUND)
        &&& magnitude(self.b_runa) <= WEIGHT_BOUND
        &&& is_finite(self.ssm_perf)
        &&& is_finite(self.rle_perf)
    }

    /// All numbers are 0.
    pub open spec fn fresh(d: nat) -> FloatsModel {
        FloatsModel {
            h: zeros(d),
            w_run: zeros(d),
            b_run: 0,
            w_runa: zeros(d),
            b_runa: 0,
            ssm_perf: 0,
            rle_perf: 0,
        }
    }
}

/// The value of a [`NeuralSsmPredictor`].
pub struct SsmModel {
    pub cfg: NeuralSsmConfig,
    pub rle: RleModel,
    pub floats: FloatsModel,
    pub o2_counts: Seq<u32>,
    pub o2_totals: Seq<u32>,
    pub prev_byte: u8,
    pub prev_prev_byte: u8,
    pub step: u32,
    pub baseline: Option<Seq<u8>>,
}

/// Where the words of a saved state for `d` dimensions end.
pub open spec fn words_end(d: int) -> int {
    1 + 4 * (16_325 + 3 * d)
}

impl SsmModel {
    /// The state is consistent.
    pub open spec fn valid(self) -> bool {
        &&& 1 <= self.cfg.d <= D_MAX
        &&& self.rle.valid()
        &&& self.floats.has_dimension(self.cfg.d as int)
        &&& are_counts(self.o2_counts, self.o2_totals)
        &&& self.baseline matches Some(state) ==> self.loaded(state) is Some
    }

    /// Nothing was seen.
    pub open spec fn fresh(cfg: NeuralSsmConfig) -> SsmModel {
        SsmModel {
            cfg,
            rle: RleModel::fresh(),
            floats: FloatsModel::fresh(cfg.d as nat),
            o2_counts: zeros(O2_COUNTS as nat),
            o2_totals: zeros(NUM_O2_CTX as nat),
            prev_byte: 0xFF,
            prev_prev_byte: 0xFF,
            step: 0,
            baseline: None,
        }
    }

    /// The context of the next literal.
    pub open spec fn context(self) -> int {
        context_of(self.prev_byte, self.prev_prev_byte)
    }

    /// The state after `byte` was seen and `floats` were learned from it: the run-length
    /// predictor sees it too, and a literal is counted in its context.
    pub open spec fn counted(self, byte: u8, floats: FloatsModel) -> SsmModel {
        let c = self.context();
        let new = literal_seen(context_counts(self.o2_counts, c), byte - 2);
        SsmModel {
            rle: self.rle.counted(byte),
            floats,
            o2_counts: if byte >= 2 {
                with_context(self.o2_counts, c, new)
            } else {
                self.o2_counts
            },
            o2_totals: if byte >= 2 {
                self.o2_totals.update(c, sum_of(new, 254) as u32)
            } else {
                self.o2_totals
            },
            prev_byte: byte,
            prev_prev_byte: self.prev_byte,
            step: (self.step + 1) as u32,
            ..self
        }
    }

    /// The state after a reset: that of the baseline, or a fresh one.
    pub open spec fn after_reset(self) -> SsmModel {
        match self.baseline {
            Some(state) => self.loaded(state).unwrap(),
            None => SsmModel::fresh(self.cfg),
        }
    }

    /// The words of the saved form.
    pub open spec fn words(self) -> Seq<u32> {
        seq![self.cfg.d as u32] + self.floats.h + self.floats.w_run + seq![self.floats.b_run]
            + self.floats.w_runa + seq![
            self.floats.b_runa,
            self.floats.ssm_perf,
            self.floats.rle_perf,
        ] + self.o2_counts + self.o2_totals
    }

    /// The saved form: a version byte, the words, the two values before, the step, and the
    /// state of the run-length predictor behind its length.
    pub open spec fn saved(self) -> Seq<u8> {
        seq![1u8] + words_bytes(self.words()) + seq![self.prev_byte, self.prev_prev_byte]
            + words_bytes(seq![self.step, RLE_STATE_SIZE as u32]) + self.rle.saved()
    }

    /// The numbers in the words of a saved state for `d` dimensions.
    pub open spec fn floats_in(words: Seq<u32>, d: int) -> FloatsModel {
        FloatsModel {
            h: words.subrange(1, 1 + d),
            w_run: words.subrange(1 + d, 1 + 2 * d),
            b_run: words[1 + 2 * d],
            w_runa: words.subrange(2 + 2 * d, 2 + 3 * d),
            b_runa: words[2 + 3 * d],
            ssm_perf: words[3 + 3 * d],
            rle_perf: words[4 + 3 * d],
        }
    }

    /// The state that `data` describes, where `rle` is that of the run-length predictor.
    pub open spec fn found_in(self, data: Seq<u8>, rle: RleModel) -> SsmModel {
        let d = self.cfg.d as int;
        let words = words_in(data, 1, (16_325 + 3 * d) as nat);
        let end = words_end(d);
        SsmModel {
            rle,
            floats: SsmModel::floats_in(words, d),
            o2_counts: words.subrange(5 + 3 * d, 16_261 + 3 * d),
            o2_totals: words.subrange(16_261 + 3 * d, 16_325 + 3 * d),
            prev_byte: data[end],
            prev_prev_byte: data[end + 1],
            step: word_at(data, end + 2, 0),
            ..self
        }
    }

    /// What loading `data` gives: a state where the version, the dimension and the length
    /// are right, the numbers within their bounds, and the totals those of the counts. A
    /// state without one of the run-length predictor leaves that as it is.
    pub open spec fn loaded(self, data: Seq<u8>) -> Option<SsmModel> {
        let d = self.cfg.d as int;
        let end = words_end(d);
        let rle_len = word_at(data, end + 2, 1) as int;
        let rle_state = data.subrange(end + 10, end + 10 + rle_len);
        let rle = if rle_len == 0 {
            Some(self.rle)
        } else {
            RleModel::loaded(rle_state)
        };
        if data.len() < 5 || data[0] != 1 || word_at(data, 1, 0) != d {
            None
        } else if data.len() < end + 10 || data.len() != end + 10 + rle_len || rle is None {
            None
        } else {
            let m = self.found_in(data, rle.unwrap());
            if m.floats.bounded() && are_counts(m.o2_counts, m.o2_totals) {
                Some(m)
            } else {
                None
            }
        }
    }
}

/// State of the neural predictor with its run-length predictor.
pub struct NeuralSsmPredictor {
    cfg: NeuralSsmConfig,
    rle: RlePredictor,
    floats: SsmFloats,
    o2_lit_counts: Vec<u32>,
    o2_lit_totals: Vec<u32>,
    prev_byte: u8,
    prev_prev_byte: u8,
    step: u32,
    dict_baseline: Option<Vec<u8>>,
}

impl View for NeuralSsmPredictor {
    type V = SsmModel;

    closed spec fn view(&self) -> SsmModel {
        SsmModel {
            cfg: self.cfg,
            rle: self.rle@,
            floats: self.floats@,
            o2_counts: self.o2_lit_counts@,
            o2_totals: self.o2_lit_totals@,
            prev_byte: self.prev_byte,
            prev_prev_byte: self.prev_prev_byte,
            step: self.step,
            baseline: match self.dict_baseline {
                Some(v) => Some(v@),
                None => None,
            },
        }
    }
}

fn zero_words(n: usize) -> (v: Vec<u32>)
    ensures
        v@ == zeros(n as nat),
{
    let mut v: Vec<u32> = Vec::new();
    while v.len() < n
        invariant
            v@.len() <= n,
            forall|i: int| 0 <= i < v@.len() ==> #[trigger] v@[i] == 0,
        decreases n - v@.len(),
    {
        v.push(0);
    }
    assert(v@ =~= zeros(n as nat));
    v
}

/// The words of `s` from `from` to `to`.
fn words_between(s: &[u32], from: usize, to: usize) -> (v: Vec<u32>)
    requires
        from <= to <= s@.len(),
    ensures
        v@ == s@.subrange(from as int, to as int),
{
    let mut v: Vec<u32> = Vec::new();
    let mut i: usize = from;
    while i < to
        invariant
            from <= i <= to <= s@.len(),
            v@ == s@.subrange(from as int, i as int),
        decreases to - i,
    {
        v.push(s[i]);
        assert(s@.subrange(from as int, i + 1) =~= s@.subrange(from as int, i as int).push(
            s@[i as int],
        ));
        i = i + 1;
    }
    v
}

fn within(s: &[u32], bound: u32) -> (r: bool)
    ensures
        r == all_within(s@, bound),
{
    let mut i: usize = 0;
    while i < s.len()
        invariant
            i <= s@.len(),
            forall|k: int| 0 <= k < i ==> magnitude(#[trigger] s@[k]) <= bound,
        decreases s@.len() - i,
    {
        if s[i] % 0x8000_0000 > bound {
            assert(magnitude(s@[i as int]) > bound);
            return false;
        }
        i = i + 1;
    }
    true
}

impl SsmFloats {
    fn new(d: usize) -> (f: SsmFloats)
        ensures
            f@ == FloatsModel::fresh(d as nat),
    {
        SsmFloats {
            h: zero_words(d),
            w_run: zero_words(d),
            b_run: 0,
            w_runa: zero_words(d),
            b_runa: 0,
            ssm_perf: 0,
            rle_perf: 0,
        }
    }

    fn is_bounded(&self) -> (r: bool)
        ensures
            r == self@.bounded(),
    {
        within(self.h.as_slice(), HIDDEN_BOUND) && within(self.w_run.as_slice(), WEIGHT_BOUND)
            && self.b_run % 0x8000_0000 <= WEIGHT_BOUND && within(
            self.w_runa.as_slice(),
            WEIGHT_BOUND,
        ) && self.b_runa % 0x8000_0000 <= WEIGHT_BOUND && finite(self.ssm_perf) && finite(
            self.rle_perf,
        )
    }

    /// The numbers in the words of a saved state for `d` dimensions.
    fn from_words(words: &[u32], d: usize) -> (f: SsmFloats)
        requires
            d <= D_MAX,
            words@.len() == 16_325 + 3 * d,
        ensures
            f@ == SsmModel::floats_in(words@, d as int),
    {
        SsmFloats {
            h: words_between(words, 1, 1 + d),
            w_run: words_between(words, 1 + d, 1 + 2 * d),
            b_run: words[1 + 2 * d],
            w_runa: words_between(words, 2 + 2 * d, 2 + 3 * d),
            b_runa: words[2 + 3 * d],
            ssm_perf: words[3 + 3 * d],
            rle_perf: words[4 + 3 * d],
        }
    }
}

/// Tells whether counts and totals belong to each other and are within their limits.
fn counts_match(counts: &[u32], totals: &[u32]) -> (r: bool)
    requires
        counts@.len() == O2_COUNTS,
        totals@.len() == NUM_O2_CTX,
    ensures
        r == are_counts(counts@, totals@),
{
    let mut c: usize = 0;
    while c < NUM_O2_CTX
        invariant
            c <= NUM_O2_CTX,
            counts@.len() == O2_COUNTS,
            totals@.len() == NUM_O2_CTX,
            forall|i: int| 0 <= i < 254 * c ==> #[trigger] counts@[i] <= MAX_O2_COUNT,
            forall|k: int|
                0 <= k < c ==> #[trigger] totals@[k] == sum_of(context_counts(counts@, k), 254),
        decreases NUM_O2_CTX - c,
    {
        let ghost part = context_counts(counts@, c as int);
        let mut total: u32 = 0;
        let mut i: usize = 0;
        while i < 254
            invariant
                i <= 254,
                c < NUM_O2_CTX,
                counts@.len() == O2_COUNTS,
                part == context_counts(counts@, c as int),
                forall|k: int| 0 <= k < 254 * c + i ==> #[trigger] counts@[k] <= MAX_O2_COUNT,
                total == sum_of(part, i as nat),
                total <= i * 200_000,
            decreases 254 - i,
        {
            let count: u32 = counts[254 * c + i];
            assert(count == part[i as int]);
            if count > MAX_O2_COUNT {
                return false;
            }
            total = total + count;
            i = i + 1;
        }
        if totals[c] != total {
            assert(totals@[c as int] != sum_of(context_counts(counts@, c as int), 254));
            return false;
        }
        c = c + 1;
    }
    true
}

/// Counts literal `k` in context `c`.
fn count_literal(counts: &mut Vec<u32>, totals: &mut Vec<u32>, c: usize, k: usize)
    requires
        are_counts(old(counts)@, old(totals)@),
        c < NUM_O2_CTX,
        k < 254,
    ensures
        ({
            let new = literal_seen(context_counts(old(counts)@, c as int), k as int);
            &&& final(counts)@ == with_context(old(counts)@, c as int, new)
            &&& final(totals)@ == old(totals)@.update(c as int, sum_of(new, 254) as u32)
            &&& are_counts(final(counts)@, final(totals)@)
        }),
{
    let ghost start = counts@;
    let ghost sums = totals@;
    let ghost part = context_counts(start, c as int);
    let at: usize = 254 * c;
    assert forall|i: int| 0 <= i < 254 implies #[trigger] part[i] <= MAX_O2_COUNT by {
        assert(part[i] == start[254 * c + i]);
    }
    proof {
        lemma_sum_bound(part, 254);
        lemma_literal_seen(part, k as int);
        lemma_counts_kept(start, sums, c as int, literal_seen(part, k as int));
        assert(part[k as int] == start[at + k]);
        assert(sums[c as int] == sum_of(part, 254));
    }
    let count: u32 = counts[at + k] + 1;
    counts.set(at + k, count);
    let ghost more = part.update(k as int, count);
    proof {
        lemma_sum_update(part, k as int, count, 254);
        assert(counts@ =~= with_context(start, c as int, more));
    }
    let mut total: u32 = totals[c] + 1;
    if total > O2_LIMIT {
        let ghost halves = more.map_values(|x: u32| x / 2);
        total = 0;
        let mut i: usize = 0;
        while i < 254
            invariant
                i <= 254,
                c < NUM_O2_CTX,
                at == 254 * c,
                counts@.len() == O2_COUNTS,
                start.len() == O2_COUNTS,
                more.len() == 254,
                halves == more.map_values(|x: u32| x / 2),
                forall|j: int| 0 <= j < 254 ==> #[trigger] more[j] <= MAX_O2_COUNT + 1,
                counts@ == with_context(start, c as int, halves.take(i as int) + more.skip(
                    i as int,
                )),
                total == sum_of(halves, i as nat),
                total <= i * 100_000,
            decreases 254 - i,
        {
            let ghost mixed = halves.take(i as int) + more.skip(i as int);
            assert(counts@[at + i] == mixed[i as int]);
            assert(mixed[i as int] == more[i as int]);
            let half: u32 = counts[at + i] / 2;
            counts.set(at + i, half);
            total = total + half;
            proof {
                let next = halves.take(i + 1) + more.skip(i + 1);
                assert(next =~= mixed.update(i as int, half));
                assert(counts@ =~= with_context(start, c as int, next));
            }
            i = i + 1;
        }
        assert(halves.take(254) + more.skip(254) =~= halves);
    }
    totals.set(c, total);
}

impl NeuralSsmPredictor {
    /// The state is consistent.
    pub open spec fn wf(&self) -> bool {
        self@.valid()
    }

    /// A predictor with the default configuration.
    pub fn new() -> (p: NeuralSsmPredictor)
        ensures
            p@ == SsmModel::fresh(NeuralSsmConfig::standard()),
            p.wf(),
    {
        proof {
            sanitized_config_is_bounded(NeuralSsmConfig::standard());
        }
        NeuralSsmPredictor::with_config(NeuralSsmConfig::default())
    }

    /// A predictor with the given configuration, brought within its bounds.
    pub fn with_config(cfg: NeuralSsmConfig) -> (p: NeuralSsmPredictor)
        ensures
            p@ == SsmModel::fresh(cfg.sanitized()),
            p.wf(),
    {
        let cfg = cfg.sanitize();
        let p = NeuralSsmPredictor {
            cfg,
            rle: RlePredictor::new(),
            floats: SsmFloats::new(cfg.d),
            o2_lit_counts: zero_words(O2_COUNTS),
            o2_lit_totals: zero_words(NUM_O2_CTX),
            prev_byte: 0xFF,
            prev_prev_byte: 0xFF,
            step: 0,
            dict_baseline: None,
        };
        proof {
            lemma_fresh_is_valid(cfg);
        }
        p
    }

    /// The configuration in use.
    pub fn config(&self) -> (c: NeuralSsmConfig)
        ensures
            c == self@.cfg,
    {
        self.cfg
    }

    /// The run-length predictor.
    pub fn rle(&self) -> (r: &RlePredictor)
        ensures
            r@ == self@.rle,
    {
        &self.rle
    }

    /// The learned numbers.
    pub fn floats(&self) -> (f: &SsmFloats)
        ensures
            f@ == self@.floats,
    {
        &self.floats
    }

    /// How many values were seen.
    pub fn step(&self) -> (n: u32)
        ensures
            n == self@.step,
    {
        self.step
    }

    /// The counts of literals in the current context.
    pub fn literal_counts(&self) -> (counts: &[u32])
        requires
            self.wf(),
        ensures
            counts@ == context_counts(self@.o2_counts, self@.context()),
    {
        let c: usize = o2_context(self.prev_byte, self.prev_prev_byte);
        slice_subrange(self.o2_lit_counts.as_slice(), 254 * c, 254 * c + 254)
    }

    /// The total of the counts of literals in the current context.
    pub fn literal_total(&self) -> (n: u32)
        requires
            self.wf(),
        ensures
            n == sum_of(context_counts(self@.o2_counts, self@.context()), 254),
    {
        let c: usize = o2_context(self.prev_byte, self.prev_prev_byte);
        self.o2_lit_totals[c]
    }

    /// Feeds a value to the predictor, with the numbers learned from it.
    pub fn update(&mut self, byte: u8, floats: SsmFloats)
        requires
            old(self).wf(),
            old(self)@.step < u32::MAX,
            floats@.has_dimension(old(self)@.cfg.d as int),
        ensures
            final(self)@ == old(self)@.counted(byte, floats@),
            final(self).wf(),
    {
        let ghost start = self@;
        self.floats = floats;
        self.rle.update(byte);
        if byte >= 2 {
            let c: usize = o2_context(self.prev_byte, self.prev_prev_byte);
            count_literal(&mut self.o2_lit_counts, &mut self.o2_lit_totals, c, byte as usize - 2);
        }
        self.prev_prev_byte = self.prev_byte;
        self.prev_byte = byte;
        self.step = self.step + 1;
        proof {
            lemma_baseline_kept(start, self@);
        }
    }

    /// Resets the predictor: to the baseline where one is set, else to nothing seen.
    pub fn reset(&mut self)
        requires
            old(self).wf(),
        ensures
            final(self)@ == old(self)@.after_reset(),
            final(self).wf(),
    {
        let state = match &self.dict_baseline {
            Some(v) => Some(copy_of(v.as_slice())),
            None => None,
        };
        match state {
            Some(v) => {
                let _ = self.load_state(v.as_slice());
            },
            None => {
                self.rle.reset();
                self.floats = SsmFloats::new(self.cfg.d);
                self.o2_lit_counts = zero_words(O2_COUNTS);
                self.o2_lit_totals = zero_words(NUM_O2_CTX);
                self.prev_byte = 0xFF;
                self.prev_prev_byte = 0xFF;
                self.step = 0;
                proof {
                    lemma_fresh_is_valid(self.cfg);
                }
            },
        }
    }

    /// Sets a saved state as the one that resets lead to, and loads it. Refuses, changing
    /// nothing, what is not such a state.
    pub fn set_dict_baseline(&mut self, state: &[u8]) -> (r: bool)
        requires
            old(self).wf(),
        ensures
            match old(self)@.loaded(state@) {
                Some(m) => r && final(self)@ == (SsmModel { baseline: Some(state@), ..m }),
                None => !r && final(self)@ == old(self)@,
            },
            final(self).wf(),
    {
        let ghost start = self@;
        if !self.load_state(state) {
            return false;
        }
        self.dict_baseline = Some(copy_of(state));
        proof {
            lemma_baseline_set(start, self@, state@);
        }
        true
    }

    /// Sets a saved state as the one that resets lead to, as
    /// [`set_dict_baseline`](Self::set_dict_baseline) does.
    pub fn set_coding_baseline(&mut self, state: &[u8]) -> (r: bool)
        requires
            old(self).wf(),
        ensures
            match old(self)@.loaded(state@) {
                Some(m) => r && final(self)@ == (SsmModel { baseline: Some(state@), ..m }),
                None => !r && final(self)@ == old(self)@,
            },
            final(self).wf(),
    {
        self.set_dict_baseline(state)
    }

    /// The saved state that resets lead to, where one is set.
    pub fn coding_baseline(&self) -> (r: Option<&[u8]>)
        ensures
            match (r, self@.baseline) {
                (Some(v), Some(s)) => v@ == s,
                (None, None) => true,
                _ => false,
            },
    {
        match &self.dict_baseline {
            Some(v) => Some(v.as_slice()),
            None => None,
        }
    }

    /// Human-readable name.
    pub fn name(&self) -> (s: &str)
        ensures
            s@ == "neural-ssm"@,
    {
        "neural-ssm"
    }

    /// Identifier stored in the archive header.
    pub fn predictor_id(&self) -> (id: PredictorId)
        ensures
            id == PredictorId::NeuralSsm,
    {
        PredictorId::NeuralSsm
    }

    /// The saved form of the state.
    pub fn save_state(&self) -> (r: Option<Vec<u8>>)
        requires
            self.wf(),
        ensures
            r matches Some(v) && v@ == self@.saved(),
    {
        let mut words: Vec<u32> = Vec::new();
        words.push(self.cfg.d as u32);
        append_words(&mut words, self.floats.h.as_slice());
        append_words(&mut words, self.floats.w_run.as_slice());
        words.push(self.floats.b_run);
        append_words(&mut words, self.floats.w_runa.as_slice());
        words.push(self.floats.b_runa);
        words.push(self.floats.ssm_perf);
        words.push(self.floats.rle_perf);
        append_words(&mut words, self.o2_lit_counts.as_slice());
        append_words(&mut words, self.o2_lit_totals.as_slice());
        assert(words@ =~= self@.words());
        let mut out: Vec<u8> = Vec::new();
        out.push(1);
        push_words(&mut out, words.as_slice());
        out.push(self.prev_byte);
        out.push(self.prev_prev_byte);
        let rle_state = match self.rle.save_state() {
            Some(v) => v,
            None => Vec::new(),
        };
        proof {
            lemma_rle_size(self.rle@);
        }
        let ghost before = out@;
        push_word(&mut out, self.step);
        push_word(&mut out, rle_state.len() as u32);
        proof {
            lemma_two_words(self.step, RLE_STATE_SIZE as u32);
            assert(out@ =~= before + words_bytes(seq![self.step, RLE_STATE_SIZE as u32]));
        }
        push_all(&mut out, rle_state.as_slice());
        assert(out@ =~= self@.saved());
        Some(out)
    }

    /// Loads a saved state. Refuses, changing nothing, what is not one.
    pub fn load_state(&mut self, data: &[u8]) -> (r: bool)
        requires
            old(self).wf(),
        ensures
            match old(self)@.loaded(data@) {
                Some(m) => r && final(self)@ == m,
                None => !r && final(self)@ == old(self)@,
            },
            final(self).wf(),
    {
        let ghost start = self@;
        if data.len() < 5 || data[0] != 1 {
            return false;
        }
        let d: usize = self.cfg.d;
        if read_word(data, 1, 0) != d as u32 {
            return false;
        }
        let end: usize = 1 + 4 * (16_325 + 3 * d);
        if data.len() < end + 10 {
            return false;
        }
        let words = read_words(data, 1, 16_325 + 3 * d);
        let floats = SsmFloats::from_words(words.as_slice(), d);
        if !floats.is_bounded() {
            return false;
        }
        let counts = words_between(words.as_slice(), 5 + 3 * d, 16_261 + 3 * d);
        let totals = words_between(words.as_slice(), 16_261 + 3 * d, 16_325 + 3 * d);
        if !counts_match(counts.as_slice(), totals.as_slice()) {
            return false;
        }
        let step: u32 = read_word(data, end + 2, 0);
        let rle_len: u32 = read_word(data, end + 2, 1);
        if data.len() - (end + 10) != rle_len as usize {
            return false;
        }
        if rle_len > 0 {
            let rle_state = slice_subrange(data, end + 10, data.len());
            if !self.rle.load_state(rle_state) {
                return false;
            }
        }
        self.floats = floats;
        self.o2_lit_counts = counts;
        self.o2_lit_totals = totals;
        self.prev_byte = data[end];
        self.prev_prev_byte = data[end + 1];
        self.step = step;
        proof {
            lemma_baseline_kept(start, self@);
        }
        true
    }
}

impl Default for NeuralSsmPredictor {
    fn default() -> (d: NeuralSsmPredictor)
        ensures
            d@ == SsmModel::fresh(NeuralSsmConfig::standard()),
            d.wf(),
    {
        NeuralSsmPredictor::new()
    }
}

fn append_words(words: &mut Vec<u32>, more: &[u32])
    ensures
        final(words)@ == old(words)@ + more@,
{
    let ghost before = words@;
    let mut i: usize = 0;
    assert(words@ =~= before + more@.take(0));
    while i < more.len()
        invariant
            i <= more@.len(),
            words@ == before + more@.take(i as int),
        decreases more@.len() - i,
    {
        words.push(more[i]);
        assert(words@ =~= before + more@.take(i + 1));
        i = i + 1;
    }
    assert(more@.take(i as int) =~= more@);
}

// Laws.

proof fn lemma_fresh_is_valid(cfg: NeuralSsmConfig)
    requires
        1 <= cfg.d <= D_MAX,
    ensures
        SsmModel::fresh(cfg).valid(),
{
    let counts = zeros(O2_COUNTS as nat);
    let totals = zeros(NUM_O2_CTX as nat);
    assert forall|c: int| 0 <= c < NUM_O2_CTX implies #[trigger] totals[c] == sum_of(
        context_counts(counts, c),
        254,
    ) by {
        lemma_zero_sum(context_counts(counts, c), 254);
    }
    lemma_fresh_rle();
}

proof fn lemma_fresh_rle()
    ensures
        RleModel::fresh().valid(),
{
    let c = super::rle_predictor::ContextModel::fresh();
    lemma_zero_sum(c.lit_counts, 254);
}

/// Whether a state can be loaded depends on the configuration alone.
proof fn lemma_loadable(a: SsmModel, b: SsmModel, data: Seq<u8>)
    requires
        a.cfg == b.cfg,
    ensures
        a.loaded(data) is Some <==> b.loaded(data) is Some,
{
}

proof fn lemma_baseline_kept(a: SsmModel, b: SsmModel)
    requires
        a.valid(),
        a.cfg == b.cfg,
        a.baseline == b.baseline,
    ensures
        b.baseline matches Some(state) ==> b.loaded(state) is Some,
{
    if let Some(state) = b.baseline {
        lemma_loadable(a, b, state);
    }
}

proof fn lemma_baseline_set(a: SsmModel, b: SsmModel, state: Seq<u8>)
    requires
        a.loaded(state) is Some,
        a.cfg == b.cfg,
    ensures
        b.loaded(state) is Some,
{
    lemma_loadable(a, b, state);
}

proof fn lemma_rle_size(m: RleModel)
    requires
        m.valid(),
    ensures
        m.saved().len() == RLE_STATE_SIZE,
{
    lemma_words_round_trip(m.contexts[0].words(), Seq::empty(), Seq::empty());
    lemma_words_round_trip(m.contexts[1].words(), Seq::empty(), Seq::empty());
    lemma_words_round_trip(m.contexts[2].words(), Seq::empty(), Seq::empty());
}

proof fn lemma_two_words(a: u32, b: u32)
    ensures
        words_bytes(seq![a, b]) == le_bytes(a as nat, 4) + le_bytes(b as nat, 4),
{
    let s = seq![a, b];
    assert(s.drop_last() =~= seq![a]);
    assert(seq![a].drop_last() =~= Seq::empty());
    reveal_with_fuel(words_bytes, 3);
    assert(words_bytes(s) =~= le_bytes(a as nat, 4) + le_bytes(b as nat, 4));
}

/// A saved state loads, into any predictor with the same dimension, as what was saved:
/// only the configuration and the baseline stay those of the predictor.
#[verifier::spinoff_prover]
#[verifier::rlimit(60)]
pub proof fn ssm_state_round_trips(m: SsmModel, other: SsmModel)
    requires
        m.valid(),
        m.floats.bounded(),
        other.cfg.d == m.cfg.d,
    ensures
        other.loaded(m.saved()) == Some(SsmModel { cfg: other.cfg, baseline: other.baseline, ..m }),
{
    let d = m.cfg.d as int;
    let data = m.saved();
    let words = m.words();
    let end = words_end(d);
    let prevs = seq![m.prev_byte, m.prev_prev_byte];
    let last = seq![m.step, RLE_STATE_SIZE as u32];
    let rle = m.rle.saved();
    lemma_rle_size(m.rle);
    super::rle_predictor::rle_state_round_trips(m.rle);
    lemma_words_round_trip(words, seq![1u8], prevs + words_bytes(last) + rle);
    assert(seq![1u8] + words_bytes(words) + (prevs + words_bytes(last) + rle) =~= data);
    let before = seq![1u8] + words_bytes(words) + prevs;
    lemma_words_round_trip(last, before, rle);
    assert(before + words_bytes(last) + rle =~= data);
    assert(words.len() == 16_325 + 3 * d);
    assert(before.len() == end + 2);
    let found = words_in(data, 1, words.len());
    assert(found == words);
    assert(word_at(data, 1, 0) == found[0]);
    let two = words_in(data, end + 2, 2);
    assert(two == last);
    assert(word_at(data, end + 2, 0) == two[0]);
    assert(word_at(data, end + 2, 1) == two[1]);
    assert(data.subrange(end + 10, end + 10 + RLE_STATE_SIZE) =~= rle);
    assert(data[end] == m.prev_byte);
    assert(data[end + 1] == m.prev_prev_byte);
    assert(words.subrange(1, 1 + d) =~= m.floats.h);
    assert(words.subrange(1 + d, 1 + 2 * d) =~= m.floats.w_run);
    assert(words.subrange(2 + 2 * d, 2 + 3 * d) =~= m.floats.w_runa);
    assert(words.subrange(5 + 3 * d, 16_261 + 3 * d) =~= m.o2_counts);
    assert(words.subrange(16_261 + 3 * d, 16_325 + 3 * d) =~= m.o2_totals);
}

/// With a saved state as baseline, every reset leads to that state, whatever was seen
/// since; without one it leads to nothing seen.
pub proof fn reset_restores_baseline(m: SsmModel, trained: SsmModel)
    requires
        trained.valid(),
        trained.floats.bounded(),
        trained.cfg.d == m.cfg.d,
    ensures
        m.baseline == Some(trained.saved()) ==> m.after_reset() == (SsmModel {
            cfg: m.cfg,
            baseline: m.baseline,
            ..trained
        }),
        m.baseline is None ==> m.after_reset() == SsmModel::fresh(m.cfg),
{
    ssm_state_round_trips(trained, m);
}

/// `data` holds a state of the run-length predictor, and the current class in it, which is
/// the last byte, exists.
pub open spec fn is_complete(data: Seq<u8>, d: int) -> bool {
    &&& word_at(data, words_end(d) + 2, 1) > 0
    &&& data.last() < 3
}

/// A complete state that loads is what saving gives afterwards.
#[verifier::spinoff_prover]
#[verifier::rlimit(60)]
pub proof fn ssm_state_is_saved_as_loaded(m: SsmModel, data: Seq<u8>)
    requires
        1 <= m.cfg.d <= D_MAX,
        m.loaded(data) is Some,
        is_complete(data, m.cfg.d as int),
    ensures
        m.loaded(data).unwrap().saved() == data,
{
    let d = m.cfg.d as int;
    let end = words_end(d);
    let n = (16_325 + 3 * d) as nat;
    let found = m.loaded(data).unwrap();
    let words = words_in(data, 1, n);
    let rle_state = data.subrange(end + 10, data.len() as int);
    assert(rle_state.len() == RLE_STATE_SIZE);
    assert(rle_state[3109] == data.last());
    super::rle_predictor::rle_state_is_saved_as_loaded(rle_state);
    assert(word_at(data, 1, 0) == words[0]);
    assert(found.words() =~= words);
    lemma_words_bytes_in(data, 1, n);
    let last = words_in(data, end + 2, 2);
    assert(last[1] == word_at(data, end + 2, 1));
    assert(seq![found.step, RLE_STATE_SIZE as u32] =~= last);
    lemma_words_bytes_in(data, end + 2, 2);
    assert(found.saved() =~= data);
}

/// After a reset, saving gives the baseline, where that is a complete state.
pub proof fn saving_after_reset_gives_the_baseline(m: SsmModel, state: Seq<u8>)
    requires
        m.valid(),
        m.baseline == Some(state),
        is_complete(state, m.cfg.d as int),
    ensures
        m.after_reset().saved() == state,
{
    ssm_state_is_saved_as_loaded(m, state);
}

/// A literal is counted where predictions for it look: in the context of the two values
/// before it, its own count grows by one and no other count changes, anywhere. Where the
/// counts of the context add up to 100,000 already, all of them are halved after that.
pub proof fn literals_are_counted(m: SsmModel, byte: u8, floats: FloatsModel, i: int)
    requires
        m.valid(),
        byte >= 2,
        0 <= i < 16_256,
    ensures
        ({
            let c = context_of(m.prev_byte, m.prev_prev_byte);
            let seen = if i == 254 * c + byte - 2 {
                m.o2_counts[i] + 1
            } else {
                m.o2_counts[i] as int
            };
            &&& 0 <= c < 64
            &&& m.counted(byte, floats).o2_counts.len() == 16_256
            &&& m.counted(byte, floats).o2_counts[i] == if m.o2_totals[c] < 100_000 || i < 254 * c || i
                >= 254 * c + 254 {
                seen
            } else {
                seen / 2
            }
        }),
{
    let c = m.context();
    let old_counts = context_counts(m.o2_counts, c);
    let k = byte - 2;
    let more = old_counts.update(k, (old_counts[k] + 1) as u32);
    assert(m.o2_totals[c] == sum_of(old_counts, 254));
    assert(m.o2_counts[254 * c + k] <= MAX_O2_COUNT);
    lemma_sum_update(old_counts, k, (old_counts[k] + 1) as u32, 254);
    let new = literal_seen(old_counts, k);
    let all = with_context(m.o2_counts, c, new);
    if 254 * c <= i < 254 * c + 254 {
        assert(all[i] == new[i - 254 * c]);
        assert(old_counts[i - 254 * c] == m.o2_counts[i]);
    }
}

/// What else a byte changes: it becomes the value before, the one before becomes the one
/// before that, the steps are counted, the run-length predictor sees it, and the numbers
/// learned from it are taken over. Run digits change no literal counts, and the
/// configuration and the baseline stay.
pub proof fn bytes_move_the_state_on(m: SsmModel, byte: u8, floats: FloatsModel)
    requires
        m.step < u32::MAX,
    ensures
        m.counted(byte, floats).prev_byte == byte,
        m.counted(byte, floats).prev_prev_byte == m.prev_byte,
        m.counted(byte, floats).step == m.step + 1,
        m.counted(byte, floats).rle == m.rle.counted(byte),
        m.counted(byte, floats).floats == floats,
        m.counted(byte, floats).cfg == m.cfg,
        m.counted(byte, floats).baseline == m.baseline,
        byte < 2 ==> m.counted(byte, floats).o2_counts == m.o2_counts && m.counted(
            byte,
            floats,
        ).o2_totals == m.o2_totals,
{
}

/// Two pairs of values have the same context exactly where both values are of the same
/// class: 0, 1, 2, 3, 4 to 5, 6 to 9, 10 to 19, and 20 and above.
pub proof fn contexts_are_pairs_of_classes(a: u8, b: u8, x: u8, y: u8)
    ensures
        ({
            let alike = |p: u8, q: u8|
                p == q || (4 <= p <= 5 && 4 <= q <= 5) || (6 <= p <= 9 && 6 <= q <= 9) || (10 <= p
                    <= 19 && 10 <= q <= 19) || (p >= 20 && q >= 20);
            &&& 0 <= context_of(a, b) < 64
            &&& context_of(a, b) == context_of(x, y) <==> alike(a, x) && alike(b, y)
        }),
        a <= x ==> context_of(a, b) <= context_of(x, b),
        a <= x ==> context_of(b, a) <= context_of(b, x),
        context_of(0, 0) == 0,
        context_of(0, 1) == 1,
{
}

/// A configuration whose numbers are within their bounds is used as it is; one number out of
/// bounds changes no other but the upper decay rate, which is not below the lower one.
pub proof fn bounded_configs_are_kept(c: NeuralSsmConfig)
    ensures
        1 <= c.d <= 32 ==> c.sanitized().d == c.d,
        c.d > 32 ==> c.sanitized().d == 32,
        is_fraction(c.lr) ==> c.sanitized().lr == c.lr,
        is_fraction(c.mix_decay) ==> c.sanitized().mix_decay == c.mix_decay,
        is_fraction(c.max_alpha) ==> c.sanitized().max_alpha == c.max_alpha,
        is_fraction(c.decay_lo) ==> c.sanitized().decay_lo == c.decay_lo,
        is_fraction(c.decay_hi) && is_fraction(c.decay_lo) && rank(c.decay_lo) <= rank(c.decay_hi)
            ==> c.sanitized().decay_hi == c.decay_hi,
        is_fraction(c.o2_lit_blend) ==> c.sanitized().o2_lit_blend == c.o2_lit_blend,
        is_finite(c.mix_sensitivity) && 0 <= rank(c.mix_sensitivity) <= rank(THOUSAND)
            ==> c.sanitized().mix_sensitivity == c.mix_sensitivity,
        c.sanitized().warmup == c.warmup,
        c.sanitized().o2_min_obs == c.o2_min_obs,
{
}

/// Where the parts of a saved state stand, for `d` dimensions: the version 1, the words in
/// the order of their names, the two values before, the step, and the length of what the
/// run-length predictor saved, which follows.
#[verifier::spinoff_prover]
#[verifier::rlimit(60)]
pub proof fn ssm_state_layout(m: SsmModel, i: int)
    requires
        m.valid(),
    ensures
        ({
            let d = m.cfg.d as int;
            let s = m.saved();
            let end = 1 + 4 * (16_325 + 3 * d);
            &&& s.len() == end + 10 + 3110
            &&& s[0] == 1
            &&& word_at(s, 1, 0) == d
            &&& 0 <= i < d ==> word_at(s, 1, 1 + i) == m.floats.h[i] && word_at(s, 1, 1 + d + i)
                == m.floats.w_run[i] && word_at(s, 1, 2 + 2 * d + i) == m.floats.w_runa[i]
            &&& word_at(s, 1, 1 + 2 * d) == m.floats.b_run
            &&& word_at(s, 1, 2 + 3 * d) == m.floats.b_runa
            &&& word_at(s, 1, 3 + 3 * d) == m.floats.ssm_perf
            &&& word_at(s, 1, 4 + 3 * d) == m.floats.rle_perf
            &&& 0 <= i < 16_256 ==> word_at(s, 1, 5 + 3 * d + i) == m.o2_counts[i]
            &&& 0 <= i < 64 ==> word_at(s, 1, 16_261 + 3 * d + i) == m.o2_totals[i]
            &&& s[end] == m.prev_byte
            &&& s[end + 1] == m.prev_prev_byte
            &&& word_at(s, end + 2, 0) == m.step
            &&& word_at(s, end + 2, 1) == 3110
            &&& s.skip(end + 10) == m.rle.saved()
        }),
{
    let d = m.cfg.d as int;
    let s = m.saved();
    let words = m.words();
    let end = words_end(d);
    let prevs = seq![m.prev_byte, m.prev_prev_byte];
    let last = seq![m.step, RLE_STATE_SIZE as u32];
    let rle = m.rle.saved();
    lemma_rle_size(m.rle);
    lemma_words_round_trip(words, seq![1u8], prevs + words_bytes(last) + rle);
    assert(seq![1u8] + words_bytes(words) + (prevs + words_bytes(last) + rle) =~= s);
    let before = seq![1u8] + words_bytes(words) + prevs;
    lemma_words_round_trip(last, before, rle);
    assert(before + words_bytes(last) + rle =~= s);
    assert(words.len() == 16_325 + 3 * d);
    let found = words_in(s, 1, words.len());
    assert(found == words);
    assert forall|k: int| 0 <= k < words.len() implies #[trigger] word_at(s, 1, k) == words[k] by {
        assert(found[k] == words[k]);
    }
    assert(words.subrange(1, 1 + d) =~= m.floats.h);
    assert(words.subrange(1 + d, 1 + 2 * d) =~= m.floats.w_run);
    assert(words.subrange(2 + 2 * d, 2 + 3 * d) =~= m.floats.w_runa);
    assert(words.subrange(5 + 3 * d, 16_261 + 3 * d) =~= m.o2_counts);
    assert(words.subrange(16_261 + 3 * d, 16_325 + 3 * d) =~= m.o2_totals);
    if 0 <= i < d {
        assert(words.subrange(1, 1 + d)[i] == words[1 + i]);
        assert(words.subrange(1 + d, 1 + 2 * d)[i] == words[1 + d + i]);
        assert(words.subrange(2 + 2 * d, 2 + 3 * d)[i] == words[2 + 2 * d + i]);
    }
    if 0 <= i < 16_256 {
        assert(words.subrange(5 + 3 * d, 16_261 + 3 * d)[i] == words[5 + 3 * d + i]);
    }
    if 0 <= i < 64 {
        assert(words.subrange(16_261 + 3 * d, 16_325 + 3 * d)[i] == words[16_261 + 3 * d + i]);
    }
    assert(s[end] == m.prev_byte && s[end + 1] == m.prev_prev_byte);
    let two = words_in(s, end + 2, 2);
    assert(two == last);
    assert(two[0] == last[0] && two[1] == last[1]);
    assert(s.skip(end + 10) =~= rle);
}

/// A predictor that has seen nothing counts nothing, and has 255 as both values before.
pub proof fn fresh_states_are_empty(cfg: NeuralSsmConfig, i: int)
    ensures
        0 <= i < 16_256 ==> SsmModel::fresh(cfg).o2_counts[i] == 0,
        0 <= i < 64 ==> SsmModel::fresh(cfg).o2_totals[i] == 0,
        0 <= i < cfg.d ==> SsmModel::fresh(cfg).floats.h[i] == 0 && SsmModel::fresh(
            cfg,
        ).floats.w_run[i] == 0 && SsmModel::fresh(cfg).floats.w_runa[i] == 0,
        SsmModel::fresh(cfg).prev_byte == 255,
        SsmModel::fresh(cfg).prev_prev_byte == 255,
        SsmModel::fresh(cfg).step == 0,
        SsmModel::fresh(cfg).cfg == cfg,
        SsmModel::fresh(cfg).baseline is None,
        SsmModel::fresh(cfg).rle == RleModel::fresh(),
{
}

/// In a table of shares every symbol has one count reserved and the rest of the mass by its
/// share of it.
pub proof fn symbols_get_their_shares(scaled: Seq<u32>, i: int)
    requires
        are_shares(scaled),
        0 <= i < 256,
    ensures
        i < 255 ==> reserved_table(scaled)[i + 1] - reserved_table(scaled)[i] == 1 + scaled[i + 1]
            - scaled[i],
        reserved_table(scaled)[i] == i + scaled[i],
        reserved_table(scaled)[256] == 32_768,
        are_shares(scaled) ==> scaled[255] <= 32_512,
{
    assert(scaled[i] <= scaled[255]);
    if i < 255 {
        assert(scaled[i + 1] <= scaled[255]);
    }
}

/// The numbers of a loaded state are bounded exactly where all are finite, the hidden ones at
/// most 5 in magnitude and the weights at most 10.
pub proof fn loaded_numbers_are_bounded(f: FloatsModel)
    ensures
        f.bounded() <==> (forall|i: int|
            0 <= i < f.h.len() ==> magnitude(#[trigger] f.h[i]) <= 0x40A0_0000) && (forall|i: int|
            0 <= i < f.w_run.len() ==> magnitude(#[trigger] f.w_run[i]) <= 0x4120_0000) && (forall|
            i: int,
        |
            0 <= i < f.w_runa.len() ==> magnitude(#[trigger] f.w_runa[i]) <= 0x4120_0000)
            && magnitude(f.b_run) <= 0x4120_0000 && magnitude(f.b_runa) <= 0x4120_0000 && magnitude(
            f.ssm_perf,
        ) < 0x7F80_0000 && magnitude(f.rle_perf) < 0x7F80_0000,
{
}

/// What [`NeuralSsmPredictor::update`] does to the counts that
/// [`NeuralSsmPredictor::literal_counts`] shows: a literal counts once, for itself, in the
/// context it was predicted in, and nothing else changes; a run digit changes none.
pub proof fn updates_count_literals(
    p: &mut NeuralSsmPredictor,
    byte: u8,
    floats: SsmFloats,
    shown: &[u32],
    c: int,
    i: int,
)
    requires
        old(p).wf(),
        call_ensures(NeuralSsmPredictor::update, (p, byte, floats), ()),
        call_ensures(NeuralSsmPredictor::literal_counts, (old(p),), shown),
        0 <= c < 64,
        0 <= i < 254,
    ensures
        ({
            let here = context_of(old(p)@.prev_byte, old(p)@.prev_prev_byte);
            let before = old(p)@.o2_counts[254 * c + i] as int;
            let after = final(p)@.o2_counts[254 * c + i] as int;
            &&& shown@.len() == 254
            &&& c == here ==> shown@[i] == before
            &&& c != here || byte < 2 ==> after == before
            &&& c == here && byte >= 2 && old(p)@.o2_totals[c] < 100_000 ==> after == if i == byte
                - 2 {
                before + 1
            } else {
                before
            }
            &&& final(p)@.prev_byte == byte
            &&& final(p)@.prev_prev_byte == old(p)@.prev_byte
            &&& final(p)@.floats == floats@
            &&& final(p)@.rle == old(p)@.rle.counted(byte)
        }),
{
    let m = old(p)@;
    assert(0 <= 254 * c + i < 16_256);
    if byte >= 2 {
        literals_are_counted(m, byte, floats@, 254 * c + i);
    }
    let here = m.context();
    assert(c < here ==> 254 * c + 254 <= 254 * here);
    assert(c > here ==> 254 * here + 254 <= 254 * c);
}

/// What [`NeuralSsmPredictor::save_state`] and [`NeuralSsmPredictor::load_state`] do, one after
/// the other: a predictor of the same dimension takes over all that was saved. What is refused
/// changes nothing.
pub proof fn ssm_states_are_loaded(
    p: NeuralSsmPredictor,
    state: Option<Vec<u8>>,
    given: &[u8],
    other: &mut NeuralSsmPredictor,
    r: bool,
)
    requires
        call_ensures(NeuralSsmPredictor::load_state, (other, given), r),
    ensures
        !r ==> final(other)@ == old(other)@,
        call_ensures(NeuralSsmPredictor::save_state, (&p,), state) && state is Some && given@
            == state->0@ && p.wf() && p@.floats.bounded() && old(other)@.cfg.d == p@.cfg.d ==> r
            && final(other)@.rle == p@.rle && final(other)@.floats == p@.floats && final(
            other)@.o2_counts == p@.o2_counts && final(other)@.o2_totals == p@.o2_totals && final(
            other)@.prev_byte == p@.prev_byte && final(other)@.prev_prev_byte == p@.prev_prev_byte
            && final(other)@.step == p@.step,
        call_ensures(NeuralSsmPredictor::save_state, (&p,), state) ==> state is Some,
{
    if p.wf() && p@.floats.bounded() && old(other)@.cfg.d == p@.cfg.d {
        ssm_state_round_trips(p@, old(other)@);
    }
}

/// What [`NeuralSsmPredictor::set_dict_baseline`], [`NeuralSsmPredictor::coding_baseline`] and
/// [`NeuralSsmPredictor::reset`] do: a baseline that is accepted is kept as it was given, and a
/// reset leads to the state in it; without one a reset leads to nothing seen.
pub proof fn baselines_are_kept(
    p: &mut NeuralSsmPredictor,
    state: &[u8],
    r: bool,
    kept: Option<&[u8]>,
    later: &mut NeuralSsmPredictor,
)
    requires
        call_ensures(NeuralSsmPredictor::set_dict_baseline, (p, state), r),
        call_ensures(NeuralSsmPredictor::coding_baseline, (final(p),), kept),
        call_ensures(NeuralSsmPredictor::reset, (later,), ()),
    ensures
        r ==> kept is Some && kept->0@ == state@,
        !r ==> final(p)@ == old(p)@,
        (old(later)@.valid() && r && old(later)@.baseline == Some(state@) && old(later)@.cfg == old(
            p)@.cfg && is_complete(state@, old(later)@.cfg.d as int)) ==> final(later)@.saved()
            == state@,
        old(later)@.baseline is None ==> final(later)@.o2_counts == zeros(16_256) && final(
            later)@.rle == RleModel::fresh() && final(later)@.prev_byte == 255 && final(later)@.step
            == 0,
{
    if old(later)@.valid() && old(later)@.baseline == Some(state@) && is_complete(
        state@,
        old(later)@.cfg.d as int,
    ) {
        saving_after_reset_gives_the_baseline(old(later)@, state@);
    }
}

/// What [`reserved_cdf`] and [`reserved_interval`] give belongs together, and every symbol has
/// its share.
pub proof fn tables_and_intervals_agree(
    scaled: &[u32; 256],
    r: Option<[u16; 257]>,
    byte: u8,
    through: u32,
    interval: (u16, u16),
)
    requires
        call_ensures(reserved_cdf, (scaled,), r),
        r is Some,
        byte < 255 ==> through == scaled@[byte + 1],
        call_ensures(reserved_interval, (scaled@[byte as int], through, byte), interval),
    ensures
        interval == (r->0@[byte as int], r->0@[byte + 1]),
        r->0@[byte as int] == byte + scaled@[byte as int],
        r->0@[256] == 32_768,
{
    interval_matches_table(scaled@, through, byte);
    symbols_get_their_shares(scaled@, byte as int);
}

/// A state that loads was checked: the version, the dimension and the length are right, all
/// numbers within their bounds, no count above 200,000, and every total that of its counts.
pub proof fn accepted_states_are_checked(m: SsmModel, data: Seq<u8>, i: int, c: int)
    requires
        1 <= m.cfg.d <= 32,
        m.loaded(data) is Some,
    ensures
        ({
            let d = m.cfg.d as int;
            let end = 1 + 4 * (16_325 + 3 * d);
            let s = m.loaded(data)->0;
            &&& data[0] == 1
            &&& word_at(data, 1, 0) == d
            &&& data.len() == end + 10 + word_at(data, end + 2, 1)
            &&& s.floats.bounded()
            &&& 0 <= i < 16_256 ==> s.o2_counts[i] == word_at(data, 1, 5 + 3 * d + i) <= 200_000
            &&& 0 <= c < 64 ==> s.o2_totals[c] == sum_of(
                s.o2_counts.subrange(254 * c, 254 * c + 254),
                254,
            )
            &&& 0 <= i < d ==> s.floats.h[i] == word_at(data, 1, 1 + i)
            &&& s.prev_byte == data[end]
            &&& s.prev_prev_byte == data[end + 1]
            &&& s.step == word_at(data, end + 2, 0)
            &&& word_at(data, end + 2, 1) == 0 ==> s.rle == m.rle
            &&& word_at(data, end + 2, 1) != 0 ==> Some(s.rle) == RleModel::loaded(
                data.skip(end + 10),
            )
            &&& s.cfg == m.cfg && s.baseline == m.baseline
        }),
{
    let d = m.cfg.d as int;
    let end = words_end(d);
    let n = word_at(data, end + 2, 1) as int;
    assert(data.subrange(end + 10, end + 10 + n) =~= data.skip(end + 10));
    if 0 <= c < 64 {
        assert(m.loaded(data)->0.o2_totals[c] == sum_of(
            context_counts(m.loaded(data)->0.o2_counts, c),
            254,
        ));
    }
}

/// How the predictor starts and what it calls itself.
pub proof fn ssm_predictors_identify_themselves(
    p: NeuralSsmPredictor,
    cfg: NeuralSsmConfig,
    made: NeuralSsmPredictor,
    id: PredictorId,
)
    requires
        call_ensures(NeuralSsmPredictor::predictor_id, (&p,), id),
        call_ensures(NeuralSsmPredictor::with_config, (cfg,), made),
    ensures
        id == PredictorId::NeuralSsm,
        made@ == SsmModel::fresh(cfg.sanitized()),
{
}

/// What [`quantized_boundary`], [`rank_bucket`] and [`o2_context`] give.
pub proof fn boundaries_and_classes(
    scaled: u32,
    i: usize,
    b: u16,
    x: u8,
    y: u8,
    class: usize,
    c: usize,
)
    requires
        call_ensures(quantized_boundary, (scaled, i), b),
        i <= 256,
        call_ensures(rank_bucket, (x,), class),
        call_ensures(o2_context, (x, y), c),
    ensures
        b == if i + scaled < 32_768 {
            i + scaled
        } else {
            32_768
        },
        c / 8 == class,
        x <= 3 ==> class == x,
        4 <= x <= 5 ==> class == 4,
        6 <= x <= 9 ==> class == 5,
        10 <= x <= 19 ==> class == 6,
        x >= 20 ==> class == 7,
{
}

/// What [`NeuralSsmPredictor::save_state`] gives is the saved form of the state.
pub proof fn ssm_states_are_saved(p: NeuralSsmPredictor, state: Option<Vec<u8>>)
    requires
        call_ensures(NeuralSsmPredictor::save_state, (&p,), state),
        p.wf(),
    ensures
        state is Some,
        state->0@ == p@.saved(),
        state->0@.len() == 68_421 + 12 * (p@.cfg.d as int),
{
    ssm_state_layout(p@, 0);
}

} // verus!

use aether_core::bytes::ByteReader;
use aether_core::chunker::chunk_data;
use aether_core::coding::byteplane_preprocess::{
    byteplane_decode, byteplane_encode, byteplane_merge, byteplane_split, classify_planes,
    detect_numeric_width, is_byteplane_beneficial, plane_sample, BytePlaneWidth,
};
use aether_core::coding::cdf::{shared_cdf, strict_cdf, uniform_cdf, REMAINING_MASS};
use aether_core::coding::rans::{
    decode_block, decode_block_continuing, encode_block, encode_block_continuing, PROB_TOTAL,
};
use aether_core::dictionary::{training_chunks, Dictionary, TrainingChunk};
use aether_core::entropy::lz4_aware::{ActiveCounts, Lz4ParseState};
use aether_core::entropy::neural_ssm::{
    embedding_mantissa, reserved_cdf, reserved_interval, SsmFloats, D_MAX,
};
use aether_core::entropy::{
    ContextMixer, ContextMixerConfig, Lz4AwarePredictor, MtfPredictor, NeuralSsmConfig,
    NeuralSsmPredictor, Order0Model, ProbabilityPredictor, RlePredictor,
};
use aether_core::format::byte_counts;
use aether_core::{AetherError, PredictorId};

// Predictors: counts of the library with the floating-point arithmetic around them.

/// Quantizes a distribution into a 15-bit cumulative frequency table.
fn probs_to_cdf(probs: &[f32; 256]) -> [u16; 257] {
    let mut clamped = [0.0f64; 256];
    for (c, &p) in clamped.iter_mut().zip(probs) {
        let p = p as f64;
        *c = if p.is_finite() && p > 0.0 { p } else { 0.0 };
    }
    let sum: f64 = clamped.iter().sum();
    if sum <= 0.0 {
        return uniform_cdf();
    }
    let scale = PROB_TOTAL as f64 / sum;
    let mut values = [0u16; 256];
    let mut cum = 0.0f64;
    for (v, &c) in values.iter_mut().zip(&clamped) {
        *v = (cum * scale + 0.5) as u16;
        cum += c;
    }
    if let Some(cdf) = strict_cdf(&values) {
        return cdf;
    }
    let mut shares = [0u16; 256];
    for (s, &c) in shares.iter_mut().zip(&clamped) {
        *s = (c / sum * REMAINING_MASS as f64) as u16;
    }
    let indices = by_probability(&clamped);
    let mut ranking = [0u8; 256];
    for (r, &i) in ranking.iter_mut().zip(&indices) {
        *r = i as u8;
    }
    shared_cdf(&shares, &ranking)
}

/// The symbols, the most probable first.
fn by_probability(probs: &[f64; 256]) -> Vec<usize> {
    let mut indices: Vec<usize> = (0..256).collect();
    indices.sort_unstable_by(|&a, &b| {
        probs[b]
            .partial_cmp(&probs[a])
            .unwrap_or(std::cmp::Ordering::Equal)
    });
    indices
}

/// A predictor that gives a distribution.
trait Distribution: ProbabilityPredictor {
    /// The probability of each byte.
    fn predict(&mut self) -> [f32; 256];
}

// Order 0.

/// The order-0 predictor.
struct Order0 {
    model: Order0Model,
}

impl Order0 {
    fn new() -> Self {
        Self {
            model: Order0Model::new(),
        }
    }
}

impl Distribution for Order0 {
    fn predict(&mut self) -> [f32; 256] {
        let total = self.model.total() as f32;
        let mut probs = [0.0f32; 256];
        for (i, prob) in probs.iter_mut().enumerate() {
            *prob = self.model.count(i as u8) as f32 / total;
        }
        probs
    }
}

impl ProbabilityPredictor for Order0 {
    type Model = ();

    fn predict_cdf(&mut self) -> [u16; 257] {
        match self.model.predict_cdf() {
            Some(cdf) => cdf,
            None => probs_to_cdf(&self.predict()),
        }
    }

    fn query_cdf(&mut self, byte: u8) -> (u16, u16) {
        match self.model.query_cdf(byte) {
            Some(interval) => interval,
            None => {
                let cdf = probs_to_cdf(&self.predict());
                (cdf[byte as usize], cdf[byte as usize + 1])
            }
        }
    }

    fn update(&mut self, byte: u8) {
        self.model.update(byte);
    }

    fn reset(&mut self) {
        self.model.reset();
    }

    fn name(&self) -> &str {
        self.model.name()
    }

    fn predictor_id(&self) -> PredictorId {
        self.model.predictor_id()
    }

    fn save_state(&self) -> Option<Vec<u8>> {
        self.model.save_state()
    }

    fn load_state(&mut self, data: &[u8]) -> bool {
        self.model.load_state(data)
    }

    fn coding_baseline(&self) -> Option<&[u8]> {
        None
    }

    fn set_coding_baseline(&mut self, _state: &[u8]) -> bool {
        false
    }
}

// Run lengths.

/// Virtual pseudocount for binary decisions.
const ALPHA_BIN: f32 = 0.5;

/// Virtual pseudocount for each literal.
const ALPHA_LIT: f32 = 0.1;

/// Virtual mass of all literals.
const ALPHA_LIT_TOTAL: f32 = 254.0 * ALPHA_LIT;

fn p_yes(yes: u32, total: u32) -> f32 {
    (yes as f32 + ALPHA_BIN) / (total as f32 + 2.0 * ALPHA_BIN)
}

fn rle_distribution(model: &RlePredictor) -> [f32; 256] {
    let c = model.current();
    let mut probs = [0.0f32; 256];
    let p_run = p_yes(c.run_vs_lit.count_yes, c.run_vs_lit.count_total);
    let p_lit = 1.0 - p_run;
    let p_runa = p_yes(c.runa_vs_runb.count_yes, c.runa_vs_runb.count_total);
    probs[0] = p_run * p_runa;
    probs[1] = p_run * (1.0 - p_runa);
    let scale = p_lit / (c.lit_total as f32 + ALPHA_LIT_TOTAL);
    for i in 0..254 {
        probs[i + 2] = (c.lit_counts[i] as f32 + ALPHA_LIT) * scale;
    }
    probs
}

/// The run-length predictor.
struct Rle {
    model: RlePredictor,
}

impl Rle {
    fn new() -> Self {
        Self {
            model: RlePredictor::new(),
        }
    }
}

impl Distribution for Rle {
    fn predict(&mut self) -> [f32; 256] {
        rle_distribution(&self.model)
    }
}

impl ProbabilityPredictor for Rle {
    type Model = ();

    fn predict_cdf(&mut self) -> [u16; 257] {
        probs_to_cdf(&self.predict())
    }

    fn update(&mut self, byte: u8) {
        self.model.update(byte);
    }

    fn reset(&mut self) {
        self.model.reset();
    }

    fn name(&self) -> &str {
        self.model.name()
    }

    fn predictor_id(&self) -> PredictorId {
        self.model.predictor_id()
    }

    fn save_state(&self) -> Option<Vec<u8>> {
        self.model.save_state()
    }

    fn load_state(&mut self, data: &[u8]) -> bool {
        self.model.load_state(data)
    }

    fn coding_baseline(&self) -> Option<&[u8]> {
        None
    }

    fn set_coding_baseline(&mut self, _state: &[u8]) -> bool {
        false
    }
}

// Move-to-front ranks.

/// Pseudocount for each symbol.
const ALPHA: f32 = 0.1;

/// Pseudocount of all symbols.
const ALPHA_TOTAL: f32 = 256.0 * ALPHA;

/// The predictor of move-to-front ranks.
struct Mtf {
    model: MtfPredictor,
}

impl Mtf {
    fn new() -> Self {
        Self {
            model: MtfPredictor::new(),
        }
    }
}

impl Distribution for Mtf {
    fn predict(&mut self) -> [f32; 256] {
        let table = self.model.active();
        let denom = table.total as f32 + ALPHA_TOTAL;
        let mut probs = [0.0f32; 256];
        for (prob, &count) in probs.iter_mut().zip(&table.counts) {
            *prob = (count as f32 + ALPHA) / denom;
        }
        probs
    }
}

impl ProbabilityPredictor for Mtf {
    type Model = ();

    fn predict_cdf(&mut self) -> [u16; 257] {
        probs_to_cdf(&self.predict())
    }

    fn update(&mut self, byte: u8) {
        self.model.update(byte);
    }

    fn reset(&mut self) {
        self.model.reset();
    }

    fn name(&self) -> &str {
        self.model.name()
    }

    fn predictor_id(&self) -> PredictorId {
        self.model.predictor_id()
    }

    fn save_state(&self) -> Option<Vec<u8>> {
        None
    }

    fn load_state(&mut self, _data: &[u8]) -> bool {
        false
    }

    fn coding_baseline(&self) -> Option<&[u8]> {
        None
    }

    fn set_coding_baseline(&mut self, _state: &[u8]) -> bool {
        false
    }
}

// LZ streams.

fn entry_distribution(entry: &[u16; 256]) -> [f32; 256] {
    let total: u32 = entry.iter().map(|&c| c as u32).sum();
    let inv = 1.0 / total as f32;
    let mut probs = [0.0f32; 256];
    for (prob, &count) in probs.iter_mut().zip(entry) {
        *prob = count as f32 * inv;
    }
    probs
}

/// Multiplicative weights of the literal orders.
struct LiteralMixer {
    weights: [f64; 3],
}

impl LiteralMixer {
    fn new() -> Self {
        Self {
            weights: [1.0, 3.0, 6.0],
        }
    }

    fn mix(&self, preds: &[Option<[f32; 256]>; 3]) -> [f32; 256] {
        let mut result = [0.0f32; 256];
        let mut w_sum = 0.0f64;
        for (i, pred) in preds.iter().enumerate() {
            if let Some(p) = pred {
                w_sum += self.weights[i];
                for j in 0..256 {
                    result[j] += (self.weights[i] as f32) * p[j];
                }
            }
        }
        if w_sum > 0.0 {
            let inv = 1.0 / w_sum as f32;
            for item in result.iter_mut() {
                *item *= inv;
            }
            result
        } else {
            [1.0 / 256.0; 256]
        }
    }

    fn update(&mut self, preds: &[Option<[f32; 256]>; 3], actual: u8) {
        for (i, pred) in preds.iter().enumerate() {
            if let Some(p) = pred {
                let score = p[actual as usize] as f64;
                self.weights[i] *= score.max(1e-8);
            }
        }
        let sum: f64 = self.weights.iter().sum();
        if sum > 0.0 && sum.is_finite() {
            let inv = 1.0 / sum;
            for w in &mut self.weights {
                *w *= inv;
            }
        } else {
            let n = self.weights.len() as f64;
            for w in &mut self.weights {
                *w = 1.0 / n;
            }
        }
    }
}

/// The predictor of LZ streams.
struct Lz4Aware {
    model: Lz4AwarePredictor,
    mixer: LiteralMixer,
}

impl Lz4Aware {
    fn new() -> Self {
        Self {
            model: Lz4AwarePredictor::new(),
            mixer: LiteralMixer::new(),
        }
    }

    fn literal_distributions(entries: &[Option<[u16; 256]>; 3]) -> [Option<[f32; 256]>; 3] {
        [
            entries[0].as_ref().map(entry_distribution),
            entries[1].as_ref().map(entry_distribution),
            entries[2].as_ref().map(entry_distribution),
        ]
    }
}

impl Distribution for Lz4Aware {
    fn predict(&mut self) -> [f32; 256] {
        match self.model.active() {
            ActiveCounts::Frequencies(m) => {
                let inv = 1.0 / m.total as f32;
                let mut probs = [0.0f32; 256];
                for (prob, &count) in probs.iter_mut().zip(&m.counts) {
                    *prob = count as f32 * inv;
                }
                probs
            }
            ActiveCounts::Entry(entry) => entry_distribution(&entry),
            ActiveCounts::Literal(entries) => {
                self.mixer.mix(&Self::literal_distributions(&entries))
            }
        }
    }
}

impl ProbabilityPredictor for Lz4Aware {
    type Model = ();

    fn predict_cdf(&mut self) -> [u16; 257] {
        probs_to_cdf(&self.predict())
    }

    fn update(&mut self, byte: u8) {
        if let ActiveCounts::Literal(entries) = self.model.active() {
            self.mixer
                .update(&Self::literal_distributions(&entries), byte);
        }
        self.model.update(byte);
    }

    fn reset(&mut self) {
        self.model.reset();
        self.mixer = LiteralMixer::new();
    }

    fn name(&self) -> &str {
        self.model.name()
    }

    fn predictor_id(&self) -> PredictorId {
        self.model.predictor_id()
    }

    fn save_state(&self) -> Option<Vec<u8>> {
        None
    }

    fn load_state(&mut self, _data: &[u8]) -> bool {
        false
    }

    fn coding_baseline(&self) -> Option<&[u8]> {
        None
    }

    fn set_coding_baseline(&mut self, _state: &[u8]) -> bool {
        false
    }
}

// Context mixing.

/// The context-mixing predictor. Its mixing uses the logarithm and the exponential of the
/// platform, so archives made with it need not decompress alike on all platforms.
struct Mixer {
    model: ContextMixer,
    weights: Vec<f64>,
    learning_rate: f64,
}

impl Mixer {
    fn with_config(config: ContextMixerConfig) -> Self {
        let model = ContextMixer::with_config(config);
        let n = model.model_count();
        let learning_rate = f64::from_bits(model.learning_rate());
        Self {
            model,
            weights: vec![1.0 / n as f64; n],
            learning_rate,
        }
    }

    fn predictions(&self) -> Vec<[f32; 256]> {
        (0..self.model.model_count())
            .map(|k| match self.model.counts(k) {
                Some(entry) => entry_distribution(&entry),
                None => [1.0 / 256.0; 256],
            })
            .collect()
    }

    fn mix_predictions(&self, predictions: &[[f32; 256]]) -> [f32; 256] {
        let mut mixed = [0.0f64; 256];
        for (pred, &weight) in predictions.iter().zip(&self.weights) {
            for i in 0..256 {
                let p = (pred[i] as f64).clamp(1e-12, 1.0 - 1e-12);
                mixed[i] += weight * (p / (1.0 - p)).ln();
            }
        }
        let mut probs = [0.0f32; 256];
        let mut sum = 0.0f64;
        for i in 0..256 {
            let clamped = mixed[i].clamp(-20.0, 20.0);
            let p = 1.0 / (1.0 + (-clamped).exp());
            probs[i] = p as f32;
            sum += p;
        }
        if sum > 0.0 {
            let inv_sum = 1.0 / sum as f32;
            for p in probs.iter_mut() {
                *p *= inv_sum;
                if *p < 1e-7 {
                    *p = 1e-7;
                }
            }
            let floored_sum: f32 = probs.iter().sum();
            if floored_sum > 0.0 {
                let inv = 1.0 / floored_sum;
                for p in probs.iter_mut() {
                    *p *= inv;
                }
            }
        }
        probs
    }

    fn update_weights(&mut self, predictions: &[[f32; 256]], actual_byte: u8) {
        for (i, pred) in predictions.iter().enumerate() {
            let p = (pred[actual_byte as usize] as f64).clamp(1e-12, 1.0);
            self.weights[i] *= (1.0 + self.learning_rate * p.ln()).max(0.01);
        }
        let sum: f64 = self.weights.iter().sum();
        if sum > 0.0 {
            for w in self.weights.iter_mut() {
                *w /= sum;
            }
        }
    }
}

impl Distribution for Mixer {
    fn predict(&mut self) -> [f32; 256] {
        let predictions = self.predictions();
        self.mix_predictions(&predictions)
    }
}

impl ProbabilityPredictor for Mixer {
    type Model = ();

    fn predict_cdf(&mut self) -> [u16; 257] {
        probs_to_cdf(&self.predict())
    }

    fn update(&mut self, byte: u8) {
        let predictions = self.predictions();
        self.update_weights(&predictions, byte);
        self.model.update(byte);
    }

    fn reset(&mut self) {
        self.model.reset();
        let n = self.weights.len();
        self.weights = vec![1.0 / n as f64; n];
    }

    fn name(&self) -> &str {
        self.model.name()
    }

    fn predictor_id(&self) -> PredictorId {
        self.model.predictor_id()
    }

    fn save_state(&self) -> Option<Vec<u8>> {
        None
    }

    fn load_state(&mut self, _data: &[u8]) -> bool {
        false
    }

    fn coding_baseline(&self) -> Option<&[u8]> {
        None
    }

    fn set_coding_baseline(&mut self, _state: &[u8]) -> bool {
        false
    }
}

// State space model.

/// Minimum probability, so that every byte is encodable.
const MIN_PROB: f32 = 1e-6;

/// Pseudocount for each literal in a context.
const O2_ALPHA: f32 = 0.5;

/// A context reaches half its blend weight after as many observations.
const O2_CONF_K: f32 = 32.0;

/// Weights are clipped to this magnitude.
const WEIGHT_CLIP: f32 = 10.0;

const SIGMOID_MIN: f32 = -20.0;
const SIGMOID_MAX: f32 = 20.0;
const SIGMOID_STEPS_PER_UNIT: usize = 256;
const SIGMOID_LUT_LEN: usize = ((SIGMOID_MAX - SIGMOID_MIN) as usize * SIGMOID_STEPS_PER_UNIT) + 1;

/// A point of the logistic curve.
fn logistic(index: usize) -> f32 {
    let x = SIGMOID_MIN + index as f32 / SIGMOID_STEPS_PER_UNIT as f32;
    1.0 / (1.0 + (-x).exp())
}

fn sigmoid(x: f32) -> f32 {
    let scaled = (x.clamp(SIGMOID_MIN, SIGMOID_MAX) - SIGMOID_MIN) * SIGMOID_STEPS_PER_UNIT as f32;
    let index = scaled as usize;
    if index + 1 >= SIGMOID_LUT_LEN {
        return logistic(SIGMOID_LUT_LEN - 1);
    }
    let fraction = scaled - index as f32;
    let lo = logistic(index);
    lo + (logistic(index + 1) - lo) * fraction
}

/// The numbers of [`SsmFloats`] as such.
struct Numbers {
    h: Vec<f32>,
    w_run: Vec<f32>,
    b_run: f32,
    w_runa: Vec<f32>,
    b_runa: f32,
    ssm_perf: f32,
    rle_perf: f32,
}

fn numbers(bits: &[u32]) -> Vec<f32> {
    bits.iter().map(|&b| f32::from_bits(b)).collect()
}

fn patterns(values: &[f32]) -> Vec<u32> {
    values.iter().map(|v| v.to_bits()).collect()
}

impl Numbers {
    fn from_bits(f: &SsmFloats) -> Self {
        Self {
            h: numbers(&f.h),
            w_run: numbers(&f.w_run),
            b_run: f32::from_bits(f.b_run),
            w_runa: numbers(&f.w_runa),
            b_runa: f32::from_bits(f.b_runa),
            ssm_perf: f32::from_bits(f.ssm_perf),
            rle_perf: f32::from_bits(f.rle_perf),
        }
    }

    fn to_bits(&self) -> SsmFloats {
        SsmFloats {
            h: patterns(&self.h),
            w_run: patterns(&self.w_run),
            b_run: self.b_run.to_bits(),
            w_runa: patterns(&self.w_runa),
            b_runa: self.b_runa.to_bits(),
            ssm_perf: self.ssm_perf.to_bits(),
            rle_perf: self.rle_perf.to_bits(),
        }
    }
}

/// The predictions of the last step, from which the model learns.
struct LastStep {
    ssm_p_run: f32,
    ssm_p_runa: f32,
    rle_p_run: f32,
    rle_p_runa: f32,
}

impl LastStep {
    fn new() -> Self {
        Self {
            ssm_p_run: 0.5,
            ssm_p_runa: 0.5,
            rle_p_run: 0.5,
            rle_p_runa: 0.5,
        }
    }
}

/// The neural predictor.
struct Ssm {
    model: NeuralSsmPredictor,
    a: [f32; D_MAX],
    a_inv: [f32; D_MAX],
    embed: Box<[[f32; D_MAX]; 256]>,
    last: LastStep,
}

impl Ssm {
    fn new() -> Self {
        Self::with_config(NeuralSsmConfig::default())
    }

    fn with_config(cfg: NeuralSsmConfig) -> Self {
        let model = NeuralSsmPredictor::with_config(cfg);
        let cfg = model.config();
        let d = cfg.d;
        let decay_lo = f32::from_bits(cfg.decay_lo);
        let decay_hi = f32::from_bits(cfg.decay_hi);
        let mut a = [0.0f32; D_MAX];
        let mut a_inv = [0.0f32; D_MAX];
        for i in 0..d {
            let t = i as f32 / (d - 1).max(1) as f32;
            a[i] = decay_lo + t * (decay_hi - decay_lo);
            a_inv[i] = 1.0 - a[i];
        }
        let mut embed = Box::new([[0.0f32; D_MAX]; 256]);
        for (sym, row) in embed.iter_mut().enumerate() {
            for (i, value) in row.iter_mut().enumerate().take(d) {
                *value = embedding_mantissa(sym as u8, i as u32) as f32 / 4_194_304.0 - 1.0;
            }
        }
        Self {
            model,
            a,
            a_inv,
            embed,
            last: LastStep::new(),
        }
    }

    fn ssm_binary_predict(&self) -> (f32, f32) {
        let f = self.model.floats();
        let mut dot_run = f32::from_bits(f.b_run);
        let mut dot_runa = f32::from_bits(f.b_runa);
        for i in 0..f.h.len() {
            let h = f32::from_bits(f.h[i]);
            dot_run += f32::from_bits(f.w_run[i]) * h;
            dot_runa += f32::from_bits(f.w_runa[i]) * h;
        }
        (sigmoid(dot_run), sigmoid(dot_runa))
    }

    fn mixing_alpha(&self) -> f32 {
        let cfg = self.model.config();
        if self.model.step() < cfg.warmup {
            return 0.0;
        }
        let f = self.model.floats();
        let diff = f32::from_bits(f.ssm_perf) - f32::from_bits(f.rle_perf);
        if diff <= 0.0 {
            return 0.0;
        }
        (diff * f32::from_bits(cfg.mix_sensitivity)).min(f32::from_bits(cfg.max_alpha))
    }

    /// The weights of all symbols, and their sum.
    fn model_weights(&mut self) -> ([f32; 256], f32) {
        let rle_probs = rle_distribution(self.model.rle());
        let rle_p_run = rle_probs[0] + rle_probs[1];
        let rle_p_runa = if rle_p_run > MIN_PROB {
            rle_probs[0] / rle_p_run
        } else {
            0.5
        };
        let (ssm_p_run, ssm_p_runa) = self.ssm_binary_predict();
        self.last = LastStep {
            ssm_p_run,
            ssm_p_runa,
            rle_p_run,
            rle_p_runa,
        };

        let alpha = self.mixing_alpha();
        let p_run = alpha * ssm_p_run + (1.0 - alpha) * rle_p_run;
        let p_runa = alpha * ssm_p_runa + (1.0 - alpha) * rle_p_runa;

        let inv_rle_lit = 1.0 / (1.0 - rle_p_run).max(MIN_PROB);
        let o2_obs = self.model.literal_total();
        let o2_counts = self.model.literal_counts();
        let inv_o2_total = 1.0 / (o2_obs as f32 + 254.0 * O2_ALPHA);
        let blend = f32::from_bits(self.model.config().o2_lit_blend);
        let eff_blend = blend * (o2_obs as f32 / (o2_obs as f32 + O2_CONF_K));
        let rle_weight = 1.0 - eff_blend;
        let use_o2 = eff_blend > 0.0;

        let mut weights = [0.0f32; 256];
        weights[0] = (p_run * p_runa).max(MIN_PROB);
        weights[1] = (p_run * (1.0 - p_runa)).max(MIN_PROB);
        let p_lit = 1.0 - p_run;
        let mut sum = weights[0] + weights[1];
        for i in 2..256 {
            let rle_p = rle_probs[i] * inv_rle_lit;
            let lit_p = if use_o2 {
                let o2_p = (o2_counts[i - 2] as f32 + O2_ALPHA) * inv_o2_total;
                rle_weight * rle_p + eff_blend * o2_p
            } else {
                rle_p
            };
            let weight = (p_lit * lit_p).max(MIN_PROB);
            weights[i] = weight;
            sum += weight;
        }
        (weights, sum)
    }

    /// What the model learns from a byte.
    fn learned(&self, byte: u8) -> SsmFloats {
        let cfg = self.model.config();
        let lr = f32::from_bits(cfg.lr);
        let decay = f32::from_bits(cfg.mix_decay);
        let mut n = Numbers::from_bits(self.model.floats());
        let last = &self.last;

        let (ssm_ll, rle_ll) = if byte <= 1 {
            let ssm_run_ll = last.ssm_p_run.max(MIN_PROB).ln();
            let rle_run_ll = last.rle_p_run.max(MIN_PROB).ln();
            let ssm_ab = if byte == 0 {
                last.ssm_p_runa.max(MIN_PROB).ln()
            } else {
                (1.0 - last.ssm_p_runa).max(MIN_PROB).ln()
            };
            let rle_ab = if byte == 0 {
                last.rle_p_runa.max(MIN_PROB).ln()
            } else {
                (1.0 - last.rle_p_runa).max(MIN_PROB).ln()
            };
            (ssm_run_ll + ssm_ab, rle_run_ll + rle_ab)
        } else {
            (
                (1.0 - last.ssm_p_run).max(MIN_PROB).ln(),
                (1.0 - last.rle_p_run).max(MIN_PROB).ln(),
            )
        };
        n.ssm_perf = decay * n.ssm_perf + (1.0 - decay) * ssm_ll;
        n.rle_perf = decay * n.rle_perf + (1.0 - decay) * rle_ll;

        let y_run = if byte <= 1 { 1.0f32 } else { 0.0 };
        let lr_err_run = lr * (last.ssm_p_run - y_run);
        for i in 0..n.h.len() {
            n.w_run[i] = (n.w_run[i] - lr_err_run * n.h[i]).clamp(-WEIGHT_CLIP, WEIGHT_CLIP);
        }
        n.b_run = (n.b_run - lr_err_run).clamp(-WEIGHT_CLIP, WEIGHT_CLIP);

        if byte <= 1 {
            let y_runa = if byte == 0 { 1.0f32 } else { 0.0 };
            let lr_err_runa = lr * (last.ssm_p_runa - y_runa);
            for i in 0..n.h.len() {
                n.w_runa[i] = (n.w_runa[i] - lr_err_runa * n.h[i]).clamp(-WEIGHT_CLIP, WEIGHT_CLIP);
            }
            n.b_runa = (n.b_runa - lr_err_runa).clamp(-WEIGHT_CLIP, WEIGHT_CLIP);
        }

        let emb = &self.embed[byte as usize];
        for (i, h) in n.h.iter_mut().enumerate() {
            *h = self.a[i] * *h + self.a_inv[i] * emb[i];
        }
        n.to_bits()
    }
}

/// The share of the mass that is not reserved.
fn share_of(cumulative: f64, total: f64) -> u32 {
    (cumulative * (PROB_TOTAL - 256) as f64 / total).floor() as u32
}

impl Distribution for Ssm {
    fn predict(&mut self) -> [f32; 256] {
        let (mut probs, sum) = self.model_weights();
        let inv = 1.0 / sum;
        for prob in probs.iter_mut() {
            *prob *= inv;
        }
        probs
    }
}

impl ProbabilityPredictor for Ssm {
    type Model = ();

    fn predict_cdf(&mut self) -> [u16; 257] {
        let (weights, sum) = self.model_weights();
        let mut scaled = [0u32; 256];
        let mut cumulative = 0.0f64;
        for (share, &weight) in scaled.iter_mut().zip(&weights) {
            *share = share_of(cumulative, sum as f64);
            cumulative += weight as f64;
        }
        // Weights are positive, and the rounding of their sum is less than a count, so the
        // shares rise and leave room.
        match reserved_cdf(&scaled) {
            Some(cdf) => cdf,
            None => panic!("weights do not add up to their sum"),
        }
    }

    fn query_cdf(&mut self, byte: u8) -> (u16, u16) {
        let (weights, sum) = self.model_weights();
        let symbol = byte as usize;
        let mut cumulative = 0.0f64;
        for &weight in &weights[..symbol] {
            cumulative += weight as f64;
        }
        let below = share_of(cumulative, sum as f64);
        cumulative += weights[symbol] as f64;
        reserved_interval(below, share_of(cumulative, sum as f64), byte)
    }

    fn update(&mut self, byte: u8) {
        assert!(self.model.step() < u32::MAX, "too many steps");
        let floats = self.learned(byte);
        self.model.update(byte, floats);
    }

    fn reset(&mut self) {
        if self.model.coding_baseline().is_none() {
            self.last = LastStep::new();
        }
        self.model.reset();
    }

    fn name(&self) -> &str {
        self.model.name()
    }

    fn predictor_id(&self) -> PredictorId {
        self.model.predictor_id()
    }

    fn save_state(&self) -> Option<Vec<u8>> {
        self.model.save_state()
    }

    fn load_state(&mut self, data: &[u8]) -> bool {
        self.model.load_state(data)
    }

    fn coding_baseline(&self) -> Option<&[u8]> {
        self.model.coding_baseline()
    }

    fn set_coding_baseline(&mut self, state: &[u8]) -> bool {
        self.model.set_coding_baseline(state)
    }
}

/// Shannon entropy in bits per byte.
fn shannon_entropy(data: &[u8]) -> f64 {
    let total = data.len() as f64;
    let mut entropy = 0.0;
    for &count in &byte_counts(data) {
        if count > 0 {
            let p = count as f64 / total;
            entropy -= p * p.log2();
        }
    }
    entropy
}

fn classified(planes: &[Vec<u8>]) -> u8 {
    let entropies: Vec<i64> = planes
        .iter()
        .map(|p| shannon_entropy(p).to_bits() as i64)
        .collect();
    classify_planes(planes, &entropies)
}

fn encode_planes(data: &[u8], width: BytePlaneWidth) -> Option<Vec<u8>> {
    let (planes, _) = byteplane_split(data, width);
    byteplane_encode(data, width, classified(&planes), &mut Order0::new())
}

fn gain(data: &[u8], width: BytePlaneWidth) -> i64 {
    (shannon_entropy(data) - shannon_entropy(&plane_sample(data, width))).to_bits() as i64
}

fn detect_width(data: &[u8]) -> Option<BytePlaneWidth> {
    let four = gain(data, BytePlaneWidth::Four);
    let two = gain(data, BytePlaneWidth::Two);
    detect_numeric_width(data, four, two)
}

#[test]
fn cdf_uniform() {
    let probs = [1.0f32 / 256.0; 256];
    let cdf = probs_to_cdf(&probs);
    assert_eq!(cdf[0], 0);
    assert_eq!(cdf[256], PROB_TOTAL as u16);
    for i in 0..256 {
        assert!(cdf[i + 1] > cdf[i], "monotonicity at {i}");
    }
}

#[test]
fn cdf_peaked() {
    let mut probs = [1e-10f32; 256];
    probs[42] = 0.999;
    let cdf = probs_to_cdf(&probs);
    assert_eq!(cdf[0], 0);
    assert_eq!(cdf[256], PROB_TOTAL as u16);
    for i in 0..256 {
        assert!(cdf[i + 1] > cdf[i], "monotonicity at {i}");
    }
    // Symbol 42 should get the lion's share.
    let freq_42 = cdf[43] - cdf[42];
    assert!(freq_42 > (PROB_TOTAL as u16) / 2, "freq_42 = {freq_42}");
}

#[test]
fn rans_roundtrip_empty() {
    let mut enc_pred = Order0::new();
    let mut dec_pred = Order0::new();

    let compressed = encode_block(&[], &mut enc_pred).unwrap();
    let decoded = decode_block(&compressed, 0, &mut dec_pred).unwrap();
    assert!(decoded.is_empty());
}

#[test]
fn roundtrip_single_byte() {
    let mut enc_pred = Order0::new();
    let mut dec_pred = Order0::new();

    let data = [42u8];
    let compressed = encode_block(&data, &mut enc_pred).unwrap();
    let decoded = decode_block(&compressed, data.len(), &mut dec_pred).unwrap();
    assert_eq!(data.to_vec(), decoded);
}

#[test]
fn roundtrip_uniform_data() {
    let mut enc_pred = Order0::new();
    let mut dec_pred = Order0::new();

    let data = vec![0xAA; 1000];
    let compressed = encode_block(&data, &mut enc_pred).unwrap();
    let decoded = decode_block(&compressed, data.len(), &mut dec_pred).unwrap();
    assert_eq!(data, decoded);
}

#[test]
fn roundtrip_english_text() {
    let mut enc_pred = Order0::new();
    let mut dec_pred = Order0::new();

    let data = b"The quick brown fox jumps over the lazy dog. Pack my box with five dozen liquor jugs.";
    let compressed = encode_block(data, &mut enc_pred).unwrap();
    let decoded = decode_block(&compressed, data.len(), &mut dec_pred).unwrap();
    assert_eq!(data.to_vec(), decoded);
}

#[test]
fn roundtrip_all_byte_values() {
    let mut enc_pred = Order0::new();
    let mut dec_pred = Order0::new();

    let data: Vec<u8> = (0..=255).collect();
    let compressed = encode_block(&data, &mut enc_pred).unwrap();
    let decoded = decode_block(&compressed, data.len(), &mut dec_pred).unwrap();
    assert_eq!(data, decoded);
}

#[test]
fn rans_compresses_repetitive_data() {
    let mut pred = Order0::new();

    let data = vec![0x42; 10_000];
    let compressed = encode_block(&data, &mut pred).unwrap();

    // Highly repetitive data should compress very well
    assert!(
        compressed.len() < data.len() / 5,
        "Expected significant compression: {} -> {}",
        data.len(),
        compressed.len()
    );
}

#[test]
fn roundtrip_with_context_mixer() {
    let data = b"Hello! This tests the context mixer predictor with range coding. \
                 The mixer should handle this text correctly. Repeated patterns \
                 help the mixer learn: help the mixer learn: help the mixer learn.";

    let mut enc_pred = Mixer::with_config(ContextMixerConfig::lightweight());
    let compressed = encode_block(data, &mut enc_pred).unwrap();

    let mut dec_pred = Mixer::with_config(ContextMixerConfig::lightweight());
    let decoded = decode_block(&compressed, data.len(), &mut dec_pred).unwrap();

    assert_eq!(data.to_vec(), decoded);
}

fn roundtrip_test<P: ProbabilityPredictor>(
    data: Vec<u8>,
    predictor_factory: impl Fn() -> P,
) {
    let mut enc_pred = predictor_factory();
    let compressed = encode_block(&data, &mut enc_pred).expect("encode");

    let mut dec_pred = predictor_factory();
    let decoded = decode_block(&compressed, data.len(), &mut dec_pred).expect("decode");
    assert_eq!(
        data,
        decoded,
        "data roundtrip mismatch at len={}",
        data.len()
    );
}

#[test]
fn roundtrip_json_sized_data_order0() {
    // Test with JSON-like data similar to data.json (726 bytes)
    let json = br#"{
  "name": "AetherArch",
  "version": "0.1.0",
  "description": "Next-generation file archiver",
  "authors": ["Anonymous"],
  "features": [
    "neural-probabilistic prediction",
    "context-mixing compression",
    "content-defined chunking",
    "semantic solid archiving",
    "adaptive entropy routing",
    "range coding via constriction",
    "zstandard fallback",
    "BLAKE3 integrity checksums"
  ],
  "benchmarks": {
    "english_text_bpb": 2.5,
    "source_code_bpb": 3.0,
    "binary_data_bpb": 6.5,
    "random_data_bpb": 8.0
  },
  "config": {
    "min_chunk_size": 4096,
    "avg_chunk_size": 65536,
    "max_chunk_size": 524288,
    "high_entropy_threshold": 7.5,
    "incompressible_threshold": 7.95
  }
}
"#;
    roundtrip_test(json.to_vec(), Order0::new);
}

#[test]
fn roundtrip_various_sizes_order0() {
    // Test roundtrip with various data sizes from 1 to 2000 bytes
    for size in [1, 10, 50, 100, 200, 500, 726, 809, 1000, 1098, 2000] {
        let data: Vec<u8> = (0..size).map(|i| (i % 97 + 32) as u8).collect();
        roundtrip_test(data, Order0::new);
    }
}

#[test]
fn context_mixer_compresses_better_than_order0() {
    let data = b"ABABABABABABABABABABABABABABABABABABABABABABABABABABABABABABABAB\
                 CDCDCDCDCDCDCDCDCDCDCDCDCDCDCDCDCDCDCDCDCDCDCDCDCDCDCDCDCDCDCD";

    let mut o0 = Order0::new();
    let comp_o0 = encode_block(data, &mut o0).unwrap();

    let mut cm = Mixer::with_config(ContextMixerConfig::lightweight());
    let comp_cm = encode_block(data, &mut cm).unwrap();

    // Context mixer should compress better on patterned data
    assert!(
        comp_cm.len() <= comp_o0.len(),
        "Context mixer ({}) should be <= order-0 ({}) on patterned data",
        comp_cm.len(),
        comp_o0.len(),
    );
}

#[test]
fn initial_prediction_is_uniform() {
    let mut model = Order0::new();
    let probs = model.predict();

    // All probabilities should be equal (1/256)
    let expected = 1.0 / 256.0;
    for &p in &probs {
        assert!((p - expected).abs() < 1e-6);
    }

    // Sum should be ~1.0
    let sum: f32 = probs.iter().sum();
    assert!((sum - 1.0).abs() < 1e-4);
}

#[test]
fn prediction_adapts_after_updates() {
    let mut model = Order0::new();

    // Feed a bunch of 'A's
    for _ in 0..1000 {
        model.update(b'A');
    }

    let probs = model.predict();
    // 'A' should have much higher probability than other bytes
    let p_a = probs[b'A' as usize];
    let p_other = probs[0]; // 0x00, which was never fed
    assert!(p_a > p_other * 10.0, "P('A') = {p_a}, P(0x00) = {p_other}");
}

#[test]
fn prediction_always_valid_distribution() {
    let mut model = Order0::new();

    for byte in 0..=255u8 {
        let probs = model.predict();

        // All positive
        for &p in &probs {
            assert!(p > 0.0, "All probabilities must be > 0");
        }

        // Sum to ~1.0
        let sum: f32 = probs.iter().sum();
        assert!((sum - 1.0).abs() < 1e-3, "Sum = {sum}, expected ~1.0");

        model.update(byte);
    }
}

#[test]
fn order0_reset_restores_initial_state() {
    let mut model = Order0::new();

    for _ in 0..500 {
        model.update(42);
    }

    model.reset();
    let probs = model.predict();
    let expected = 1.0 / 256.0;
    for &p in &probs {
        assert!((p - expected).abs() < 1e-6);
    }
}

#[test]
fn rescaling_prevents_overflow() {
    let mut model = Order0::new();

    // Push past the rescaling threshold
    for _ in 0..2_000_000 {
        model.update(0);
    }

    // Model should still produce valid probabilities
    let probs = model.predict();
    let sum: f32 = probs.iter().sum();
    assert!((sum - 1.0).abs() < 1e-2, "Sum after rescaling = {sum}");

    // Byte 0 should dominate
    assert!(probs[0] > 0.9);
}

#[test]
fn starts_uniform() {
    let mut pred = Rle::new();
    let probs = pred.predict();
    // Should sum to ~1.0
    let sum: f32 = probs.iter().sum();
    assert!((sum - 1.0).abs() < 0.01, "Sum should be ~1.0, got {sum}");
}

#[test]
fn rle_predictor_adapts_to_run_heavy_stream() {
    let mut pred = Rle::new();
    // Feed lots of RUNA
    for _ in 0..100 {
        pred.predict();
        pred.update(0); // RUNA
    }
    let probs = pred.predict();
    // p(RUNA) should dominate
    assert!(
        probs[0] > 0.3,
        "After many RUNAs, p(RUNA) should be > 0.3, got {}",
        probs[0]
    );
    // p(RUNA) + p(RUNB) should be high
    let p_run = probs[0] + probs[1];
    assert!(p_run > 0.5, "p(run) should be high, got {p_run}");
}

#[test]
fn hierarchical_probabilities_sum_to_one() {
    let mut pred = Rle::new();
    let stream: Vec<u8> = vec![0, 1, 0, 3, 0, 0, 5, 0, 0, 0, 3, 0, 1, 4, 2, 0];
    for &b in &stream {
        let probs = pred.predict();
        let sum: f32 = probs.iter().sum();
        assert!(
            (sum - 1.0).abs() < 0.01,
            "Probabilities must sum to ~1.0, got {sum}"
        );
        pred.update(b);
    }
}

#[test]
fn rle_predictor_roundtrip_with_range_coder() {
    let rle_data: Vec<u8> = (0..500)
        .map(|i| match i % 7 {
            0..=2 => 0,
            3 => 1,
            4 => 3,
            5 => 0,
            _ => 5,
        })
        .collect();

    let mut enc = Rle::new();
    let compressed = encode_block(&rle_data, &mut enc).unwrap();

    let mut dec = Rle::new();
    let decoded = decode_block(&compressed, rle_data.len(), &mut dec).unwrap();

    assert_eq!(rle_data, decoded);
}

#[test]
fn starts_uniform_then_adapts() {
    let mut pred = Mtf::new();
    let probs = pred.predict();
    // First prediction should be ~uniform
    let diff = (probs[0] - probs[100]).abs();
    assert!(diff < 0.001, "Initial should be ~uniform, diff={diff}");

    // Feed enough data to populate run-length buckets
    for _ in 0..200 {
        pred.predict();
        pred.update(0);
    }
    let probs = pred.predict();
    assert!(probs[0] > 0.3, "After 200 zeros, p(0) > 0.3: {}", probs[0]);
}

#[test]
fn learns_runs_of_zeros() {
    let mut pred = Mtf::new();
    for _ in 0..100 {
        pred.predict();
        pred.update(0);
    }
    let probs = pred.predict();
    assert!(
        probs[0] > 0.5,
        "After 100 zeros, p(0) > 0.5, got {}",
        probs[0]
    );
}

#[test]
fn run_context_improves_with_length() {
    let mut pred = Mtf::new();
    // Feed pattern: runs of 10 zeros followed by value 3
    for _ in 0..100 {
        for _ in 0..10 {
            pred.predict();
            pred.update(0);
        }
        pred.predict();
        pred.update(3);
    }
    // After many such patterns, p(0) should be very high during a run
    for _ in 0..5 {
        pred.predict();
        pred.update(0);
    }
    let probs = pred.predict();
    assert!(
        probs[0] > 0.7,
        "Mid-run p(0) should be high, got {}",
        probs[0]
    );
}

#[test]
fn mtf_predictor_roundtrip_with_range_coder() {
    let mtf_data: Vec<u8> = (0..1000)
        .map(|i| match i % 10 {
            0..=6 => 0,
            7 => 1,
            8 => 2,
            _ => (i % 20) as u8,
        })
        .collect();

    let mut enc = Mtf::new();
    let compressed = encode_block(&mtf_data, &mut enc).unwrap();

    let mut dec = Mtf::new();
    let decoded = decode_block(&compressed, mtf_data.len(), &mut dec).unwrap();

    assert_eq!(mtf_data, decoded);
}

#[test]
fn initial_state_is_size_prefix() {
    let pred = Lz4Aware::new();
    assert_eq!(pred.model.state(), Lz4ParseState::SizePrefix { byte_index: 0 });
}

#[test]
fn fsm_transitions_size_prefix() {
    let mut pred = Lz4Aware::new();
    for i in 0..4u8 {
        pred.predict();
        pred.update(i);
    }
    assert_eq!(pred.model.state(), Lz4ParseState::Token);
}

#[test]
fn fsm_transitions_simple_token() {
    let mut pred = Lz4Aware::new();
    for i in 0..4u8 {
        pred.predict();
        pred.update(i);
    }
    assert_eq!(pred.model.state(), Lz4ParseState::Token);

    pred.predict();
    pred.update(0x30);
    assert_eq!(pred.model.state(), Lz4ParseState::Literals { remaining: 3 });

    for _ in 0..3 {
        pred.predict();
        pred.update(b'A');
    }
    assert_eq!(pred.model.state(), Lz4ParseState::MatchOffsetLow);

    pred.predict();
    pred.update(0x05);
    assert_eq!(pred.model.state(), Lz4ParseState::MatchOffsetHigh);

    pred.predict();
    pred.update(0x00);
    assert_eq!(pred.model.state(), Lz4ParseState::Token);
}

#[test]
fn fsm_transitions_extended_literal_length() {
    let mut pred = Lz4Aware::new();
    for i in 0..4u8 {
        pred.predict();
        pred.update(i);
    }

    pred.predict();
    pred.update(0xF4);
    assert_eq!(pred.model.state(), Lz4ParseState::LitLenExt);
    assert_eq!(pred.model.lit_len_accum(), 15);
    assert_eq!(pred.model.match_len_nibble(), 4);

    pred.predict();
    pred.update(10);
    assert_eq!(pred.model.state(), Lz4ParseState::Literals { remaining: 25 });
}

#[test]
fn fsm_transitions_extended_match_length() {
    let mut pred = Lz4Aware::new();
    for i in 0..4u8 {
        pred.predict();
        pred.update(i);
    }

    pred.predict();
    pred.update(0x1F);
    assert_eq!(pred.model.state(), Lz4ParseState::Literals { remaining: 1 });

    pred.predict();
    pred.update(b'X');
    assert_eq!(pred.model.state(), Lz4ParseState::MatchOffsetLow);

    pred.predict();
    pred.update(0x01);
    pred.predict();
    pred.update(0x00);
    assert_eq!(pred.model.state(), Lz4ParseState::MatchLenExt);

    pred.predict();
    pred.update(255);
    assert_eq!(pred.model.state(), Lz4ParseState::MatchLenExt);

    pred.predict();
    pred.update(5);
    assert_eq!(pred.model.state(), Lz4ParseState::Token);
}

#[test]
fn fsm_parses_real_lz4_stream() {
    let input = b"Hello, world! Hello, world! Hello, world! Hello, world! \
                  The quick brown fox jumps over the lazy dog. \
                  The quick brown fox jumps over the lazy dog.";
    let lz4_data = lz4_flex::compress_prepend_size(input);

    let mut pred = Lz4Aware::new();
    pred.reset();

    for &byte in &lz4_data {
        let probs = pred.predict();
        assert!(
            probs.iter().all(|&p| p > 0.0),
            "All probabilities must be positive"
        );
        let sum: f32 = probs.iter().sum();
        assert!(
            (sum - 1.0).abs() < 0.05,
            "Probabilities should sum to ~1.0, got {sum}"
        );
        pred.update(byte);
    }
}

#[test]
fn lz4_aware_deterministic() {
    let input = b"Test data for determinism check. Test data for determinism check.";
    let lz4_data = lz4_flex::compress_prepend_size(input);

    let mut pred1 = Lz4Aware::new();
    let mut pred2 = Lz4Aware::new();

    for &byte in &lz4_data {
        let p1 = pred1.predict();
        let p2 = pred2.predict();
        assert_eq!(p1, p2, "Predictions must be identical");
        pred1.update(byte);
        pred2.update(byte);
    }
}

#[test]
fn lz4_aware_reset_restores_initial_state() {
    let input = b"Some data to feed through the predictor before reset.";
    let lz4_data = lz4_flex::compress_prepend_size(input);

    let mut pred = Lz4Aware::new();
    let initial_probs = pred.predict();

    for &byte in &lz4_data {
        pred.predict();
        pred.update(byte);
    }

    pred.reset();
    let after_reset_probs = pred.predict();
    assert_eq!(
        initial_probs, after_reset_probs,
        "Reset should restore initial prediction"
    );
    assert_eq!(pred.model.state(), Lz4ParseState::SizePrefix { byte_index: 0 });
}

#[test]
fn lz4_aware_roundtrip_with_range_coder() {
    let input = b"Hello, world! Hello, world! Hello, world! \
                  This is a test of the LZ4-aware predictor with range coding.";
    let lz4_data = lz4_flex::compress_prepend_size(input);

    let mut enc_pred = Lz4Aware::new();
    let compressed =
        encode_block(&lz4_data, &mut enc_pred).expect("encode should succeed");

    let mut dec_pred = Lz4Aware::new();
    let decoded = decode_block(&compressed, lz4_data.len(), &mut dec_pred)
        .expect("decode should succeed");

    assert_eq!(lz4_data, decoded, "Range coding roundtrip failed");
}

#[test]
fn compresses_lz4_stream() {
    let line = "The quick brown fox jumps over the lazy dog. ";
    let input: Vec<u8> = line.as_bytes().repeat(100);
    let lz4_data = lz4_flex::compress_prepend_size(&input);

    let mut lz4_pred = Lz4Aware::new();
    let lz4_bytes = encode_block(&lz4_data, &mut lz4_pred)
        .expect("encode with lz4-aware should succeed");
    let lz4_size = lz4_bytes.len();

    assert!(
        lz4_size < lz4_data.len(),
        "LZ4-aware predictor should compress the LZ4 stream: RC output {} >= LZ4 input {}",
        lz4_size,
        lz4_data.len()
    );
}

#[test]
fn initial_prediction_is_roughly_uniform() {
    let mut mixer = Mixer::with_config(ContextMixerConfig::lightweight());
    let probs = mixer.predict();

    // All should be positive
    for &p in &probs {
        assert!(p > 0.0);
    }

    // Sum should be ~1.0
    let sum: f32 = probs.iter().sum();
    assert!((sum - 1.0).abs() < 0.01, "Initial prediction sum = {sum}");
}

#[test]
fn adapts_to_repeated_pattern() {
    let mut mixer = Mixer::with_config(ContextMixerConfig::lightweight());

    // Feed "ABABAB..." pattern
    let pattern = b"AB";
    for _ in 0..500 {
        for &b in pattern {
            mixer.update(b);
        }
    }

    // After seeing "...AB", the mixer should predict 'A' with high probability
    // (since 'A' always follows 'B' in the pattern)
    let probs = mixer.predict();
    let p_a = probs[b'A' as usize];
    let p_b = probs[b'B' as usize];

    // 'A' should be likely (it follows 'B')
    assert!(
        p_a > 0.3,
        "Expected P('A') > 0.3 after AB pattern, got {p_a}"
    );
    // Together they should be significantly above uniform (2/256 = 0.0078)
    assert!(
        p_a + p_b > 0.5,
        "P('A') + P('B') = {} should be well above uniform",
        p_a + p_b
    );
}

#[test]
fn reset_works() {
    let mut mixer = Mixer::with_config(ContextMixerConfig::lightweight());

    for _ in 0..1000 {
        mixer.update(42);
    }

    mixer.reset();

    // Should be back to approximately uniform
    let probs = mixer.predict();
    let max_p = probs.iter().cloned().fold(0.0f32, f32::max);
    let min_p = probs.iter().cloned().fold(1.0f32, f32::min);
    assert!(
        (max_p - min_p) < 0.01,
        "After reset, max={max_p} min={min_p} - should be ~uniform"
    );
}

#[test]
fn prediction_always_valid() {
    let mut mixer = Mixer::with_config(ContextMixerConfig::lightweight());

    let text = b"Hello, World! This is a test of the context mixing predictor.";
    for &byte in text.iter() {
        let probs = mixer.predict();

        // All positive
        for &p in &probs {
            assert!(p > 0.0, "Zero probability found");
        }

        // Sum to ~1.0
        let sum: f32 = probs.iter().sum();
        assert!(
            (sum - 1.0).abs() < 0.05,
            "Sum = {sum} at byte '{}'",
            byte as char
        );

        mixer.update(byte);
    }
}

#[test]
fn context_mixer_deterministic() {
    let text = b"The quick brown fox jumps over the lazy dog. ";

    let run = || {
        let mut mixer = Mixer::with_config(ContextMixerConfig::lightweight());
        let mut all_probs = Vec::new();
        for &byte in text.iter() {
            all_probs.push(mixer.predict());
            mixer.update(byte);
        }
        all_probs
    };

    let probs1 = run();
    let probs2 = run();

    for (i, (a, b)) in probs1.iter().zip(probs2.iter()).enumerate() {
        for j in 0..256 {
            assert_eq!(
                a[j].to_bits(),
                b[j].to_bits(),
                "Non-deterministic at byte {i}, symbol {j}"
            );
        }
    }
}

#[test]
fn sigmoid_lookup_tracks_exact_curve() {
    for step in -2000..=2000 {
        let x = step as f32 / 100.0;
        let exact = 1.0 / (1.0 + (-x).exp());
        let error = (sigmoid(x) - exact).abs();
        assert!(error < 0.000_001, "sigmoid LUT error {error} at x={x}");
    }
}

/// Bit-identity guard for the encode-only query and decoder CDF paths.
#[test]
fn query_cdf_matches_decoder_cdf() {
    // A heavy RUNA/RUNB distribution.
    let mut data = Vec::with_capacity(4096);
    let mut state = 0x9e37_79b9u32;
    for _ in 0..4096 {
        state = state.wrapping_mul(1664525).wrapping_add(1013904223);
        let b = match (state >> 24) & 0x7 {
            0..=3 => 0,
            4 => 1,
            _ => ((state >> 8) & 0xFF) as u8,
        };
        data.push(b);
    }

    let mut query_predictor = Ssm::new();
    let mut cdf_predictor = Ssm::new();
    for (step, &byte) in data.iter().enumerate() {
        let interval = query_predictor.query_cdf(byte);
        let cdf = cdf_predictor.predict_cdf();
        let symbol = byte as usize;
        assert_eq!(
            interval,
            (cdf[symbol], cdf[symbol + 1]),
            "CDF interval diverged at step {step} (byte={byte})"
        );
        query_predictor.update(byte);
        cdf_predictor.update(byte);
    }
}

#[test]
fn starts_near_uniform() {
    let mut pred = Ssm::new();
    let probs = pred.predict();
    let sum: f32 = probs.iter().sum();
    assert!(
        (sum - 1.0).abs() < 0.01,
        "Probabilities should sum to ~1.0, got {sum}"
    );
    // During warmup (alpha=0), should match RlePredictor
}

#[test]
fn probs_sum_to_one_throughout() {
    let mut pred = Ssm::new();
    let stream: Vec<u8> = vec![0, 1, 0, 3, 0, 0, 5, 0, 0, 0, 3, 0, 1, 4, 2, 0];
    for &b in &stream {
        let probs = pred.predict();
        let sum: f32 = probs.iter().sum();
        assert!(
            (sum - 1.0).abs() < 0.01,
            "Probabilities must sum to ~1.0, got {sum}"
        );
        assert!(
            probs.iter().all(|&p| p >= 0.0),
            "All probabilities must be non-negative"
        );
        pred.update(b);
    }
}

#[test]
fn neural_ssm_adapts_to_run_heavy_stream() {
    let mut pred = Ssm::new();
    // Feed lots of RUNA (0) - typical for BWT+MTF+RLE
    for _ in 0..200 {
        pred.predict();
        pred.update(0);
    }
    let probs = pred.predict();
    // p(RUNA) + p(RUNB) should be high
    let p_run = probs[0] + probs[1];
    assert!(
        p_run > 0.5,
        "After many run symbols, p(run) should be > 0.5, got {p_run}"
    );
}

#[test]
fn ssm_trains_binary_classifiers() {
    let mut pred = Ssm::new();
    // Train on alternating 0, 0, 0, 3 pattern (75% run, 25% literal)
    let pattern: Vec<u8> = (0..400).map(|i| if i % 4 < 3 { 0 } else { 3 }).collect();
    for &b in &pattern {
        pred.predict();
        pred.update(b);
    }
    // SSM should have learned p(run) ~ 0.75
    let (ssm_p_run, _) = pred.ssm_binary_predict();
    assert!(
        ssm_p_run > 0.6,
        "SSM should learn p(run) > 0.6, got {ssm_p_run}"
    );
}

#[test]
fn mixing_starts_at_zero() {
    let pred = Ssm::new();
    assert_eq!(pred.mixing_alpha(), 0.0, "Alpha should be 0 before warmup");
}

#[test]
fn deterministic_predictions() {
    let stream: Vec<u8> = (0..200).map(|i| (i % 5) as u8).collect();

    let mut pred1 = Ssm::new();
    let mut pred2 = Ssm::new();

    for &b in &stream {
        let p1 = pred1.predict();
        let p2 = pred2.predict();
        assert_eq!(p1, p2, "Predictions must be identical for same input");
        pred1.update(b);
        pred2.update(b);
    }
}

#[test]
fn neural_ssm_roundtrip_with_range_coder() {
    let rle_data: Vec<u8> = (0..500)
        .map(|i| match i % 7 {
            0..=2 => 0,
            3 => 1,
            4 => 3,
            5 => 0,
            _ => 5,
        })
        .collect();

    let mut enc = Ssm::new();
    let compressed = encode_block(&rle_data, &mut enc).unwrap();

    let mut dec = Ssm::new();
    let decoded = decode_block(&compressed, rle_data.len(), &mut dec).unwrap();

    assert_eq!(rle_data, decoded);
}

#[test]
fn neural_ssm_reset_restores_initial_state() {
    let mut pred = Ssm::new();
    // Dirty every field by training on varied data
    let dirty: Vec<u8> = (0..200).map(|i| (i * 7 + 3) as u8).collect();
    for &b in &dirty {
        pred.predict();
        pred.update(b);
    }
    pred.reset();

    // Verify field-by-field against a fresh instance
    let mut fresh = Ssm::new();
    assert_eq!(pred.model.floats().h, fresh.model.floats().h, "h mismatch after reset");
    assert_eq!(pred.model.floats().w_run, fresh.model.floats().w_run, "w_run mismatch");
    assert_eq!(pred.model.floats().b_run, fresh.model.floats().b_run, "b_run mismatch");
    assert_eq!(pred.model.floats().w_runa, fresh.model.floats().w_runa, "w_runa mismatch");
    assert_eq!(pred.model.floats().b_runa, fresh.model.floats().b_runa, "b_runa mismatch");
    assert_eq!(pred.model.floats().ssm_perf, fresh.model.floats().ssm_perf, "ssm_perf mismatch");
    assert_eq!(pred.model.floats().rle_perf, fresh.model.floats().rle_perf, "rle_perf mismatch");
    assert_eq!(pred.save_state(), fresh.save_state(), "saved state mismatch");
    assert_eq!(
        pred.last.ssm_p_run, fresh.last.ssm_p_run,
        "last_ssm_p_run mismatch"
    );
    assert_eq!(
        pred.last.ssm_p_runa, fresh.last.ssm_p_runa,
        "last_ssm_p_runa mismatch"
    );
    assert_eq!(
        pred.last.rle_p_run, fresh.last.rle_p_run,
        "last_rle_p_run mismatch"
    );
    assert_eq!(
        pred.last.rle_p_runa, fresh.last.rle_p_runa,
        "last_rle_p_runa mismatch"
    );
    assert_eq!(pred.model.step(), fresh.model.step(), "step mismatch");

    // Prediction equivalence: feed same stream to both, verify identical output
    let stream: Vec<u8> = (0..100).map(|i| (i % 5) as u8).collect();
    for &b in &stream {
        let p1 = pred.predict();
        let p2 = fresh.predict();
        assert_eq!(
            p1, p2,
            "Prediction diverged after reset at step {}",
            pred.model.step()
        );
        pred.update(b);
        fresh.update(b);
    }
}

#[test]
fn save_load_state_roundtrip_preserves_predictions() {
    // Train on varied data so multiple order-2 contexts are non-empty.
    // Empty contexts would not tell counts and totals apart.
    let mut pred = Ssm::new();
    let training: Vec<u8> = (0..5000u32)
        .map(|i| ((i * 31 + i / 7) % 256) as u8)
        .collect();
    for &b in &training {
        pred.predict();
        pred.update(b);
    }

    let state = pred.save_state().expect("ssm supports save_state");
    let mut loaded = Ssm::new();
    assert!(
        loaded.load_state(&state),
        "load_state must accept its own save_state output"
    );

    // Learned tables must survive the round-trip exactly.
    assert_eq!(pred.save_state(), loaded.save_state(), "saved state");
    assert_eq!(pred.model.floats().w_run, loaded.model.floats().w_run, "w_run");
    assert_eq!(pred.model.floats().w_runa, loaded.model.floats().w_runa, "w_runa");
    assert_eq!(pred.model.step(), loaded.model.step(), "step");

    // Behavioral equality: predict() before update() on both so the
    // cached last_* fields are set identically each step.
    let stream: Vec<u8> = (0..300u32).map(|i| (i % 256) as u8).collect();
    for &b in &stream {
        assert_eq!(
            pred.predict(),
            loaded.predict(),
            "prediction diverged after save/load at step {}",
            pred.model.step()
        );
        pred.update(b);
        loaded.update(b);
    }
}

#[test]
fn reset_restores_dict_baseline_not_zero() {
    // Build a representative baseline by training, then capture it.
    let training: Vec<u8> = (0..3000u32)
        .map(|i| ((i * 7 + i / 3) % 256) as u8)
        .collect();
    let mut trained = Ssm::new();
    for &b in &training {
        trained.predict();
        trained.update(b);
    }
    let baseline = trained.save_state().unwrap();

    // Installing the baseline immediately sets state to it.
    let mut pred = Ssm::new();
    assert!(pred.set_coding_baseline(&baseline));
    assert_eq!(pred.save_state().unwrap(), baseline);
    assert_eq!(pred.coding_baseline(), Some(baseline.as_slice()));

    // Dirty the state, then reset() must restore the BASELINE, not zero.
    for &b in b"completely different bytes 12345" {
        pred.predict();
        pred.update(b);
    }
    pred.reset();
    assert_eq!(
        pred.save_state().unwrap(),
        baseline,
        "reset() with a dict baseline must restore the baseline, not zero"
    );

    // Without a baseline, reset() returns to the fresh (zeroed) state.
    let mut plain = Ssm::new();
    plain.update(5);
    plain.reset();
    assert_eq!(
        plain.save_state().unwrap(),
        Ssm::new().save_state().unwrap(),
        "reset() without a baseline must zero the state"
    );
}

#[test]
fn reset_prediction_equivalence() {
    // Full roundtrip: train, reset, retrain - must match fresh predictor
    let stream: Vec<u8> = (0..150).map(|i| (i * 13 + 7) as u8).collect();

    let mut pred = Ssm::new();
    for &b in &stream {
        pred.predict();
        pred.update(b);
    }
    pred.reset();

    let mut fresh = Ssm::new();
    for &b in &stream {
        let p1 = pred.predict();
        let p2 = fresh.predict();
        assert_eq!(p1, p2, "Predictions must match after reset");
        pred.update(b);
        fresh.update(b);
    }
}

#[test]
fn split_merge_roundtrip_width2() {
    let data: Vec<u8> = (0..100).map(|i| i as u8).collect();
    let (planes, tail) = byteplane_split(&data, BytePlaneWidth::Two);
    assert_eq!(planes.len(), 2);
    assert_eq!(planes[0].len(), 50); // even bytes
    assert_eq!(planes[1].len(), 50); // odd bytes
    assert!(tail.is_empty());
    let merged = byteplane_merge(&planes, &tail);
    assert_eq!(merged, data);
}

#[test]
fn split_merge_roundtrip_width4() {
    let data: Vec<u8> = (0..100).map(|i| i as u8).collect();
    let (planes, tail) = byteplane_split(&data, BytePlaneWidth::Four);
    assert_eq!(planes.len(), 4);
    assert_eq!(planes[0].len(), 25);
    assert!(tail.is_empty());
    let merged = byteplane_merge(&planes, &tail);
    assert_eq!(merged, data);
}

#[test]
fn split_merge_with_tail() {
    let data: Vec<u8> = (0..103).map(|i| i as u8).collect();
    let (planes, tail) = byteplane_split(&data, BytePlaneWidth::Four);
    assert_eq!(planes[0].len(), 25); // 100/4 = 25 full elements
    assert_eq!(tail.len(), 3); // 103 % 4 = 3
    let merged = byteplane_merge(&planes, &tail);
    assert_eq!(merged, data);
}

#[test]
fn classify_low_entropy_plane() {
    // Plane of mostly zeros -> should be flagged for compression
    let mut low_entropy = vec![0u8; 1000];
    low_entropy[500] = 1;
    low_entropy[700] = 2;

    let high_entropy: Vec<u8> = (0..1000).map(|i| (i * 97 + 13) as u8).collect();

    let planes = vec![low_entropy, high_entropy];
    let flags = classified(&planes);
    assert_eq!(flags & 1, 1, "low-entropy plane should be flagged");
    assert_eq!(flags & 2, 0, "high-entropy plane should NOT be flagged");
}

#[test]
fn encode_decode_roundtrip_synthetic_floats() {
    // Simulate BF16-like data: exponent bytes cluster, mantissa bytes vary
    let n = 2000;
    let mut data = Vec::with_capacity(n * 2);
    for i in 0..n {
        // Byte 0: exponent-like (clusters around a few values)
        let exp = match i % 10 {
            0..=6 => 0x3F, // ~70% one value
            7..=8 => 0x40, // ~20% another
            _ => 0x3E,     // ~10% another
        };
        // Byte 1: mantissa-like (pseudo-random)
        let mantissa = ((i as u32).wrapping_mul(2654435761) >> 16) as u8;
        data.push(exp);
        data.push(mantissa);
    }

    let encoded = encode_planes(&data, BytePlaneWidth::Two);
    assert!(encoded.is_some(), "synthetic float data should compress");

    let payload = encoded.unwrap();
    assert!(
        payload.len() < data.len(),
        "compressed ({}) should be smaller than original ({})",
        payload.len(),
        data.len()
    );

    let decoded = byteplane_decode(&payload, data.len(), &mut Order0::new()).unwrap();
    assert_eq!(decoded, data, "roundtrip must be lossless");
}

#[test]
fn encode_returns_none_for_random_data() {
    // Truly random data: byte-plane splitting should not help
    let data: Vec<u8> = (0..4000)
        .map(|i| ((i as u32).wrapping_mul(2654435761) >> 8) as u8)
        .collect();
    let result = encode_planes(&data, BytePlaneWidth::Two);
    // May or may not be None depending on pseudo-random distribution,
    // but if it encodes, it must roundtrip
    if let Some(payload) = result {
        let decoded = byteplane_decode(&payload, data.len(), &mut Order0::new()).unwrap();
        assert_eq!(decoded, data);
    }
}

#[test]
fn encode_returns_none_for_small_data() {
    let data = vec![0u8; 32];
    assert!(encode_planes(&data, BytePlaneWidth::Two).is_none());
}

#[test]
fn detect_numeric_finds_float_like_data() {
    // Simulate FP32 data: byte 0 clusters (exponent), bytes 1-3 vary
    let n = 500;
    let mut data = Vec::with_capacity(n * 4);
    for i in 0..n {
        data.push(0x3F); // exponent byte (clustered)
        data.push(((i * 97) % 256) as u8);
        data.push(((i * 53) % 256) as u8);
        data.push(((i * 31) % 256) as u8);
    }

    let width = detect_width(&data);
    assert!(width.is_some(), "should detect numeric data");
}

#[test]
fn detect_numeric_rejects_text() {
    let data = b"The quick brown fox jumps over the lazy dog. ".repeat(50);
    let width = detect_width(&data);
    assert!(width.is_none(), "text should not be detected as numeric");
}

#[test]
fn dictionary_roundtrip() {
    let mut pred = Order0::new();
    // Train on some data
    let data = b"hello world hello world hello";
    for &b in data {
        pred.predict();
        pred.update(b);
    }

    let state = pred.save_state().unwrap();
    let hash = *blake3::hash(&state).as_bytes();
    let dict = Dictionary {
        predictor_id: PredictorId::Order0,
        state,
        hash,
    };

    // Write to buffer
    let mut buf = Vec::new();
    dict.write_to(&mut buf).unwrap();

    // Read back
    let loaded = Dictionary::read_from(&mut ByteReader::new(&buf)).unwrap();
    assert_eq!(loaded.predictor_id, PredictorId::Order0);
    assert_eq!(loaded.hash, dict.hash);
    assert_eq!(loaded.state, dict.state);

    // Apply to fresh predictor
    let mut pred2 = Order0::new();
    loaded.apply(&mut pred2).unwrap();

    // Predictions should match
    let p1 = pred.predict();
    let p2 = pred2.predict();
    for i in 0..256 {
        assert!((p1[i] - p2[i]).abs() < 1e-6, "Mismatch at byte {i}");
    }
}

#[test]
fn dictionary_train_api() {
    let file1 = b"hello world ".to_vec();
    let file2 = b"hello again ".to_vec();

    let mut pred = Order0::new();
    let dict = Dictionary::train(&mut pred, &[file1, file2]).unwrap();

    assert_eq!(dict.predictor_id, PredictorId::Order0);
    assert!(!dict.state.is_empty());

    // Save and reload
    let mut saved = Vec::new();
    dict.write_to(&mut saved).unwrap();
    let loaded = Dictionary::read_from(&mut ByteReader::new(&saved)).unwrap();
    assert_eq!(loaded.hash, dict.hash);
}

#[test]
fn invalid_magic_rejected() {
    let data = b"XXXX\x01\x00\x00\x04\x00\x00\x00";
    let result = Dictionary::read_from(&mut ByteReader::new(&data[..]));
    assert!(result.is_err());
}

#[test]
fn corrupted_hash_rejected() {
    let mut pred = Order0::new();
    for &b in b"test" {
        pred.predict();
        pred.update(b);
    }
    let state = pred.save_state().unwrap();
    let hash = *blake3::hash(&state).as_bytes();
    let dict = Dictionary {
        predictor_id: PredictorId::Order0,
        state,
        hash,
    };

    let mut buf = Vec::new();
    dict.write_to(&mut buf).unwrap();

    // Corrupt a state byte
    if buf.len() > 10 {
        buf[10] ^= 0xFF;
    }

    let result = Dictionary::read_from(&mut ByteReader::new(&buf));
    assert!(result.is_err());
}

#[test]
fn continued_blocks_share_state() {
    let first = b"abcabcabcabcabc";
    let second = b"abcabcabc";
    let mut enc = Order0::new();
    let a = encode_block(first, &mut enc).unwrap();
    let b = encode_block_continuing(second, &mut enc).unwrap();
    let mut dec = Order0::new();
    assert_eq!(decode_block(&a, first.len(), &mut dec).unwrap(), first);
    assert_eq!(
        decode_block_continuing(&b, second.len(), &mut dec).unwrap(),
        second
    );
}

#[test]
fn order0_states_load_as_saved() {
    let mut model = Order0Model::new();
    for b in [3u8, 3, 3, 200, 0] {
        model.update(b);
    }
    let state = model.save_state().unwrap();
    assert_eq!(state.len(), 1025);
    let mut other = Order0Model::new();
    assert!(other.load_state(&state));
    assert_eq!(other.count(3), 4);
    assert_eq!(other.total(), 261);
    // A count of zero, another version and another size are refused.
    let mut zero = state.clone();
    zero[1] = 0;
    assert!(!other.load_state(&zero));
    let mut version = state.clone();
    version[0] = 2;
    assert!(!other.load_state(&version));
    assert!(!other.load_state(&state[..1024]));
    assert_eq!(other.count(3), 4);
}

#[test]
fn order0_table_is_given_up_when_it_overflows() {
    let mut model = Order0Model::new();
    let cdf = model.predict_cdf().unwrap();
    assert_eq!(cdf[1], 128);
    assert_eq!(model.query_cdf(0), Some((0, 128)));
    for _ in 0..100_000 {
        model.update(0);
    }
    assert_eq!(model.predict_cdf(), None);
    assert_eq!(model.query_cdf(7), None);
    // Skewed the other way the table fits.
    let mut model = Order0Model::new();
    for _ in 0..100_000 {
        model.update(255);
    }
    assert!(model.predict_cdf().is_some());
}

#[test]
fn skewed_data_roundtrips_beyond_overflow() {
    let mut data = vec![0u8; 50_000];
    data.extend_from_slice(b"the end");
    let compressed = encode_block(&data, &mut Order0::new()).unwrap();
    assert_eq!(
        decode_block(&compressed, data.len(), &mut Order0::new()).unwrap(),
        data
    );
}

#[test]
fn shared_tables_give_leftovers_by_rank() {
    let mut shares = [0u16; 256];
    shares[7] = 32_500;
    let mut ranking = [0u8; 256];
    for (i, r) in ranking.iter_mut().enumerate() {
        *r = 255 - i as u8;
    }
    // 12 symbols get one more, from 255 down.
    let cdf = shared_cdf(&shares, &ranking);
    assert_eq!(cdf[8] - cdf[7], 32_501);
    assert_eq!(cdf[256] - cdf[255], 2);
    assert_eq!(cdf[245] - cdf[244], 2);
    assert_eq!(cdf[244] - cdf[243], 1);
    assert_eq!(cdf[256], 32_768);
    // Shares beyond the mass lead to the uniform table.
    assert_eq!(shared_cdf(&[1000; 256], &ranking), uniform_cdf());
    assert_eq!(uniform_cdf()[2], 256);
}

#[test]
fn strict_tables_raise_equal_entries() {
    let mut values = [0u16; 256];
    for v in values.iter_mut().skip(128) {
        *v = 16_384;
    }
    let cdf = strict_cdf(&values).unwrap();
    assert_eq!(cdf[1], 1);
    assert_eq!(cdf[127], 127);
    assert_eq!(cdf[128], 16_384);
    assert_eq!(cdf[129], 16_385);
    for v in values.iter_mut().skip(1) {
        *v = 32_768;
    }
    assert_eq!(strict_cdf(&values), None);
}

#[test]
fn reserved_tables_need_rising_shares() {
    let mut scaled = [0u32; 256];
    let cdf = reserved_cdf(&scaled).unwrap();
    assert_eq!(cdf[200], 200);
    assert_eq!(cdf[256], 32_768);
    scaled[255] = 32_512;
    assert_eq!(reserved_cdf(&scaled).unwrap()[255], 32_767);
    scaled[255] = 32_513;
    assert_eq!(reserved_cdf(&scaled), None);
    scaled[255] = 5;
    scaled[254] = 6;
    assert_eq!(reserved_cdf(&scaled), None);
}

#[test]
fn intervals_are_those_of_the_table() {
    let mut scaled = [0u32; 256];
    for (i, share) in scaled.iter_mut().enumerate() {
        *share = (i * i / 2) as u32;
    }
    let cdf = reserved_cdf(&scaled).unwrap();
    for byte in 0..=255u8 {
        let i = byte as usize;
        let through = if byte < 255 { scaled[i + 1] } else { 32_512 };
        assert_eq!(
            reserved_interval(scaled[i], through, byte),
            (cdf[i], cdf[i + 1])
        );
    }
    assert_eq!(reserved_interval(50, 72, 10), (60, 83));
    assert_eq!(reserved_interval(32_512, 0, 255), (32_767, 32_768));
    assert_eq!(reserved_interval(40_000, 40_000, 3), (32_768, 32_768));
}

#[test]
fn saving_after_a_reset_gives_the_baseline() {
    let mut model = NeuralSsmPredictor::new();
    let mut baseline = model.save_state().unwrap();
    let last = baseline.len() - 1;
    baseline[5..9].copy_from_slice(&2.5f32.to_le_bytes());
    baseline[last] = 2;
    assert!(model.set_dict_baseline(&baseline));
    let floats = SsmFloats {
        h: vec![0; 32],
        w_run: vec![0; 32],
        b_run: 0,
        w_runa: vec![0; 32],
        b_runa: 0,
        ssm_perf: 0,
        rle_perf: 0,
    };
    model.update(40, floats);
    assert_ne!(model.save_state().unwrap(), baseline);
    model.reset();
    assert_eq!(model.save_state().unwrap(), baseline);
    // A class that does not exist is taken for the first.
    baseline[last] = 3;
    assert!(model.set_dict_baseline(&baseline));
    model.reset();
    baseline[last] = 0;
    assert_eq!(model.save_state().unwrap(), baseline);
}

#[test]
fn failed_decoding_leaves_the_predictor_where_it_got() {
    let data = b"abracadabra".repeat(40);
    let mut pred = Order0::new();
    let bytes = encode_block(&data, &mut pred).unwrap();
    let trained = pred.model.save_state();

    // Nothing is decoded, so nothing is learned or forgotten.
    assert!(decode_block(&[], 5, &mut pred).is_err());
    assert_eq!(pred.model.save_state(), trained);
    assert!(decode_block(&bytes, usize::MAX, &mut pred).is_err());
    assert_eq!(pred.model.save_state(), trained);

    // A stream that is cut off is noticed after all symbols were learned.
    assert!(decode_block(&bytes[..20], data.len(), &mut pred).is_err());
    let total = pred.model.total();
    pred.model.reset();
    assert_eq!(total, pred.model.total() + data.len() as u32);
}

#[test]
fn rle_states_load_as_saved() {
    let mut model = RlePredictor::new();
    for b in [0u8, 0, 1, 5, 5, 0, 9] {
        model.update(b);
    }
    let state = model.save_state().unwrap();
    assert_eq!(state.len(), 3110);
    let mut other = RlePredictor::new();
    assert!(other.load_state(&state));
    assert_eq!(other.save_state().unwrap(), state);
    let c = other.current();
    assert_eq!(c.lit_total, model.current().lit_total);
    let mut bad = state.clone();
    bad[1] = 0xFF; // more yes than in total
    assert!(!other.load_state(&bad));
    assert_eq!(other.save_state().unwrap(), state);
}

#[test]
fn ssm_states_are_checked() {
    let mut model = NeuralSsmPredictor::new();
    let state = model.save_state().unwrap();
    assert_eq!(state.len(), 1 + 4 * (16_325 + 96) + 10 + 3110);
    assert!(model.load_state(&state));
    let mut bad = state.clone();
    bad[0] = 2; // version
    assert!(!model.load_state(&bad));
    let mut bad = state.clone();
    bad[1] = 20; // dimension
    assert!(!model.load_state(&bad));
    let mut bad = state.clone();
    bad[5..9].copy_from_slice(&6.0f32.to_le_bytes()); // hidden number beyond 5.0
    assert!(!model.load_state(&bad));
    let mut good = state.clone();
    good[5..9].copy_from_slice(&(-5.0f32).to_le_bytes());
    assert!(model.load_state(&good));
    assert_eq!(model.floats().h[0], (-5.0f32).to_bits());
    let mut bad = state.clone();
    bad[5..9].copy_from_slice(&f32::NAN.to_le_bytes());
    assert!(!model.load_state(&bad));
    let mut bad = state.clone();
    bad.push(0); // trailing byte
    assert!(!model.load_state(&bad));
    // What is refused changes nothing.
    assert_eq!(model.save_state().unwrap(), good);
}

#[test]
fn ssm_config_is_brought_within_bounds() {
    let cfg = NeuralSsmConfig {
        d: 99,
        lr: 5.0f32.to_bits(),
        mix_decay: f32::NAN.to_bits(),
        decay_lo: 0.7f32.to_bits(),
        decay_hi: 0.2f32.to_bits(),
        mix_sensitivity: (-1.0f32).to_bits(),
        max_alpha: (-0.5f32).to_bits(),
        ..NeuralSsmConfig::default()
    };
    let used = NeuralSsmPredictor::with_config(cfg).config();
    assert_eq!(used.d, 32);
    assert_eq!(f32::from_bits(used.lr), 1.0);
    assert_eq!(f32::from_bits(used.mix_decay), 0.995);
    assert_eq!(f32::from_bits(used.decay_hi), 0.7);
    assert_eq!(f32::from_bits(used.mix_sensitivity), 100.0);
    assert_eq!(f32::from_bits(used.max_alpha), 0.0);
}

#[test]
fn mixer_falls_back_to_lightweight() {
    let huge = ContextMixerConfig {
        orders: vec![(1, 20), (2, 20)],
        ..ContextMixerConfig::default()
    };
    let mixer = ContextMixer::with_config(huge);
    assert_eq!(mixer.model_count(), 3);
    assert_eq!(mixer.predictor_id(), PredictorId::ContextMixerLight);
    let empty = ContextMixerConfig {
        orders: vec![],
        ..ContextMixerConfig::default()
    };
    assert_eq!(ContextMixer::with_config(empty).model_count(), 3);
    let light = ContextMixer::with_config(ContextMixerConfig::lightweight());
    // The buffer of the context has room for the context and one more.
    assert!(light.memory_usage() >= (4096 + 4096 + 2048) * 512 + 5 + 24);
    assert_eq!(
        light.memory_with_room(100),
        (4096 + 4096 + 2048) * 512 + 100 + 24
    );
    assert_eq!(f64::from_bits(light.learning_rate()), 0.005);
}

#[test]
fn transformed_training_skips_high_entropy() {
    let text = b"the quick brown fox jumps over the lazy dog. ".repeat(40);
    let chunks: Vec<TrainingChunk> = training_chunks(&text)
        .into_iter()
        .map(|c| TrainingChunk {
            data: c.data,
            high_entropy: false,
        })
        .collect();
    assert_eq!(chunks.len(), 1);
    let mut trained = Ssm::new();
    let dict = Dictionary::train_transformed(&mut trained, &chunks).unwrap();
    assert_eq!(dict.predictor_id, PredictorId::NeuralSsm);
    assert!(trained.model.step() > 0);

    let skipped = vec![
        TrainingChunk {
            data: text.clone(),
            high_entropy: true,
        },
        TrainingChunk {
            data: vec![1, 2, 3],
            high_entropy: false,
        },
    ];
    let mut untrained = Ssm::new();
    Dictionary::train_transformed(&mut untrained, &skipped).unwrap();
    assert_eq!(untrained.model.step(), 0);
}

#[test]
fn dictionaries_are_refused_by_other_predictors() {
    let mut pred = Order0::new();
    let dict = Dictionary::train(&mut pred, &[b"abc".to_vec()]).unwrap();
    let error = dict.apply(&mut Rle::new()).unwrap_err();
    assert_eq!(
        error.message(),
        "Decompression error: Dictionary was trained for predictor Order0, but applied to 'Rle'"
    );
    assert!(matches!(
        Dictionary::train(&mut Mtf::new(), &[b"abc".to_vec()]),
        Err(AetherError::Compression(_))
    ));
}

#[test]
fn planes_are_beneficial_for_clustered_bytes() {
    let mut data = Vec::new();
    for i in 0..500u32 {
        data.push(0x3F);
        data.push((i.wrapping_mul(2654435761) >> 16) as u8);
    }
    let width = BytePlaneWidth::Two;
    assert!(is_byteplane_beneficial(&data, width, gain(&data, width)));
    assert!(!is_byteplane_beneficial(&data[..40], width, i64::MAX));
}

#[test]
fn lz_sequences_lead_to_tokens() {
    let mut model = Lz4AwarePredictor::new();
    for b in [0u8; 4] {
        model.update(b);
    }
    assert_eq!(model.state(), Lz4ParseState::Token);
    // 300 literals and a match of 4 + 15 + 255 + 1 bytes.
    model.update(0xFF);
    model.update(255);
    model.update(30);
    assert_eq!(model.state(), Lz4ParseState::Literals { remaining: 300 });
    for i in 0..300u32 {
        model.update((i % 7) as u8);
    }
    model.update(1);
    model.update(0);
    assert_eq!(model.state(), Lz4ParseState::MatchLenExt);
    model.update(255);
    model.update(1);
    assert_eq!(model.state(), Lz4ParseState::Token);
    // A sequence without literals.
    model.update(0x00);
    assert_eq!(model.state(), Lz4ParseState::MatchOffsetLow);
}

#[test]
fn embeddings_are_fixed() {
    assert_eq!(embedding_mantissa(0, 0), embedding_mantissa(0, 0));
    assert_ne!(embedding_mantissa(0, 0), embedding_mantissa(1, 0));
    assert!(embedding_mantissa(255, 31) < 1 << 23);
}

#[test]
fn entropy_of_empty() {
    assert_eq!(shannon_entropy(&[]), 0.0);
}

#[test]
fn entropy_of_uniform() {
    // All same byte -> zero entropy
    let data = vec![0x42u8; 1000];
    assert!((shannon_entropy(&data) - 0.0).abs() < 1e-10);
}

#[test]
fn entropy_of_two_symbols() {
    // Equal mix of two symbols -> 1.0 bit/byte
    let mut data = vec![0u8; 1000];
    data[0..500].fill(1);
    let e = shannon_entropy(&data);
    assert!((e - 1.0).abs() < 0.01, "Expected ~1.0, got {e}");
}

#[test]
fn entropy_of_random_is_high() {
    // All 256 byte values equally -> 8.0 bits/byte
    let mut data = Vec::with_capacity(256 * 100);
    for _ in 0..100 {
        for b in 0u8..=255 {
            data.push(b);
        }
    }
    let e = shannon_entropy(&data);
    assert!((e - 8.0).abs() < 0.01, "Expected ~8.0, got {e}");
}

#[test]
fn chunk_entropy_computed() {
    let data = vec![0u8; 100_000];
    let chunks = chunk_data(&data);
    for chunk in &chunks {
        let entropy = shannon_entropy(&chunk.data);
        assert!(entropy < 0.01, "Uniform data should have ~0 entropy");
    }
}

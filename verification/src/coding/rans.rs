//! Byte-aligned range coder over 15-bit cumulative frequency tables.
//!
//! The encoder narrows an interval of integers with every symbol. Its state is
//! the interval's lower end (the settled bytes and the 32 bits below them) and
//! its width; the output is the lower end of the last interval, written in base
//! 256. The decoder keeps the distance of that number from the lower end.

use crate::bytes::{
    be_bytes, be_value, lemma_be_bytes_index, lemma_be_bytes_len, lemma_be_bytes_of_value,
    lemma_be_value_push, lemma_pow256_add, lemma_pow256_pos, pow256,
};
use crate::entropy::traits::{coded, coded_all, tables_valid, ProbabilityPredictor};
use crate::error::{same_bytes, AetherError, ErrorModel, Result};
use crate::format::MAX_DECOMPRESSED_BLOCK_SIZE;
use crate::text::{decimal, text_around_number, text_around_numbers};
use vstd::arithmetic::div_mod::*;
use vstd::prelude::*;
use vstd::string::*;

verus! {

/// Precision of frequency tables in bits.
pub const PROB_BITS: u32 = 15;

/// Total frequency of a table.
pub const PROB_TOTAL: u32 = 32768;

/// The interval is widened while its width is below this bound.
pub const TOP: u32 = 0x0100_0000;

/// The longest run of bytes that may wait for a carry.
pub const MAX_PENDING: u32 = 0x0100_0000;

/// A cumulative frequency table in which every symbol has a positive frequency
/// and all frequencies together are [`PROB_TOTAL`].
pub open spec fn valid_cdf(cdf: Seq<u16>) -> bool {
    &&& cdf.len() == 257
    &&& cdf[0] == 0
    &&& cdf[256] == PROB_TOTAL
    &&& forall|i: int, j: int| 0 <= i < j <= 256 ==> cdf[i] < cdf[j]
}

// The encoder.

/// The value of an encoder.
pub struct EncoderModel {
    /// The number that the bytes settled so far write, those waiting for a carry included.
    pub prefix: nat,
    /// The part of the lower end below the settled bytes; a carry shows in bit 32.
    pub low: nat,
    /// The width of the interval.
    pub range: nat,
    /// How many bytes are settled.
    pub digits: nat,
    /// How many of them wait for a carry.
    pub pending: nat,
    /// Whether more bytes waited than are allowed to; the other parts are then zero.
    pub overflow: bool,
}

impl EncoderModel {
    /// The encoder before the first symbol.
    pub open spec fn start() -> EncoderModel {
        EncoderModel {
            prefix: 0,
            low: 0,
            range: 0xFFFF_FFFF,
            digits: 1,
            pending: 1,
            overflow: false,
        }
    }

    /// The encoder after too many bytes waited for a carry.
    pub open spec fn lost() -> EncoderModel {
        EncoderModel { prefix: 0, low: 0, range: 0, digits: 0, pending: 0, overflow: true }
    }

    /// The lower end of the interval.
    pub open spec fn value(self) -> nat {
        self.prefix * 0x1_0000_0000 + self.low
    }

    /// One more byte settled. A byte below `0xFF`, and a carry, end the wait.
    pub open spec fn shifted(self) -> EncoderModel {
        let settles = self.low < 0xFF00_0000 || self.low >= 0x1_0000_0000;
        let pending = if settles {
            1
        } else {
            self.pending + 1
        };
        if self.overflow || pending > MAX_PENDING {
            EncoderModel::lost()
        } else {
            EncoderModel {
                prefix: self.prefix * 256 + self.low / 0x0100_0000,
                low: (self.low % 0x0100_0000) * 256,
                range: self.range,
                digits: self.digits + 1,
                pending,
                overflow: false,
            }
        }
    }

    /// The same encoder with another width.
    pub open spec fn with_range(self, range: nat) -> EncoderModel {
        if self.overflow {
            self
        } else {
            EncoderModel { range, ..self }
        }
    }

    /// Bytes settled until the interval is wide enough.
    pub open spec fn renormalized(self) -> EncoderModel
        decreases
            if self.range < TOP {
                TOP - self.range
            } else {
                0
            },
    {
        if self.overflow || self.range == 0 || self.range >= TOP {
            self
        } else if self.shifted().overflow {
            EncoderModel::lost()
        } else {
            self.shifted().with_range(self.range * 256).renormalized()
        }
    }

    /// The interval narrowed to `[cum, cum + freq)` of [`PROB_TOTAL`].
    pub open spec fn narrowed(self, cum: nat, freq: nat) -> EncoderModel {
        if self.overflow {
            self
        } else {
            EncoderModel {
                low: self.low + cum * (self.range / PROB_TOTAL as nat),
                range: freq * (self.range / PROB_TOTAL as nat),
                ..self
            }
        }
    }

    /// The encoder after the symbol with the table interval `[cum, cum + freq)`.
    pub open spec fn encoded(self, cum: nat, freq: nat) -> EncoderModel {
        self.narrowed(cum, freq).renormalized()
    }

    /// The encoder after the symbol `s` of the table `cdf`.
    pub open spec fn encoded_symbol(self, s: u8, cdf: Seq<u16>) -> EncoderModel {
        self.encoded(cdf[s as int] as nat, (cdf[s + 1] - cdf[s as int]) as nat)
    }

    /// All bytes of the lower end settled.
    pub open spec fn flushed(self) -> EncoderModel {
        self.shifted().shifted().shifted().shifted().shifted()
    }
}

/// The text of the failure when too many bytes waited for a carry.
pub open spec fn cache_overflow_text() -> Seq<char> {
    "range encoder cache overflow: pathological predictor produced corrupt output"@
}

/// Byte-aligned range encoder with carry propagation.
pub struct RangeEncoder {
    low: u64,
    range: u32,
    cache: u8,
    cache_size: u32,
    output: Vec<u8>,
    cache_overflow: bool,
}

/// The number written by `output`, `cache` and `size - 1` bytes `0xFF`.
spec fn settled_value(output: Seq<u8>, cache: u8, size: nat) -> int {
    (be_value(output) * 256 + cache) * pow256((size - 1) as nat) + pow256((size - 1) as nat) - 1
}

impl View for RangeEncoder {
    type V = EncoderModel;

    closed spec fn view(&self) -> EncoderModel {
        if self.cache_overflow {
            EncoderModel::lost()
        } else {
            EncoderModel {
                prefix: settled_value(self.output@, self.cache, self.cache_size as nat) as nat,
                low: self.low as nat,
                range: self.range as nat,
                digits: (self.output@.len() + self.cache_size) as nat,
                pending: self.cache_size as nat,
                overflow: false,
            }
        }
    }
}

impl RangeEncoder {
    /// The bounds within which a carry never runs past the waiting bytes, for an
    /// interval of width `range`.
    spec fn carry_safe(&self, range: int) -> bool {
        &&& 1 <= self.cache_size <= MAX_PENDING
        &&& self.low + range <= 0x2_0000_0000
        &&& !self.cache_overflow && self.cache == 0xFF ==> self.low + range <= 0x1_0000_0000
    }

    /// The encoder is between two symbols.
    pub closed spec fn wf(&self) -> bool {
        &&& self.carry_safe(self.range as int)
        &&& self.range >= TOP
    }

    pub fn new() -> (r: RangeEncoder)
        ensures
            r.wf(),
            r@ == EncoderModel::start(),
    {
        let r = RangeEncoder {
            low: 0,
            range: 0xFFFF_FFFF,
            cache: 0,
            cache_size: 1,
            output: Vec::new(),
            cache_overflow: false,
        };
        proof {
            lemma_settled_single(r.output@, 0);
        }
        r
    }

    /// Settles one byte, resolving the waiting bytes when the carry is known.
    fn shift_low(&mut self)
        requires
            old(self).carry_safe(old(self).range as int),
            old(self).range > 0,
        ensures
            final(self).carry_safe(final(self).range as int),
            old(self).range < TOP ==> final(self).carry_safe(final(self).range * 256),
            final(self).range == old(self).range,
            final(self)@ == old(self)@.shifted(),
    {
        let ghost before = *self;
        let low = self.low;
        proof {
            lemma_low_parts(low);
        }
        let low_hi: u8 = (self.low >> 32) as u8;
        if (self.low as u32) < 0xFF00_0000 || low_hi != 0 {
            assert(!self.cache_overflow ==> self.cache + low_hi <= 255);
            let first: u8 = self.cache.wrapping_add(low_hi);
            self.output.push(first);
            let fill: u8 = 0xFFu8.wrapping_add(low_hi);
            let count: u32 = self.cache_size - 1;
            let ghost base = be_value(self.output@);
            proof {
                lemma_be_value_push(before.output@, first);
                assert(pow256(0) == 1);
            }
            let mut k: u32 = 0;
            while k < count
                invariant
                    k <= count,
                    fill == if low_hi == 0 { 255u8 } else { 0u8 },
                    be_value(self.output@) == base * pow256(k as nat) + (if low_hi == 0 {
                        pow256(k as nat) - 1
                    } else {
                        0
                    }),
                    self.output@.len() == before.output@.len() + 1 + k,
                    *self == (RangeEncoder { output: self.output, ..before }),
                decreases count - k,
            {
                proof {
                    lemma_be_value_push(self.output@, fill);
                    let p = pow256(k as nat);
                    assert(pow256((k + 1) as nat) == 256 * p);
                    assert(base * (256 * p) == (base * p) * 256) by (nonlinear_arith);
                }
                self.output.push(fill);
                k = k + 1;
            }
            proof {
                if !before.cache_overflow {
                    lemma_settle(
                        before.output@,
                        self.output@,
                        before.cache,
                        before.cache_size as nat,
                        low_hi,
                    );
                }
            }
            self.cache = (self.low >> 24) as u8;
            self.cache_size = 0;
        } else {
            proof {
                let p = pow256((before.cache_size - 1) as nat);
                let v = be_value(before.output@) * 256 + before.cache as nat;
                assert(pow256(before.cache_size as nat) == 256 * p);
                assert(v * (256 * p) == (v * p) * 256) by (nonlinear_arith);
            }
        }
        self.cache_size = self.cache_size + 1;
        if self.cache_size > MAX_PENDING {
            self.cache_overflow = true;
            self.output.push(self.cache);
            let count: u32 = self.cache_size - 2;
            let ghost stuck = *self;
            let mut k: u32 = 0;
            while k < count
                invariant
                    k <= count,
                    *self == (RangeEncoder { output: self.output, ..stuck }),
                decreases count - k,
            {
                self.output.push(0xFF);
                k = k + 1;
            }
            self.cache = (self.low >> 24) as u8;
            self.cache_size = 1;
        }
        self.low = ((self.low as u32) << 8) as u64;
        proof {
            if !before.cache_overflow {
                lemma_settled_single(self.output@, self.cache);
                lemma_settled_nonneg(before.output@, before.cache, before.cache_size as nat);
            }
        }
    }

    /// Settles all bytes of the lower end.
    #[verifier::rlimit(40)]
    fn flush(&mut self)
        requires
            old(self).carry_safe(old(self).range as int),
            old(self).range > 0,
        ensures
            final(self).carry_safe(final(self).range as int),
            final(self)@ == old(self)@.flushed(),
    {
        self.shift_low();
        self.shift_low();
        self.shift_low();
        self.shift_low();
        self.shift_low();
    }

    /// Writes the rest of the number and returns all of its bytes.
    ///
    /// Fails when more bytes had to wait for a carry than are allowed to.
    #[verifier::rlimit(40)]
    pub fn finish(self) -> (r: std::result::Result<Vec<u8>, &'static str>)
        requires
            self.wf(),
        ensures
            match r {
                Ok(bytes) => !self@.flushed().overflow && bytes@ == be_bytes(
                    self@.value(),
                    self@.digits + 4,
                ),
                Err(text) => self@.flushed().overflow && text@ == cache_overflow_text(),
            },
    {
        let mut enc = self;
        enc.flush();
        if enc.cache_overflow {
            Err("range encoder cache overflow: pathological predictor produced corrupt output")
        } else {
            proof {
                lemma_flush(self@);
                lemma_be_bytes_of_value(enc.output@);
                lemma_settled_single(enc.output@, enc.cache);
            }
            Ok(enc.output)
        }
    }

    /// Encodes `symbol` with the table `cdf`.
    pub fn encode_cdf(&mut self, symbol: u8, cdf: &[u16; 257])
        requires
            old(self).wf(),
            cdf@[symbol as int] < cdf@[symbol + 1] <= PROB_TOTAL,
        ensures
            final(self).wf(),
            final(self)@ == old(self)@.encoded_symbol(symbol, cdf@),
    {
        let s: usize = symbol as usize;
        let cum: u32 = cdf[s] as u32;
        let freq: u32 = (cdf[s + 1] - cdf[s]) as u32;
        let r: u32 = self.range / PROB_TOTAL;
        proof {
            lemma_narrow_bounds(self.range as int, cum as int, freq as int);
        }
        let ghost narrow = self@.narrowed(cum as nat, freq as nat);
        self.low = self.low + cum as u64 * r as u64;
        self.range = freq * r;
        assert(self@ == narrow);
        while self.range < TOP
            invariant
                self.range > 0,
                self.carry_safe(self.range as int),
                self@.renormalized() == narrow.renormalized(),
            decreases
                if self.range < TOP {
                    TOP - self.range
                } else {
                    0
                },
        {
            let ghost before = *self;
            self.shift_low();
            let ghost range = self.range;
            proof {
                assert(range < 0x0100_0000 ==> (range << 8u32) == range * 256) by (bit_vector);
            }
            self.range = self.range << 8;
            assert(self@ == before@.shifted().with_range((range * 256) as nat));
        }
    }
}

impl Default for RangeEncoder {
    fn default() -> (r: RangeEncoder)
        ensures
            r.wf(),
            r@ == EncoderModel::start(),
    {
        RangeEncoder::new()
    }
}

/// The parts of the lower end that settling a byte reads.
proof fn lemma_low_parts(low: u64)
    requires
        low < 0x2_0000_0000,
    ensures
        (low >> 32) as u8 == low / 0x1_0000_0000,
        (low as u32) == low % 0x1_0000_0000,
        (low >> 24) as u8 == (low / 0x0100_0000) % 256,
        (((low as u32) << 8) as u64) == (low % 0x0100_0000) * 256,
{
    assert((low >> 32) as u8 == low / 0x1_0000_0000) by (bit_vector)
        requires
            low < 0x2_0000_0000,
    ;
    assert((low as u32) == low % 0x1_0000_0000) by (bit_vector);
    assert((low >> 24) as u8 == (low / 0x0100_0000) % 256) by (bit_vector);
    assert((((low as u32) << 8) as u64) == (low % 0x0100_0000) * 256) by (bit_vector);
}

/// The bytes that were waiting, written out with the carry, are the settled number
/// plus the carry.
proof fn lemma_settle(old_output: Seq<u8>, output: Seq<u8>, cache: u8, size: nat, carry: u8)
    requires
        size >= 1,
        carry <= 1,
        be_value(output) == (be_value(old_output) * 256 + (cache + carry)) * pow256(
            (size - 1) as nat,
        ) + (if carry == 0 {
            pow256((size - 1) as nat) - 1
        } else {
            0
        }),
    ensures
        be_value(output) == settled_value(old_output, cache, size) + carry,
{
    let p = pow256((size - 1) as nat) as int;
    let v = (be_value(old_output) * 256 + cache) as int;
    assert((v + carry as int) * p == v * p + carry as int * p) by (nonlinear_arith);
    if carry == 1 {
        assert(1 * p == p);
    } else {
        assert(0 * p == 0);
    }
    lemma_pow256_pos((size - 1) as nat);
}

proof fn lemma_settled_single(output: Seq<u8>, cache: u8)
    ensures
        settled_value(output, cache, 1) == be_value(output) * 256 + cache,
{
    let v = (be_value(output) * 256 + cache) as int;
    assert(pow256(0) == 1);
    assert(v * 1 == v);
}

proof fn lemma_settled_nonneg(output: Seq<u8>, cache: u8, size: nat)
    ensures
        settled_value(output, cache, size) >= 0,
{
    let v = (be_value(output) * 256 + cache) as int;
    let p = pow256((size - 1) as nat) as int;
    lemma_pow256_pos((size - 1) as nat);
    assert(v * p >= 0) by (nonlinear_arith)
        requires
            v >= 0,
            p >= 0,
    ;
}

/// Settling a byte multiplies the lower end by 256.
proof fn lemma_shift_value(m: EncoderModel)
    requires
        !m.shifted().overflow,
    ensures
        m.shifted().value() == m.value() * 256,
        m.shifted().digits == m.digits + 1,
        m.shifted().range == m.range,
{
}

/// Settling five bytes leaves nothing of the lower end below them.
proof fn lemma_flush(m: EncoderModel)
    requires
        !m.flushed().overflow,
        m.low < 0x2_0000_0000,
    ensures
        m.flushed().low == 0,
        m.flushed().pending == 1,
        m.flushed().digits == m.digits + 5,
        m.flushed().prefix == m.value() * 256,
{
    let m1 = m.shifted();
    let m2 = m1.shifted();
    let m3 = m2.shifted();
    let m4 = m3.shifted();
    let m5 = m4.shifted();
    lemma_shift_value(m);
    lemma_shift_value(m1);
    lemma_shift_value(m2);
    lemma_shift_value(m3);
    lemma_shift_value(m4);
}

/// A symbol's interval lies inside the interval it is cut from.
proof fn lemma_narrow_bounds(range: int, cum: int, freq: int)
    requires
        TOP <= range <= 0xFFFF_FFFF,
        0 <= cum,
        0 < freq,
        cum + freq <= PROB_TOTAL,
    ensures
        512 <= range / 32768 <= 131071,
        0 <= cum * (range / 32768),
        freq * (range / 32768) >= 512,
        cum * (range / 32768) + freq * (range / 32768) <= range,
        freq * (range / 32768) <= range,
{
    let r = range / 32768;
    assert(cum * r + freq * r == (cum + freq) * r) by (nonlinear_arith);
    assert((cum + freq) * r <= 32768 * r) by (nonlinear_arith)
        requires
            cum + freq <= 32768,
            r >= 0,
    ;
    assert(freq * r >= r) by (nonlinear_arith)
        requires
            freq >= 1,
            r >= 0,
    ;
    assert(cum * r >= 0) by (nonlinear_arith)
        requires
            cum >= 0,
            r >= 0,
    ;
}


// The decoder.

/// The byte at `i` of an input that zeros follow.
pub open spec fn stream_byte(input: Seq<u8>, i: int) -> u8 {
    if 0 <= i < input.len() {
        input[i]
    } else {
        0
    }
}

/// The first `n` bytes of an input that zeros follow.
pub open spec fn stream_head(input: Seq<u8>, n: nat) -> Seq<u8> {
    Seq::new(n, |i: int| stream_byte(input, i))
}

/// The symbol of `cdf` whose interval holds `f`.
pub open spec fn cdf_symbol(cdf: Seq<u16>, f: nat) -> u8 {
    choose|s: u8| cdf[s as int] <= f < #[trigger] cdf[s + 1]
}

/// The value of a decoder.
pub struct DecoderModel {
    /// The distance of the coded number from the lower end of the interval.
    pub code: nat,
    /// The width of the interval.
    pub range: nat,
    /// How many bytes were read.
    pub consumed: nat,
}

impl DecoderModel {
    /// The decoder before the first symbol: five bytes read, the first of them
    /// outside the 32 bits kept.
    pub open spec fn start(input: Seq<u8>) -> DecoderModel {
        DecoderModel {
            code: be_value(stream_head(input, 5)) % 0x1_0000_0000,
            range: 0xFFFF_FFFF,
            consumed: 5,
        }
    }

    /// One more byte read.
    pub open spec fn refilled(self, input: Seq<u8>) -> DecoderModel {
        DecoderModel {
            code: (self.code * 256) % 0x1_0000_0000 + stream_byte(
                input,
                self.consumed as int,
            ) as nat,
            range: self.range * 256,
            consumed: self.consumed + 1,
        }
    }

    /// Bytes read until the interval is wide enough.
    pub open spec fn renormalized(self, input: Seq<u8>) -> DecoderModel
        decreases
            if self.range < TOP {
                TOP - self.range
            } else {
                0
            },
    {
        if self.range == 0 || self.range >= TOP {
            self
        } else {
            self.refilled(input).renormalized(input)
        }
    }

    /// The symbol that comes next with the table `cdf`.
    pub open spec fn symbol(self, cdf: Seq<u16>) -> u8 {
        let f = self.code / (self.range / PROB_TOTAL as nat);
        cdf_symbol(
            cdf,
            if f < PROB_TOTAL {
                f
            } else {
                (PROB_TOTAL - 1) as nat
            },
        )
    }

    /// The interval narrowed to that of the symbol `s` of `cdf`.
    pub open spec fn narrowed(self, s: u8, cdf: Seq<u16>) -> DecoderModel {
        let r = self.range / PROB_TOTAL as nat;
        DecoderModel {
            code: (self.code - cdf[s as int] * r) as nat,
            range: ((cdf[s + 1] - cdf[s as int]) * r) as nat,
            consumed: self.consumed,
        }
    }

    /// The decoder after the next symbol.
    pub open spec fn decoded(self, cdf: Seq<u16>, input: Seq<u8>) -> DecoderModel {
        self.narrowed(self.symbol(cdf), cdf).renormalized(input)
    }

    /// How many zeros were read past the end of an input of `len` bytes.
    pub open spec fn overread(self, len: nat) -> nat {
        if self.consumed > len {
            (self.consumed - len) as nat
        } else {
            0
        }
    }
}

/// Byte-aligned range decoder, matched to [`RangeEncoder`].
pub struct RangeDecoder<'a> {
    code: u32,
    range: u32,
    input: &'a [u8],
    pos: usize,
    eof_overread: usize,
}

impl View for RangeDecoder<'_> {
    type V = DecoderModel;

    closed spec fn view(&self) -> DecoderModel {
        DecoderModel {
            code: self.code as nat,
            range: self.range as nat,
            consumed: (self.pos + self.eof_overread) as nat,
        }
    }
}

impl<'a> RangeDecoder<'a> {
    /// The bytes that are decoded.
    pub closed spec fn input(&self) -> Seq<u8> {
        self.input@
    }

    /// Zeros are read only past the end.
    spec fn reading(&self) -> bool {
        &&& self.pos <= self.input@.len()
        &&& self.eof_overread > 0 ==> self.pos == self.input@.len()
    }

    /// The decoder is between two symbols.
    pub closed spec fn wf(&self) -> bool {
        &&& self.reading()
        &&& self.range >= TOP
    }

    pub fn new(data: &'a [u8]) -> (r: RangeDecoder<'a>)
        ensures
            r.wf(),
            r.input() == data@,
            r@ == DecoderModel::start(data@),
    {
        let mut dec = RangeDecoder {
            code: 0,
            range: 0xFFFF_FFFF,
            input: data,
            pos: 0,
            eof_overread: 0,
        };
        let mut k: usize = 0;
        while k < 5
            invariant
                k <= 5,
                dec.reading(),
                dec.input == data,
                dec.range == 0xFFFF_FFFF,
                dec.pos + dec.eof_overread == k,
                dec.code == be_value(stream_head(data@, k as nat)) % 0x1_0000_0000,
            decreases 5 - k,
        {
            proof {
                let head = stream_head(data@, k as nat);
                let b = stream_byte(data@, k as int);
                assert(stream_head(data@, (k + 1) as nat) =~= head.push(b));
                lemma_be_value_push(head, b);
                lemma_code_step(be_value(head), b as nat);
                lemma_refill_bits(dec.code, b);
            }
            dec.code = (dec.code << 8) | dec.read_byte() as u32;
            k = k + 1;
        }
        dec
    }

    fn read_byte(&mut self) -> (b: u8)
        requires
            old(self).reading(),
            old(self).eof_overread < usize::MAX,
        ensures
            b == stream_byte(old(self).input@, old(self).pos + old(self).eof_overread),
            final(self).reading(),
            final(self).input == old(self).input,
            final(self).code == old(self).code,
            final(self).range == old(self).range,
            final(self).pos + final(self).eof_overread == old(self).pos + old(self).eof_overread
                + 1,
            final(self).eof_overread <= old(self).eof_overread + 1,
    {
        if self.pos < self.input.len() {
            let b: u8 = self.input[self.pos];
            self.pos = self.pos + 1;
            b
        } else {
            self.eof_overread = self.eof_overread + 1;
            0
        }
    }

    /// How many zeros were read past the end of the input.
    pub fn overread(&self) -> (n: usize)
        requires
            self.wf(),
        ensures
            n == self@.overread(self.input().len()),
    {
        self.eof_overread
    }

    /// Decodes one symbol with the table `cdf`.
    pub fn decode_cdf(&mut self, cdf: &[u16; 257]) -> (symbol: u8)
        requires
            old(self).wf(),
            valid_cdf(cdf@),
            old(self)@.overread(old(self).input().len()) + 2 <= usize::MAX,
        ensures
            symbol == old(self)@.symbol(cdf@),
            final(self)@ == old(self)@.decoded(cdf@, old(self).input()),
            final(self).wf(),
            final(self).input() == old(self).input(),
            final(self)@.consumed <= old(self)@.consumed + 2,
    {
        let r: u32 = self.range / PROB_TOTAL;
        let quotient: u32 = self.code / r;
        let freq: u32 = if quotient < PROB_TOTAL {
            quotient
        } else {
            PROB_TOTAL - 1
        };
        let mut lo: usize = 0;
        let mut hi: usize = 256;
        while lo < hi
            invariant
                valid_cdf(cdf@),
                freq < PROB_TOTAL,
                lo <= hi <= 256,
                cdf@[lo as int] <= freq,
                hi == 256 || cdf@[hi + 1] > freq,
            decreases hi - lo,
        {
            proof {
                let total = (lo + hi) as usize;
                assert(total >> 1 == total / 2) by (bit_vector);
            }
            let mid: usize = (lo + hi) >> 1;
            if (cdf[mid + 1] as u32) <= freq {
                lo = mid + 1;
            } else {
                hi = mid;
            }
        }
        let cum: u32 = cdf[lo] as u32;
        let sym_freq: u32 = (cdf[lo + 1] - cdf[lo]) as u32;
        proof {
            lemma_cdf_symbol(cdf@, freq as nat, lo as u8);
            lemma_narrow_bounds(self.range as int, cum as int, sym_freq as int);
            assert(cum * r <= self.code) by (nonlinear_arith)
                requires
                    cum <= freq,
                    freq <= self.code / r,
                    r > 0,
            ;
        }
        let ghost narrow = self@.narrowed(lo as u8, cdf@);
        self.code = self.code - cum * r;
        self.range = sym_freq * r;
        let ghost mut added: int = 0;
        while self.range < TOP
            invariant
                self.reading(),
                self.input == old(self).input,
                self@.renormalized(self.input@) == narrow.renormalized(self.input@),
                0 <= added <= 2,
                self.range >= if added == 0 {
                    512
                } else if added == 1 {
                    131072
                } else {
                    0x0100_0000int
                },
                self@.consumed == old(self)@.consumed + added,
                old(self)@.overread(old(self).input().len()) + 2 <= usize::MAX,
            decreases
                if self.range < TOP {
                    TOP - self.range
                } else {
                    0
                },
        {
            let ghost before = self@;
            let ghost range = self.range;
            proof {
                lemma_refill_bits(self.code, stream_byte(self.input@, before.consumed as int));
                assert(range < 0x0100_0000 ==> (range << 8u32) == range * 256) by (bit_vector);
                added = added + 1;
            }
            self.code = (self.code << 8) | self.read_byte() as u32;
            self.range = self.range << 8;
            assert(self@ == before.refilled(self.input@));
        }
        lo as u8
    }
}

/// What shifting a byte into the 32 code bits computes.
proof fn lemma_refill_bits(code: u32, b: u8)
    ensures
        (code << 8) | b as u32 == (code * 256) % 0x1_0000_0000 + b,
{
    assert((code << 8) | b as u32 == (code * 256) % 0x1_0000_0000 + b) by (bit_vector);
}

/// Appending a byte and keeping 32 bits, either way round.
proof fn lemma_code_step(v: nat, b: nat)
    requires
        b < 256,
    ensures
        ((v % 0x1_0000_0000) * 256) % 0x1_0000_0000 + b == (v * 256 + b) % 0x1_0000_0000,
{
    let m: int = 0x1_0000_0000;
    let high = v as int / 0x100_0000;
    let low = v as int % 0x100_0000;
    let kept = high - 256 * (v as int / m);
    assert(v == high * 0x100_0000 + low);
    assert(v as int % m == kept * 0x100_0000 + low);
    lemma_fundamental_div_mod_converse((v as int % m) * 256, m, kept, low * 256);
    lemma_fundamental_div_mod_converse((v * 256 + b) as int, m, high, low * 256 + b);
}

/// Exactly one symbol's interval holds a frequency.
proof fn lemma_cdf_symbol(cdf: Seq<u16>, f: nat, s: u8)
    requires
        valid_cdf(cdf),
        cdf[s as int] <= f < cdf[s + 1],
    ensures
        cdf_symbol(cdf, f) == s,
{
    let t = cdf_symbol(cdf, f);
    assert(cdf[t as int] <= f < cdf[t + 1]);
    if t < s {
        assert(t + 1 == s || cdf[t + 1] < cdf[s as int]);
    } else if s < t {
        assert(s + 1 == t || cdf[s + 1] < cdf[t as int]);
    }
}

// Blocks.

/// The encoder after all of `data`, with the tables of a predictor that starts in `m`.
pub open spec fn encode_from<P: ProbabilityPredictor>(
    enc: EncoderModel,
    m: P::Model,
    data: Seq<u8>,
) -> EncoderModel
    decreases data.len(),
{
    if data.len() == 0 {
        enc
    } else {
        encode_from::<P>(
            enc.encoded_symbol(data[0], P::cdf_of(m)),
            coded::<P>(m, data[0]),
            data.drop_first(),
        )
    }
}

/// What encoding `data` gives, for a predictor that starts in `m`.
pub open spec fn encode_outcome<P: ProbabilityPredictor>(
    m: P::Model,
    data: Seq<u8>,
) -> std::result::Result<Seq<u8>, ErrorModel> {
    let enc = encode_from::<P>(EncoderModel::start(), m, data);
    if data.len() == 0 {
        Ok(Seq::empty())
    } else if enc.flushed().overflow {
        Err(ErrorModel::Compression(cache_overflow_text()))
    } else {
        Ok(be_bytes(enc.value(), enc.digits + 4))
    }
}

/// The symbols that `n` decoding steps give, and the states they end in.
pub open spec fn decode_from<P: ProbabilityPredictor>(
    dec: DecoderModel,
    m: P::Model,
    input: Seq<u8>,
    n: nat,
) -> (Seq<u8>, DecoderModel)
    decreases n,
{
    if n == 0 {
        (Seq::empty(), dec)
    } else {
        let cdf = P::cdf_of(m);
        let s = dec.symbol(cdf);
        let rest = decode_from::<P>(
            dec.decoded(cdf, input),
            coded::<P>(m, s),
            input,
            (n - 1) as nat,
        );
        (seq![s] + rest.0, rest.1)
    }
}

/// What decoding `n` bytes from `input` gives, for a predictor that starts in `m`.
pub open spec fn decode_outcome<P: ProbabilityPredictor>(
    m: P::Model,
    input: Seq<u8>,
    n: nat,
) -> std::result::Result<Seq<u8>, ErrorModel> {
    let (symbols, dec) = decode_from::<P>(DecoderModel::start(input), m, input, n);
    if n == 0 {
        Ok(Seq::empty())
    } else if input.len() == 0 {
        Err(
            ErrorModel::Decompression("Empty compressed data for non-zero expected length"@),
        )
    } else if n > MAX_DECOMPRESSED_BLOCK_SIZE {
        Err(
            ErrorModel::Decompression(
                "Decode size "@ + decimal(n) + " exceeds safety limit "@ + decimal(
                    MAX_DECOMPRESSED_BLOCK_SIZE as nat,
                ) + ""@,
            ),
        )
    } else if dec.overread(input.len()) > 5 {
        Err(
            ErrorModel::Decompression(
                "Range decoder read "@ + decimal(dec.overread(input.len()))
                    + " bytes past end of input (truncated stream?)"@,
            ),
        )
    } else {
        Ok(symbols)
    }
}

/// The state in which coding a block starts.
pub open spec fn block_start<P: ProbabilityPredictor>(m: P::Model, reset: bool) -> P::Model {
    if reset {
        P::reset_of(m)
    } else {
        m
    }
}

/// The state of a predictor that was in `m`, after `n` bytes were decoded from `input` or
/// could not be. Where nothing is decoded it is left alone; where the input turns out to be
/// cut off, all the symbols were coded before that was noticed.
pub open spec fn model_after_decoding<P: ProbabilityPredictor>(
    m: P::Model,
    reset: bool,
    input: Seq<u8>,
    n: nat,
) -> P::Model {
    let start = block_start::<P>(m, reset);
    if n == 0 || input.len() == 0 || n > MAX_DECOMPRESSED_BLOCK_SIZE {
        m
    } else {
        coded_all::<P>(
            start,
            decode_from::<P>(DecoderModel::start(input), start, input, n).0,
        )
    }
}

/// Encodes a block; the predictor is reset first.
pub fn encode_block<P: ProbabilityPredictor>(data: &[u8], predictor: &mut P) -> (r: Result<Vec<u8>>)
    ensures
        same_bytes(r, encode_outcome::<P>(P::reset_of(old(predictor).model()), data@)),
        data@.len() > 0 ==> tables_valid::<P>(P::reset_of(old(predictor).model()), data@),
        final(predictor).model() == if data@.len() == 0 {
            old(predictor).model()
        } else {
            coded_all::<P>(P::reset_of(old(predictor).model()), data@)
        },
{
    encode_block_inner(data, predictor, true)
}

/// Encodes a block with the predictor as the previous block left it.
pub fn encode_block_continuing<P: ProbabilityPredictor>(data: &[u8], predictor: &mut P) -> (r:
    Result<Vec<u8>>)
    ensures
        same_bytes(r, encode_outcome::<P>(old(predictor).model(), data@)),
        tables_valid::<P>(old(predictor).model(), data@),
        final(predictor).model() == coded_all::<P>(old(predictor).model(), data@),
{
    encode_block_inner(data, predictor, false)
}

fn encode_block_inner<P: ProbabilityPredictor>(
    data: &[u8],
    predictor: &mut P,
    reset: bool,
) -> (r: Result<Vec<u8>>)
    ensures
        same_bytes(r, encode_outcome::<P>(block_start::<P>(old(predictor).model(), reset), data@)),
        data@.len() > 0 ==> tables_valid::<P>(
            block_start::<P>(old(predictor).model(), reset),
            data@,
        ),
        final(predictor).model() == if data@.len() == 0 {
            old(predictor).model()
        } else {
            coded_all::<P>(block_start::<P>(old(predictor).model(), reset), data@)
        },
{
    if data.len() == 0 {
        return Ok(Vec::new());
    }
    if reset {
        predictor.reset();
    }
    let ghost m0 = block_start::<P>(old(predictor).model(), reset);
    let mut enc = RangeEncoder::new();
    let mut i: usize = 0;
    assert(data@.subrange(0, data@.len() as int) =~= data@);
    while i < data.len()
        invariant
            i <= data@.len(),
            enc.wf(),
            encode_from::<P>(EncoderModel::start(), m0, data@) == encode_from::<P>(
                enc@,
                predictor.model(),
                data@.subrange(i as int, data@.len() as int),
            ),
            tables_valid::<P>(m0, data@) == tables_valid::<P>(
                predictor.model(),
                data@.subrange(i as int, data@.len() as int),
            ),
            coded_all::<P>(m0, data@) == coded_all::<P>(
                predictor.model(),
                data@.subrange(i as int, data@.len() as int),
            ),
        decreases data@.len() - i,
    {
        let ghost rest = data@.subrange(i as int, data@.len() as int);
        let byte: u8 = data[i];
        let cdf = predictor.predict_cdf();
        enc.encode_cdf(byte, &cdf);
        predictor.update(byte);
        i = i + 1;
        assert(rest.drop_first() =~= data@.subrange(i as int, data@.len() as int));
    }
    match enc.finish() {
        Ok(bytes) => Ok(bytes),
        Err(text) => Err(AetherError::Compression(text.to_string())),
    }
}

/// Decodes a block of `expected_len` bytes; the predictor is reset first.
pub fn decode_block<P: ProbabilityPredictor>(
    compressed: &[u8],
    expected_len: usize,
    predictor: &mut P,
) -> (r: Result<Vec<u8>>)
    ensures
        same_bytes(
            r,
            decode_outcome::<P>(
                P::reset_of(old(predictor).model()),
                compressed@,
                expected_len as nat,
            ),
        ),
        final(predictor).model() == model_after_decoding::<P>(
            old(predictor).model(),
            true,
            compressed@,
            expected_len as nat,
        ),
        r matches Ok(bytes) ==> final(predictor).model() == if expected_len == 0 {
            old(predictor).model()
        } else {
            coded_all::<P>(P::reset_of(old(predictor).model()), bytes@)
        },
{
    decode_block_inner(compressed, expected_len, predictor, true)
}

/// Decodes a block with the predictor as the previous block left it.
pub fn decode_block_continuing<P: ProbabilityPredictor>(
    compressed: &[u8],
    expected_len: usize,
    predictor: &mut P,
) -> (r: Result<Vec<u8>>)
    ensures
        same_bytes(
            r,
            decode_outcome::<P>(old(predictor).model(), compressed@, expected_len as nat),
        ),
        final(predictor).model() == model_after_decoding::<P>(
            old(predictor).model(),
            false,
            compressed@,
            expected_len as nat,
        ),
        r matches Ok(bytes) ==> final(predictor).model() == coded_all::<P>(
            old(predictor).model(),
            bytes@,
        ),
{
    decode_block_inner(compressed, expected_len, predictor, false)
}

fn decode_block_inner<P: ProbabilityPredictor>(
    compressed: &[u8],
    expected_len: usize,
    predictor: &mut P,
    reset: bool,
) -> (r: Result<Vec<u8>>)
    ensures
        same_bytes(
            r,
            decode_outcome::<P>(
                block_start::<P>(old(predictor).model(), reset),
                compressed@,
                expected_len as nat,
            ),
        ),
        final(predictor).model() == model_after_decoding::<P>(
            old(predictor).model(),
            reset,
            compressed@,
            expected_len as nat,
        ),
        r matches Ok(bytes) ==> final(predictor).model() == if expected_len == 0 {
            old(predictor).model()
        } else {
            coded_all::<P>(block_start::<P>(old(predictor).model(), reset), bytes@)
        },
{
    if expected_len == 0 {
        return Ok(Vec::new());
    }
    if compressed.len() == 0 {
        return Err(
            AetherError::Decompression(
                "Empty compressed data for non-zero expected length".to_string(),
            ),
        );
    }
    if expected_len > MAX_DECOMPRESSED_BLOCK_SIZE {
        return Err(
            AetherError::Decompression(
                text_around_numbers(
                    "Decode size ",
                    expected_len as u64,
                    " exceeds safety limit ",
                    MAX_DECOMPRESSED_BLOCK_SIZE as u64,
                    "",
                ),
            ),
        );
    }
    if reset {
        predictor.reset();
    }
    let ghost m0 = block_start::<P>(old(predictor).model(), reset);
    let ghost whole = decode_from::<P>(
        DecoderModel::start(compressed@),
        m0,
        compressed@,
        expected_len as nat,
    );
    let mut dec = RangeDecoder::new(compressed);
    let mut output: Vec<u8> = Vec::new();
    let mut i: usize = 0;
    while i < expected_len
        invariant
            i <= expected_len <= MAX_DECOMPRESSED_BLOCK_SIZE,
            dec.wf(),
            dec.input() == compressed@,
            dec@.consumed <= 5 + 2 * i,
            output@.len() == i,
            ({
                let rest = decode_from::<P>(
                    dec@,
                    predictor.model(),
                    compressed@,
                    (expected_len - i) as nat,
                );
                whole.0 == output@ + rest.0 && whole.1 == rest.1
            }),
            predictor.model() == coded_all::<P>(m0, output@),
        decreases expected_len - i,
    {
        let ghost before = output@;
        let ghost m = predictor.model();
        let cdf = predictor.predict_cdf();
        let byte: u8 = dec.decode_cdf(&cdf);
        predictor.update(byte);
        output.push(byte);
        proof {
            lemma_coded_all_push::<P>(m0, before, byte);
        }
        i = i + 1;
    }
    proof {
        assert(whole.0 =~= output@);
    }
    let overread: usize = dec.overread();
    if overread > 5 {
        return Err(
            AetherError::Decompression(
                text_around_number(
                    "Range decoder read ",
                    overread as u64,
                    " bytes past end of input (truncated stream?)",
                ),
            ),
        );
    }
    Ok(output)
}

/// Every decoding step gives one symbol.
pub proof fn lemma_decode_from_len<P: ProbabilityPredictor>(
    dec: DecoderModel,
    m: P::Model,
    input: Seq<u8>,
    n: nat,
)
    ensures
        decode_from::<P>(dec, m, input, n).0.len() == n,
    decreases n,
{
    if n > 0 {
        let cdf = P::cdf_of(m);
        lemma_decode_from_len::<P>(
            dec.decoded(cdf, input),
            coded::<P>(m, dec.symbol(cdf)),
            input,
            (n - 1) as nat,
        );
    }
}

proof fn lemma_coded_all_push<P: ProbabilityPredictor>(m: P::Model, data: Seq<u8>, b: u8)
    ensures
        coded_all::<P>(m, data.push(b)) == coded::<P>(coded_all::<P>(m, data), b),
    decreases data.len(),
{
    if data.len() == 0 {
        assert(data.push(b).drop_first() =~= Seq::<u8>::empty());
        reveal_with_fuel(coded_all, 2);
    } else {
        assert(data.push(b).drop_first() =~= data.drop_first().push(b));
        lemma_coded_all_push::<P>(coded::<P>(m, data[0]), data.drop_first(), b);
    }
}

// Decoding gives back what was encoded.

/// Widening scales the interval by a power of 256.
proof fn lemma_renormalized_scales(m: EncoderModel)
    requires
        m.range > 0,
        !m.renormalized().overflow,
    ensures
        !m.overflow,
        m.renormalized().digits >= m.digits,
        m.renormalized().value() == m.value() * pow256(
            (m.renormalized().digits - m.digits) as nat,
        ),
        m.renormalized().range == m.range * pow256((m.renormalized().digits - m.digits) as nat),
        m.renormalized().range >= TOP,
    decreases
        if m.range < TOP {
            TOP - m.range
        } else {
            0
        },
{
    if m.overflow {
    } else if m.range >= TOP {
        assert(pow256(0) == 1);
        assert(m.value() * 1 == m.value());
        assert(m.range * 1 == m.range);
    } else {
        let next = m.shifted().with_range(m.range * 256);
        lemma_shift_value(m);
        lemma_renormalized_scales(next);
        let j = (m.renormalized().digits - next.digits) as nat;
        let p = pow256(j);
        assert(pow256((j + 1) as nat) == 256 * p);
        assert((m.value() * 256) * p == m.value() * (256 * p)) by (nonlinear_arith);
        assert((m.range * 256) * p == m.range * (256 * p)) by (nonlinear_arith);
    }
}

/// The encoder after all of `symbols`, each with the table at its place.
pub open spec fn encode_with(
    enc: EncoderModel,
    symbols: Seq<u8>,
    tables: Seq<Seq<u16>>,
) -> EncoderModel
    decreases symbols.len(),
{
    if symbols.len() == 0 {
        enc
    } else {
        encode_with(
            enc.encoded_symbol(symbols[0], tables[0]),
            symbols.drop_first(),
            tables.drop_first(),
        )
    }
}

/// The symbols that decoding gives, one with each table, and the state it ends in.
pub open spec fn decode_with(
    dec: DecoderModel,
    tables: Seq<Seq<u16>>,
    input: Seq<u8>,
) -> (Seq<u8>, DecoderModel)
    decreases tables.len(),
{
    if tables.len() == 0 {
        (Seq::empty(), dec)
    } else {
        let rest = decode_with(dec.decoded(tables[0], input), tables.drop_first(), input);
        (seq![dec.symbol(tables[0])] + rest.0, rest.1)
    }
}

/// There is one well-formed table for each symbol.
pub open spec fn all_valid(symbols: Seq<u8>, tables: Seq<Seq<u16>>) -> bool {
    &&& symbols.len() == tables.len()
    &&& forall|k: int| 0 <= k < tables.len() ==> valid_cdf(#[trigger] tables[k])
}

/// Coding more symbols keeps the number inside the interval reached so far.
proof fn lemma_nested(enc: EncoderModel, data: Seq<u8>, tables: Seq<Seq<u16>>)
    requires
        !encode_with(enc, data, tables).overflow,
        !enc.overflow ==> TOP <= enc.range <= 0xFFFF_FFFF,
        all_valid(data, tables),
    ensures
        !enc.overflow,
        ({
            let end = encode_with(enc, data, tables);
            let p = pow256((end.digits - enc.digits) as nat);
            &&& end.digits >= enc.digits
            &&& enc.value() * p <= end.value() < (enc.value() + enc.range) * p
        }),
    decreases data.len(),
{
    let end = encode_with(enc, data, tables);
    if data.len() == 0 {
        assert(pow256(0) == 1);
        assert(enc.value() * 1 == enc.value());
        assert((enc.value() + enc.range) * 1 == enc.value() + enc.range);
    } else {
        let cdf = tables[0];
        let s = data[0];
        let cum = cdf[s as int] as nat;
        let freq = (cdf[s + 1] - cdf[s as int]) as nat;
        let next = enc.encoded_symbol(s, cdf);
        if enc.overflow {
            lemma_nested(next, data.drop_first(), tables.drop_first());
        } else {
            let narrow = enc.narrowed(cum, freq);
            lemma_narrow_bounds(enc.range as int, cum as int, freq as int);
            if !next.overflow {
                lemma_renormalized_scales(narrow);
                lemma_renormalized_width(narrow);
            }
            lemma_nested(next, data.drop_first(), tables.drop_first());
            let j = (next.digits - enc.digits) as nat;
            let k = (end.digits - next.digits) as nat;
            lemma_pow256_add(j, k);
            lemma_scale_bounds(
                enc.value(),
                enc.range,
                narrow.value(),
                narrow.range,
                pow256(j),
                pow256(k),
                end.value(),
            );
        }
    }
}

/// A widened interval still fits in 32 bits.
proof fn lemma_renormalized_width(m: EncoderModel)
    requires
        0 < m.range <= 0xFFFF_FFFF,
        !m.renormalized().overflow,
    ensures
        m.renormalized().range <= 0xFFFF_FFFF,
    decreases
        if m.range < TOP {
            TOP - m.range
        } else {
            0
        },
{
    if !m.overflow && m.range < TOP {
        lemma_renormalized_width(m.shifted().with_range(m.range * 256));
    }
}

/// Bounds of a narrowed and scaled interval, seen from the interval it was cut from.
proof fn lemma_scale_bounds(v: nat, r: nat, nv: nat, nr: nat, p: nat, q: nat, end: nat)
    requires
        v <= nv,
        nv + nr <= v + r,
        (nv * p) * q <= end,
        end < (nv * p + nr * p) * q,
    ensures
        v * (p * q) <= end < (v + r) * (p * q),
        nv * (p * q) <= end < (nv + nr) * (p * q),
{
    let pq = p * q;
    assert((nv * p) * q == nv * pq) by (nonlinear_arith)
        requires
            pq == p * q,
    ;
    assert((nv * p + nr * p) * q == (nv + nr) * pq) by (nonlinear_arith)
        requires
            pq == p * q,
    ;
    assert(v * pq <= nv * pq) by (nonlinear_arith)
        requires
            v <= nv,
            pq >= 0,
    ;
    assert((nv + nr) * pq <= (v + r) * pq) by (nonlinear_arith)
        requires
            nv + nr <= v + r,
            pq >= 0,
    ;
}

/// The decoder of the number `f`, written with `len` bytes, is as far as the encoder:
/// it has the encoder's width and the number's distance from the lower end.
spec fn in_step(enc: EncoderModel, dec: DecoderModel, f: nat, len: nat) -> bool {
    &&& !enc.overflow
    &&& dec.range == enc.range
    &&& dec.consumed == enc.digits + 4
    &&& dec.consumed <= len
    &&& dec.code == f / pow256((len - dec.consumed) as nat) - enc.value()
    &&& dec.code < dec.range
}

/// Reading a byte and settling a byte keep the two in step.
proof fn lemma_renormalized_in_step(enc: EncoderModel, dec: DecoderModel, f: nat, len: nat)
    requires
        in_step(enc, dec, f, len),
        enc.range > 0,
        !enc.renormalized().overflow,
        enc.renormalized().digits + 4 <= len,
    ensures
        in_step(enc.renormalized(), dec.renormalized(be_bytes(f, len)), f, len),
    decreases
        if enc.range < TOP {
            TOP - enc.range
        } else {
            0
        },
{
    if enc.range < TOP {
        let input = be_bytes(f, len);
        let next_enc = enc.shifted().with_range(enc.range * 256);
        let next_dec = dec.refilled(input);
        lemma_shift_value(enc);
        lemma_renormalized_scales(next_enc);
        let c = dec.consumed;
        lemma_be_bytes_index(f, len, c);
        let k = (len - c - 1) as nat;
        lemma_pow256_pos(k);
        lemma_div_denominator(f as int, pow256(k) as int, 256);
        assert(pow256(k) * 256 == pow256((k + 1) as nat));
        let d = f / pow256(k);
        assert(f / pow256((k + 1) as nat) == d / 256);
        assert(in_step(next_enc, next_dec, f, len));
        lemma_renormalized_in_step(next_enc, next_dec, f, len);
    }
}

/// A quotient lies where the products say.
proof fn lemma_quotient_bounds(f: nat, p: nat, a: nat, b: nat)
    requires
        p > 0,
        a * p <= f < b * p,
    ensures
        a <= f / p < b,
{
    lemma_fundamental_div_mod(f as int, p as int);
    let q = f / p;
    assert(a <= q) by (nonlinear_arith)
        requires
            a * p <= f,
            f == p * q + f % p,
            f % p < p,
            p > 0,
    ;
    assert(q < b) by (nonlinear_arith)
        requires
            f < b * p,
            f == p * q + f % p,
            f % p >= 0,
            p > 0,
    ;
}

/// A decoder in step with the encoder gives the symbols that were encoded.
proof fn lemma_decode_in_step(
    enc: EncoderModel,
    dec: DecoderModel,
    data: Seq<u8>,
    tables: Seq<Seq<u16>>,
    f: nat,
    len: nat,
)
    requires
        in_step(enc, dec, f, len),
        TOP <= enc.range <= 0xFFFF_FFFF,
        all_valid(data, tables),
        !encode_with(enc, data, tables).overflow,
        f == encode_with(enc, data, tables).value(),
        len == encode_with(enc, data, tables).digits + 4,
    ensures
        decode_with(dec, tables, be_bytes(f, len)).0 == data,
        decode_with(dec, tables, be_bytes(f, len)).1.consumed == len,
    decreases data.len(),
{
    let input = be_bytes(f, len);
    if data.len() == 0 {
        assert(decode_with(dec, tables, input).0 =~= data);
    } else {
        let cdf = tables[0];
        let s = data[0];
        let cum = cdf[s as int] as nat;
        let freq = (cdf[s + 1] - cdf[s as int]) as nat;
        let r = enc.range / PROB_TOTAL as nat;
        let narrow = enc.narrowed(cum, freq);
        let next = enc.encoded_symbol(s, cdf);
        let rest = data.drop_first();
        lemma_narrow_bounds(enc.range as int, cum as int, freq as int);
        lemma_nested_next(next, rest, tables.drop_first(), narrow);
        lemma_nested(next, rest, tables.drop_first());
        let j = (next.digits - enc.digits) as nat;
        let k = (len - 4 - next.digits) as nat;
        lemma_pow256_add(j, k);
        lemma_scale_bounds(
            enc.value(),
            enc.range,
            narrow.value(),
            narrow.range,
            pow256(j),
            pow256(k),
            f,
        );
        lemma_pow256_pos((j + k) as nat);
        lemma_quotient_bounds(f, pow256((j + k) as nat), narrow.value(), narrow.value() + narrow.range);
        assert(cum * r <= dec.code < cum * r + freq * r);
        assert(cum * r + freq * r == (cum + freq) * r) by (nonlinear_arith);
        lemma_quotient_bounds(dec.code, r, cum, cum + freq);
        lemma_cdf_symbol(cdf, dec.code / r, s);
        assert(dec.symbol(cdf) == s);
        let narrow_dec = dec.narrowed(s, cdf);
        assert(in_step(narrow, narrow_dec, f, len));
        lemma_renormalized_in_step(narrow, narrow_dec, f, len);
        lemma_decode_in_step(
            next,
            narrow_dec.renormalized(input),
            rest,
            tables.drop_first(),
            f,
            len,
        );
        assert(seq![s] + rest =~= data);
    }
}

/// The interval after a symbol is the symbol's interval, scaled.
proof fn lemma_nested_next(
    next: EncoderModel,
    rest: Seq<u8>,
    tables: Seq<Seq<u16>>,
    narrow: EncoderModel,
)
    requires
        next == narrow.renormalized(),
        512 <= narrow.range <= 0xFFFF_FFFF,
        rest.len() == tables.len(),
        !encode_with(next, rest, tables).overflow,
    ensures
        !next.overflow,
        TOP <= next.range <= 0xFFFF_FFFF,
        next.digits >= narrow.digits,
        next.value() == narrow.value() * pow256((next.digits - narrow.digits) as nat),
        next.range == narrow.range * pow256((next.digits - narrow.digits) as nat),
{
    if next.overflow {
        lemma_overflow_stays(next, rest, tables);
    }
    lemma_renormalized_scales(narrow);
    lemma_renormalized_width(narrow);
}

/// An encoder that lost its number stays lost.
proof fn lemma_overflow_stays(enc: EncoderModel, data: Seq<u8>, tables: Seq<Seq<u16>>)
    requires
        data.len() == tables.len(),
        enc.overflow,
    ensures
        encode_with(enc, data, tables).overflow,
    decreases data.len(),
{
    if data.len() > 0 {
        lemma_overflow_stays(
            enc.encoded_symbol(data[0], tables[0]),
            data.drop_first(),
            tables.drop_first(),
        );
    }
}

/// Decoding gives back what was encoded: symbols coded one after the other, each with a
/// well-formed table of its own, come out of the finished bytes in order when the same
/// tables are used, and exactly the bytes are read.
pub proof fn coder_round_trips(symbols: Seq<u8>, tables: Seq<Seq<u16>>)
    requires
        all_valid(symbols, tables),
        !encode_with(EncoderModel::start(), symbols, tables).flushed().overflow,
    ensures
        ({
            let enc = encode_with(EncoderModel::start(), symbols, tables);
            let bytes = be_bytes(enc.value(), enc.digits + 4);
            let (decoded, dec) = decode_with(DecoderModel::start(bytes), tables, bytes);
            decoded == symbols && dec.consumed == bytes.len()
        }),
{
    let start = EncoderModel::start();
    let end = encode_with(start, symbols, tables);
    let f = end.value();
    let len = end.digits + 4;
    let input = be_bytes(f, len);
    lemma_be_bytes_len(f, len);
    assert(!end.overflow);
    lemma_nested(start, symbols, tables);
    assert(in_step(start, DecoderModel::start(input), f, len)) by {
        let k = (len - 5) as nat;
        let p = pow256(k);
        lemma_pow256_pos(k);
        assert(start.value() == 0);
        lemma_quotient_bounds(f, p, 0, 0xFFFF_FFFF);
        lemma_pow256_add(5, k);
        assert(pow256(5) == 0x100_0000_0000) by {
            reveal_with_fuel(pow256, 6);
        }
        assert(f < pow256(len)) by (nonlinear_arith)
            requires
                f < 0xFFFF_FFFF * p,
                pow256(len) == 0x100_0000_0000 * p,
                p > 0,
        ;
        lemma_head_value(f, len, 5);
        assert(stream_head(input, 5) =~= input.subrange(0, 5));
    }
    lemma_decode_in_step(start, DecoderModel::start(input), symbols, tables, f, len);
}

/// The encoder starts with all numbers below 1, in 32 bits: the lower end 0, the width the
/// largest of 32 bits.
pub proof fn coding_starts_with_everything()
    ensures
        EncoderModel::start().value() == 0,
        EncoderModel::start().range == 0xFFFF_FFFF,
        EncoderModel::start().digits == 1,
        !EncoderModel::start().overflow,
{
}

/// A symbol narrows the interval to its share of it: the lower end moves up by what the
/// table gives the symbols below it, and the width becomes what it gives the symbol, in
/// parts of 32768. After that only digits are appended, as many as make the width 24 to 32
/// bits again.
pub proof fn symbols_narrow_to_their_share(enc: EncoderModel, s: u8, cdf: Seq<u16>)
    requires
        valid_cdf(cdf),
        0x100_0000 <= enc.range <= 0xFFFF_FFFF,
        !enc.overflow,
        !enc.encoded_symbol(s, cdf).overflow,
    ensures
        ({
            let next = enc.encoded_symbol(s, cdf);
            let part = enc.range / 32_768;
            let scale = pow256((next.digits - enc.digits) as nat);
            &&& next.digits >= enc.digits
            &&& next.value() == (enc.value() + cdf[s as int] * part) * scale
            &&& next.range == ((cdf[s + 1] - cdf[s as int]) * part) * scale
            &&& 0x100_0000 <= next.range <= 0xFFFF_FFFF
        }),
{
    let cum = cdf[s as int] as nat;
    let freq = (cdf[s + 1] - cdf[s as int]) as nat;
    let narrow = enc.narrowed(cum, freq);
    lemma_narrow_bounds(enc.range as int, cum as int, freq as int);
    lemma_renormalized_scales(narrow);
    lemma_renormalized_width(narrow);
}

/// The decoder gives the symbol whose share holds the number, and narrows as the encoder
/// does. A number beyond all shares counts as the last part.
pub proof fn symbols_are_found_by_their_share(dec: DecoderModel, cdf: Seq<u16>, s: u8)
    requires
        valid_cdf(cdf),
        dec.range >= 0x100_0000,
    ensures
        ({
            let part = dec.range / 32_768;
            let f = if dec.code / part < 32_768 {
                dec.code / part
            } else {
                32_767
            };
            &&& cdf[s as int] <= f < cdf[s + 1] <==> dec.symbol(cdf) == s
            &&& dec.narrowed(s, cdf).range == (cdf[s + 1] - cdf[s as int]) * part
            &&& cdf[s as int] * part <= dec.code ==> dec.narrowed(s, cdf).code == dec.code
                - cdf[s as int] * part
        }),
{
    let part = dec.range / 32_768;
    let f: nat = if dec.code / part < 32_768 {
        dec.code / part
    } else {
        32_767
    };
    lemma_some_symbol(cdf, f, 256);
    let t = cdf_symbol(cdf, f);
    if cdf[s as int] <= f < cdf[s + 1] {
        lemma_cdf_symbol(cdf, f, s);
    }
    assert((cdf[s + 1] - cdf[s as int]) * part >= 0) by (nonlinear_arith)
        requires
            cdf[s + 1] >= cdf[s as int],
            part >= 0,
    ;
}

/// Some symbol below `n` has an interval that holds `f`, where that is below the entry.
proof fn lemma_some_symbol(cdf: Seq<u16>, f: nat, n: int)
    requires
        valid_cdf(cdf),
        0 <= n <= 256,
        f < cdf[n],
    ensures
        exists|s: u8| cdf[s as int] <= f < #[trigger] cdf[s + 1],
    decreases n,
{
    if n > 0 {
        if cdf[n - 1] <= f {
            let s = (n - 1) as u8;
            assert(cdf[s as int] <= f < cdf[s + 1]);
        } else {
            lemma_some_symbol(cdf, f, n - 1);
        }
    }
}

/// The tables that a predictor which starts in `m` gives while `data` is coded.
pub open spec fn tables_of<P: ProbabilityPredictor>(m: P::Model, data: Seq<u8>) -> Seq<Seq<u16>>
    decreases data.len(),
{
    if data.len() == 0 {
        Seq::empty()
    } else {
        seq![P::cdf_of(m)] + tables_of::<P>(coded::<P>(m, data[0]), data.drop_first())
    }
}

/// Coding with a predictor is coding with its tables.
proof fn lemma_encode_tables<P: ProbabilityPredictor>(enc: EncoderModel, m: P::Model, data: Seq<u8>)
    requires
        tables_valid::<P>(m, data),
    ensures
        all_valid(data, tables_of::<P>(m, data)),
        encode_from::<P>(enc, m, data) == encode_with(enc, data, tables_of::<P>(m, data)),
    decreases data.len(),
{
    if data.len() > 0 {
        let cdf = P::cdf_of(m);
        let tables = tables_of::<P>(m, data);
        lemma_encode_tables::<P>(
            enc.encoded_symbol(data[0], cdf),
            coded::<P>(m, data[0]),
            data.drop_first(),
        );
        let rest = tables_of::<P>(coded::<P>(m, data[0]), data.drop_first());
        assert(tables.drop_first() =~= rest);
        assert forall|k: int| 0 <= k < tables.len() implies valid_cdf(#[trigger] tables[k]) by {
            if k > 0 {
                assert(tables[k] == rest[k - 1]);
            }
        }
    }
}

/// Where the tables of `data` decode to `data`, so does the predictor that gives them.
proof fn lemma_decode_tables<P: ProbabilityPredictor>(
    dec: DecoderModel,
    m: P::Model,
    input: Seq<u8>,
    data: Seq<u8>,
)
    requires
        decode_with(dec, tables_of::<P>(m, data), input).0 == data,
    ensures
        decode_from::<P>(dec, m, input, data.len()) == decode_with(
            dec,
            tables_of::<P>(m, data),
            input,
        ),
    decreases data.len(),
{
    if data.len() > 0 {
        let cdf = P::cdf_of(m);
        let tables = tables_of::<P>(m, data);
        let next = coded::<P>(m, data[0]);
        let rest = tables_of::<P>(next, data.drop_first());
        assert(tables.drop_first() =~= rest);
        let after = decode_with(dec.decoded(cdf, input), rest, input).0;
        assert(data == seq![dec.symbol(cdf)] + after);
        assert(data[0] == dec.symbol(cdf));
        assert(after =~= data.drop_first());
        lemma_decode_tables::<P>(dec.decoded(cdf, input), next, input, data.drop_first());
    }
}

/// Decoding a block gives back what was encoded: whenever a block was encoded with
/// well-formed tables, decoding its bytes with a predictor in the same state gives
/// exactly the block, and no byte past the end is read.
pub proof fn range_coding_round_trips<P: ProbabilityPredictor>(m: P::Model, data: Seq<u8>)
    requires
        tables_valid::<P>(m, data),
        data.len() <= MAX_DECOMPRESSED_BLOCK_SIZE,
        encode_outcome::<P>(m, data) is Ok,
    ensures
        decode_outcome::<P>(m, encode_outcome::<P>(m, data)->Ok_0, data.len()) == Ok::<
            Seq<u8>,
            ErrorModel,
        >(data),
{
    if data.len() == 0 {
        assert(data =~= Seq::<u8>::empty());
    } else {
        let tables = tables_of::<P>(m, data);
        lemma_encode_tables::<P>(EncoderModel::start(), m, data);
        coder_round_trips(data, tables);
        let input = encode_outcome::<P>(m, data)->Ok_0;
        lemma_decode_tables::<P>(DecoderModel::start(input), m, input, data);
    }
}

/// Encoder and decoder stay in step: after a block, a predictor that decoded it is in the
/// state of the one that encoded it, so that the next block can continue from there.
pub proof fn predictors_stay_in_step<P: ProbabilityPredictor>(m: P::Model, data: Seq<u8>)
    requires
        tables_valid::<P>(m, data),
        data.len() <= MAX_DECOMPRESSED_BLOCK_SIZE,
        encode_outcome::<P>(m, data) is Ok,
    ensures
        decode_outcome::<P>(m, encode_outcome::<P>(m, data)->Ok_0, data.len()) matches Ok(bytes)
            && coded_all::<P>(m, bytes) == coded_all::<P>(m, data),
{
    range_coding_round_trips::<P>(m, data);
}

/// A predictor that is asked for the interval of each byte before it sees it goes through
/// the states of one that is asked for whole tables: `states` are those between the bytes,
/// `queried` those between a question and its byte. So after `i` bytes the interval of any
/// byte `b` is the one in the table of a predictor that saw the same bytes.
pub proof fn queries_keep_in_step<P: ProbabilityPredictor>(
    m: P::Model,
    data: Seq<u8>,
    states: Seq<P::Model>,
    queried: Seq<P::Model>,
    i: nat,
    b: u8,
    interval: (u16, u16),
)
    requires
        interval.0 == P::cdf_of(states[i as int])[b as int],
        interval.1 == P::cdf_of(states[i as int])[b + 1],
        states.len() == data.len() + 1,
        queried.len() == data.len(),
        states[0] == m,
        forall|k: int|
            0 <= k < data.len() ==> {
                &&& P::updated(#[trigger] queried[k], data[k]) == P::updated(
                    P::predicted(states[k]),
                    data[k],
                )
                &&& states[k + 1] == P::updated(queried[k], data[k])
            },
        i <= data.len(),
    ensures
        states[i as int] == coded_all::<P>(m, data.take(i as int)),
        interval.0 == P::cdf_of(coded_all::<P>(m, data.take(i as int)))[b as int],
        interval.1 == P::cdf_of(coded_all::<P>(m, data.take(i as int)))[b + 1],
{
    lemma_queried_states::<P>(m, data, states, queried, i);
}

proof fn lemma_queried_states<P: ProbabilityPredictor>(
    m: P::Model,
    data: Seq<u8>,
    states: Seq<P::Model>,
    queried: Seq<P::Model>,
    i: nat,
)
    requires
        states.len() == data.len() + 1,
        queried.len() == data.len(),
        states[0] == m,
        forall|k: int|
            0 <= k < data.len() ==> {
                &&& P::updated(#[trigger] queried[k], data[k]) == P::updated(
                    P::predicted(states[k]),
                    data[k],
                )
                &&& states[k + 1] == P::updated(queried[k], data[k])
            },
        i <= data.len(),
    ensures
        states[i as int] == coded_all::<P>(m, data.take(i as int)),
    decreases i,
{
    if i > 0 {
        let k = (i - 1) as nat;
        lemma_queried_states::<P>(m, data, states, queried, k);
        assert(P::updated(queried[k as int], data[k as int]) == P::updated(
            P::predicted(states[k as int]),
            data[k as int],
        ));
        assert(data.take(i as int) =~= data.take(k as int).push(data[k as int]));
        lemma_coded_all_push::<P>(m, data.take(k as int), data[k as int]);
    }
}

/// The first `c` of the `len` digits of `n` write the number `n / 256^(len - c)`, where
/// `n` has at most `len` digits.
proof fn lemma_head_value(n: nat, len: nat, c: nat)
    requires
        c <= len,
        n < pow256(len),
    ensures
        be_bytes(n, len).len() == len,
        be_value(be_bytes(n, len).subrange(0, c as int)) == n / pow256((len - c) as nat),
    decreases c,
{
    lemma_be_bytes_len(n, len);
    let digits = be_bytes(n, len);
    let p = pow256((len - c) as nat);
    lemma_pow256_pos((len - c) as nat);
    if c == 0 {
        lemma_basic_div(n as int, p as int);
        assert(digits.subrange(0, 0).len() == 0);
    } else {
        lemma_head_value(n, len, (c - 1) as nat);
        lemma_be_bytes_index(n, len, (c - 1) as nat);
        lemma_div_denominator(n as int, p as int, 256);
        assert(pow256((len - c + 1) as nat) == 256 * p);
        assert(p * 256 == 256 * p);
        let head = digits.subrange(0, c as int);
        assert(head.drop_last() =~= digits.subrange(0, c - 1));
    }
}

/// What [`encode_block`] and [`decode_block`] give, one after the other, with predictors that
/// a reset brings into the same state: the data, and predictors in the same state again.
pub proof fn coded_blocks_are_decoded<P: ProbabilityPredictor>(
    data: &[u8],
    writer: &mut P,
    bytes: Vec<u8>,
    coded: &[u8],
    reader: &mut P,
    back: Result<Vec<u8>>,
)
    requires
        call_ensures(encode_block::<P>, (data, writer), Ok::<Vec<u8>, AetherError>(bytes)),
        coded@ == bytes@,
        call_ensures(decode_block::<P>, (coded, data.len(), reader), back),
        P::reset_of(old(reader).model()) == P::reset_of(old(writer).model()),
        0 < data@.len() <= 67_108_864,
    ensures
        back is Ok && back->Ok_0@ == data@,
        final(reader).model() == final(writer).model(),
        final(writer).model() == coded_all::<P>(P::reset_of(old(writer).model()), data@),
{
    range_coding_round_trips::<P>(P::reset_of(old(writer).model()), data@);
}

/// What [`encode_block_continuing`] and [`decode_block_continuing`] give, one after the other,
/// with predictors in the same state: the data, and predictors in the same state again.
pub proof fn continued_blocks_are_decoded<P: ProbabilityPredictor>(
    data: &[u8],
    writer: &mut P,
    bytes: Vec<u8>,
    coded: &[u8],
    reader: &mut P,
    back: Result<Vec<u8>>,
)
    requires
        call_ensures(
            encode_block_continuing::<P>,
            (data, writer),
            Ok::<Vec<u8>, AetherError>(bytes),
        ),
        coded@ == bytes@,
        call_ensures(decode_block_continuing::<P>, (coded, data.len(), reader), back),
        old(reader).model() == old(writer).model(),
        data@.len() <= 67_108_864,
    ensures
        back is Ok && back->Ok_0@ == data@,
        final(reader).model() == final(writer).model(),
        final(writer).model() == coded_all::<P>(old(writer).model(), data@),
{
    range_coding_round_trips::<P>(old(writer).model(), data@);
}

/// What [`RangeEncoder::encode_cdf`] and [`RangeDecoder::decode_cdf`] do to their intervals:
/// the encoder goes to the share of the symbol, the decoder gives the symbol whose share
/// holds its number.
pub proof fn calls_narrow_the_interval(
    enc: &mut RangeEncoder,
    symbol: u8,
    cdf: &[u16; 257],
    dec: &mut RangeDecoder<'_>,
    found: u8,
)
    requires
        call_ensures(RangeEncoder::encode_cdf, (enc, symbol, cdf), ()),
        call_ensures(RangeDecoder::decode_cdf, (dec, cdf), found),
        valid_cdf(cdf@),
        old(dec)@.range >= 0x100_0000,
        0x100_0000 <= old(enc)@.range <= 0xFFFF_FFFF,
    ensures
        !old(enc)@.overflow && !final(enc)@.overflow ==> {
            let scale = pow256((final(enc)@.digits - old(enc)@.digits) as nat);
            let part = old(enc)@.range / 32_768;
            &&& final(enc)@.value() == (old(enc)@.value() + cdf@[symbol as int] * part) * scale
            &&& final(enc)@.range == ((cdf@[symbol + 1] - cdf@[symbol as int]) * part) * scale
        },
        old(dec)@.code / (old(dec)@.range / 32_768) < 32_768 ==> cdf@[found as int] <= old(dec)@.code
            / (old(dec)@.range / 32_768) < cdf@[found + 1],
{
    if !old(enc)@.overflow && !final(enc)@.overflow {
        symbols_narrow_to_their_share(old(enc)@, symbol, cdf@);
    }
    symbols_are_found_by_their_share(old(dec)@, cdf@, found);
}

/// What [`RangeEncoder::finish`] gives are the bytes of the number, the highest first, and
/// what [`RangeDecoder::new`] starts with are the low 32 bits of the first five of them.
pub proof fn finished_bytes_write_the_number(
    enc: RangeEncoder,
    bytes: Vec<u8>,
    data: &[u8],
    dec: RangeDecoder<'_>,
    i: nat,
)
    requires
        call_ensures(RangeEncoder::finish, (enc,), Ok::<Vec<u8>, &'static str>(bytes)),
        call_ensures(RangeDecoder::new, (data,), dec),
        data@.len() >= 5,
        i < enc@.digits + 4,
    ensures
        bytes@.len() == enc@.digits + 4,
        bytes@[i as int] == (enc@.value() / pow256((enc@.digits + 3 - i) as nat)) % 256,
        dec@.code == 16_777_216 * data@[1] + 65_536 * data@[2] + 256 * data@[3] + data@[4],
        dec@.range == 0xFFFF_FFFF,
        dec@.consumed == 5,
{
    lemma_be_bytes_index(enc@.value(), enc@.digits + 4, i);
    let head = stream_head(data@, 5);
    let a = head.drop_last();
    let b = a.drop_last();
    let c = b.drop_last();
    let d = c.drop_last();
    reveal_with_fuel(be_value, 6);
    assert(d.drop_last().len() == 0);
    assert(be_value(head) == 4_294_967_296 * data@[0] + 16_777_216 * data@[1] + 65_536 * data@[2]
        + 256 * data@[3] + data@[4]);
}

/// What [`decode_block`] gives has the expected size, and is at most 64 MiB.
pub proof fn decoded_blocks_have_the_expected_size<P: ProbabilityPredictor>(
    coded: &[u8],
    expected: usize,
    reader: &mut P,
    r: Result<Vec<u8>>,
)
    requires
        call_ensures(decode_block::<P>, (coded, expected, reader), r) || call_ensures(
            decode_block_continuing::<P>,
            (coded, expected, reader),
            r,
        ),
        r is Ok,
    ensures
        r->Ok_0@.len() == expected <= 67_108_864,
        expected > 0 ==> coded@.len() > 0,
{
    let m = old(reader).model();
    let input = coded@;
    lemma_decode_from_len::<P>(DecoderModel::start(input), m, input, expected as nat);
    lemma_decode_from_len::<P>(
        DecoderModel::start(input),
        P::reset_of(m),
        input,
        expected as nat,
    );
}

/// A block that decodes was there: at most five zeros were read past the end of its bytes. One
/// that is cut off by more than that is refused.
pub proof fn cut_off_streams_are_refused<P: ProbabilityPredictor>(m: P::Model, input: Seq<u8>, n: nat)
    requires
        0 < n <= 67_108_864,
        input.len() > 0,
    ensures
        decode_outcome::<P>(m, input, n) is Ok <==> decode_from::<P>(
            DecoderModel::start(input),
            m,
            input,
            n,
        ).1.consumed <= input.len() + 5,
{
}

} // verus!

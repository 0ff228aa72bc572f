//! Counts for the prediction of LZ byte streams by their structure.
//!
//! A state machine tracks the position within the LZ token format: size prefix, token,
//! literal length extension, literals, match offset, match length extension, token, and so
//! on. Each position has its own counts. Those of literals have a context of literals
//! alone, without the control bytes between them. The probabilities made of the counts are
//! floating-point numbers, and not made here.

use super::order0::halved;
use super::tables::{
    bump_at, bumped, contiguous, entries, entry_for, entry_value, find_entry, fresh_table,
    hash_entry_update, is_table, learned, new_table,
};
use crate::coding::cdf::{lemma_sum_update, sum_of};
use crate::format::PredictorId;
use std::collections::VecDeque;
use vstd::prelude::*;
use vstd::string::*;

verus! {

// Position.

/// Position within the LZ byte stream.
#[derive(Debug, Clone, Copy, PartialEq, Eq, Structural)]
pub enum Lz4ParseState {
    /// First 4 bytes: the uncompressed size.
    SizePrefix { byte_index: u8 },
    /// The token byte: literal length in the high and match length in the low nibble.
    Token,
    /// Literal length extension bytes (when the high nibble is 15).
    LitLenExt,
    /// Literal data bytes.
    Literals { remaining: usize },
    /// Match offset low byte.
    MatchOffsetLow,
    /// Match offset high byte.
    MatchOffsetHigh,
    /// Match length extension bytes (when the low nibble is 15).
    MatchLenExt,
}

/// The most literals in a row that a malformed stream is believed (256 MiB).
pub const MAX_LIT_LEN: usize = 268_435_456;

/// A position with what the token and its extensions said of the lengths.
#[derive(Debug, Clone, Copy, PartialEq, Eq, Structural)]
pub struct Lz4Position {
    /// The position itself.
    pub state: Lz4ParseState,
    /// The literal length read so far.
    pub lit_len_accum: usize,
    /// The low nibble of the last token.
    pub match_len_nibble: u8,
}

impl Lz4Position {
    /// A position that a stream can lead to.
    pub open spec fn valid(self) -> bool {
        &&& self.lit_len_accum <= MAX_LIT_LEN
        &&& self.state matches Lz4ParseState::SizePrefix { byte_index } ==> byte_index < 4
        &&& self.state matches Lz4ParseState::Literals { remaining } ==> remaining > 0
    }

    /// The start of a stream.
    pub open spec fn start() -> Lz4Position {
        Lz4Position {
            state: Lz4ParseState::SizePrefix { byte_index: 0 },
            lit_len_accum: 0,
            match_len_nibble: 0,
        }
    }

    /// The literal length read after `byte`.
    pub open spec fn accumulated(self, byte: u8) -> usize {
        match self.state {
            Lz4ParseState::Token => if byte / 16 == 15 {
                15
            } else {
                self.lit_len_accum
            },
            Lz4ParseState::LitLenExt => if self.lit_len_accum + byte > MAX_LIT_LEN {
                MAX_LIT_LEN
            } else {
                (self.lit_len_accum + byte) as usize
            },
            _ => self.lit_len_accum,
        }
    }

    /// The position after `byte`.
    pub open spec fn stepped(self, byte: u8) -> Lz4Position {
        let accum = self.accumulated(byte);
        let state = match self.state {
            Lz4ParseState::SizePrefix { byte_index } => if byte_index < 3 {
                Lz4ParseState::SizePrefix { byte_index: (byte_index + 1) as u8 }
            } else {
                Lz4ParseState::Token
            },
            Lz4ParseState::Token => if byte / 16 == 15 {
                Lz4ParseState::LitLenExt
            } else if byte / 16 > 0 {
                Lz4ParseState::Literals { remaining: (byte / 16) as usize }
            } else {
                Lz4ParseState::MatchOffsetLow
            },
            Lz4ParseState::LitLenExt => if byte == 255 {
                Lz4ParseState::LitLenExt
            } else if accum > 0 {
                Lz4ParseState::Literals { remaining: accum }
            } else {
                Lz4ParseState::MatchOffsetLow
            },
            Lz4ParseState::Literals { remaining } => if remaining > 1 {
                Lz4ParseState::Literals { remaining: (remaining - 1) as usize }
            } else {
                Lz4ParseState::MatchOffsetLow
            },
            Lz4ParseState::MatchOffsetLow => Lz4ParseState::MatchOffsetHigh,
            Lz4ParseState::MatchOffsetHigh => if self.match_len_nibble == 15 {
                Lz4ParseState::MatchLenExt
            } else {
                Lz4ParseState::Token
            },
            Lz4ParseState::MatchLenExt => if byte == 255 {
                Lz4ParseState::MatchLenExt
            } else {
                Lz4ParseState::Token
            },
        };
        Lz4Position {
            state,
            lit_len_accum: accum,
            match_len_nibble: if self.state is Token {
                byte % 16
            } else {
                self.match_len_nibble
            },
        }
    }

    /// The position after some bytes.
    pub open spec fn after(self, bytes: Seq<u8>) -> Lz4Position
        decreases bytes.len(),
    {
        if bytes.len() == 0 {
            self
        } else {
            self.stepped(bytes[0]).after(bytes.drop_first())
        }
    }

    /// The start of a stream.
    pub fn new() -> (p: Lz4Position)
        ensures
            p == Lz4Position::start(),
            p.valid(),
    {
        Lz4Position {
            state: Lz4ParseState::SizePrefix { byte_index: 0 },
            lit_len_accum: 0,
            match_len_nibble: 0,
        }
    }

    /// The state after `byte`, where the lengths already hold what it says.
    fn next_state(&self, byte: u8) -> (state: Lz4ParseState)
        requires
            self.valid(),
        ensures
            match self.state {
                Lz4ParseState::LitLenExt => state == if byte == 255 {
                    Lz4ParseState::LitLenExt
                } else if self.lit_len_accum > 0 {
                    Lz4ParseState::Literals { remaining: self.lit_len_accum }
                } else {
                    Lz4ParseState::MatchOffsetLow
                },
                _ => state == self.stepped(byte).state,
            },
    {
        match self.state {
            Lz4ParseState::SizePrefix { byte_index } => if byte_index < 3 {
                Lz4ParseState::SizePrefix { byte_index: byte_index + 1 }
            } else {
                Lz4ParseState::Token
            },
            Lz4ParseState::Token => {
                let nibble: u8 = byte / 16;
                if nibble == 15 {
                    Lz4ParseState::LitLenExt
                } else if nibble > 0 {
                    Lz4ParseState::Literals { remaining: nibble as usize }
                } else {
                    Lz4ParseState::MatchOffsetLow
                }
            },
            Lz4ParseState::LitLenExt => if byte == 255 {
                Lz4ParseState::LitLenExt
            } else if self.lit_len_accum > 0 {
                Lz4ParseState::Literals { remaining: self.lit_len_accum }
            } else {
                Lz4ParseState::MatchOffsetLow
            },
            Lz4ParseState::Literals { remaining } => if remaining > 1 {
                Lz4ParseState::Literals { remaining: remaining - 1 }
            } else {
                Lz4ParseState::MatchOffsetLow
            },
            Lz4ParseState::MatchOffsetLow => Lz4ParseState::MatchOffsetHigh,
            Lz4ParseState::MatchOffsetHigh => if self.match_len_nibble == 15 {
                Lz4ParseState::MatchLenExt
            } else {
                Lz4ParseState::Token
            },
            Lz4ParseState::MatchLenExt => if byte == 255 {
                Lz4ParseState::MatchLenExt
            } else {
                Lz4ParseState::Token
            },
        }
    }

    /// Moves on by one byte.
    pub fn step(&mut self, byte: u8)
        requires
            old(self).valid(),
        ensures
            *final(self) == old(self).stepped(byte),
            final(self).valid(),
    {
        match self.state {
            Lz4ParseState::Token => {
                self.match_len_nibble = byte % 16;
                if byte / 16 == 15 {
                    self.lit_len_accum = 15;
                }
            },
            Lz4ParseState::LitLenExt => {
                let accum: usize = self.lit_len_accum + byte as usize;
                self.lit_len_accum = if accum > MAX_LIT_LEN {
                    MAX_LIT_LEN
                } else {
                    accum
                };
            },
            _ => {},
        }
        self.state = self.next_state(byte);
    }
}

// What a stream is made of.

/// The bytes that extend a length of 15 by `n`: as many 255 as fit, then the rest.
pub open spec fn extension(n: nat) -> Seq<u8>
    decreases n,
{
    if n < 255 {
        seq![n as u8]
    } else {
        seq![255u8] + extension((n - 255) as nat)
    }
}

/// The nibble of a length.
pub open spec fn nibble_of(n: nat) -> int {
    if n < 15 {
        n as int
    } else {
        15
    }
}

/// The bytes behind the nibble of a length.
pub open spec fn extension_of(n: nat) -> Seq<u8> {
    if n < 15 {
        Seq::empty()
    } else {
        extension((n - 15) as nat)
    }
}

/// A sequence of an LZ stream: the token, the literals and a match of `4 + match_len`
/// bytes, with the extensions of both lengths.
pub open spec fn sequence_bytes(literals: Seq<u8>, offset: (u8, u8), match_len: nat) -> Seq<u8> {
    seq![(nibble_of(literals.len()) * 16 + nibble_of(match_len)) as u8] + extension_of(
        literals.len(),
    ) + literals + seq![offset.0, offset.1] + extension_of(match_len)
}

proof fn lemma_after_append(p: Lz4Position, a: Seq<u8>, b: Seq<u8>)
    ensures
        p.after(a + b) == p.after(a).after(b),
    decreases a.len(),
{
    if a.len() == 0 {
        assert(a + b =~= b);
    } else {
        lemma_after_append(p.stepped(a[0]), a.drop_first(), b);
        assert((a + b).drop_first() =~= a.drop_first() + b);
    }
}

proof fn lemma_literal_extension(p: Lz4Position, n: nat)
    requires
        p.state is LitLenExt,
        p.lit_len_accum > 0,
        p.lit_len_accum + n <= MAX_LIT_LEN,
    ensures
        p.after(extension(n)) == (Lz4Position {
            state: Lz4ParseState::Literals { remaining: (p.lit_len_accum + n) as usize },
            lit_len_accum: (p.lit_len_accum + n) as usize,
            ..p
        }),
    decreases n,
{
    let bytes = extension(n);
    reveal_with_fuel(Lz4Position::after, 2);
    if n < 255 {
        assert(bytes.drop_first() =~= Seq::empty());
    } else {
        lemma_literal_extension(p.stepped(255), (n - 255) as nat);
        assert(bytes.drop_first() =~= extension((n - 255) as nat));
    }
}

proof fn lemma_literals(p: Lz4Position, literals: Seq<u8>)
    requires
        p.state == (Lz4ParseState::Literals { remaining: literals.len() as usize }),
        0 < literals.len() <= usize::MAX,
    ensures
        p.after(literals) == (Lz4Position { state: Lz4ParseState::MatchOffsetLow, ..p }),
    decreases literals.len(),
{
    reveal_with_fuel(Lz4Position::after, 2);
    if literals.len() == 1 {
        assert(literals.drop_first() =~= Seq::empty());
    } else {
        lemma_literals(p.stepped(literals[0]), literals.drop_first());
    }
}

proof fn lemma_match_extension(p: Lz4Position, n: nat)
    requires
        p.state is MatchLenExt,
    ensures
        p.after(extension(n)).state is Token,
    decreases n,
{
    let bytes = extension(n);
    reveal_with_fuel(Lz4Position::after, 2);
    if n < 255 {
        assert(bytes.drop_first() =~= Seq::empty());
    } else {
        lemma_match_extension(p.stepped(255), (n - 255) as nat);
        assert(bytes.drop_first() =~= extension((n - 255) as nat));
    }
}

/// From a token position, a sequence with any literals, offset and match length leads to
/// the next token.
pub proof fn sequence_leads_to_token(
    p: Lz4Position,
    literals: Seq<u8>,
    offset: (u8, u8),
    match_len: nat,
)
    requires
        p.valid(),
        p.state is Token,
        literals.len() <= MAX_LIT_LEN,
    ensures
        p.after(sequence_bytes(literals, offset, match_len)).state is Token,
{
    let token = (nibble_of(literals.len()) * 16 + nibble_of(match_len)) as u8;
    let a = seq![token];
    let b = extension_of(literals.len());
    let c = seq![offset.0, offset.1];
    let d = extension_of(match_len);
    lemma_after_append(p, a + b + literals + c, d);
    lemma_after_append(p, a + b + literals, c);
    lemma_after_append(p, a + b, literals);
    lemma_after_append(p, a, b);
    reveal_with_fuel(Lz4Position::after, 3);
    assert(token / 16 == nibble_of(literals.len()));
    assert(token % 16 == nibble_of(match_len));
    assert(a.drop_first() =~= Seq::empty());
    let p1 = p.after(a);
    assert(p1 == p.stepped(token));
    if literals.len() >= 15 {
        lemma_literal_extension(p1, (literals.len() - 15) as nat);
    }
    let p2 = p1.after(b);
    if literals.len() > 0 {
        lemma_literals(p2, literals);
    }
    let p3 = p2.after(literals);
    assert(p3.state is MatchOffsetLow);
    assert(c.drop_first() =~= seq![offset.1]);
    assert(c.drop_first().drop_first() =~= Seq::empty());
    let p4 = p3.after(c);
    assert(p4 == p3.stepped(offset.0).stepped(offset.1));
    if match_len >= 15 {
        lemma_match_extension(p4, (match_len - 15) as nat);
    }
}

/// Four bytes of size prefix lead to the first token.
pub proof fn size_prefix_leads_to_token(size: Seq<u8>)
    requires
        size.len() == 4,
    ensures
        Lz4Position::start().after(size).state is Token,
{
    reveal_with_fuel(Lz4Position::after, 5);
}

// Counts.

/// Frequencies are halved when they add up to more.
pub const FREQ_LIMIT: u32 = 500_000;

/// Frequencies within their bounds.
pub open spec fn are_frequencies(counts: Seq<u32>) -> bool {
    &&& counts.len() == 256
    &&& forall|i: int| 0 <= i < 256 ==> #[trigger] counts[i] >= 1
    &&& sum_of(counts, 256) <= FREQ_LIMIT
}

/// The frequencies after `byte` was seen.
pub open spec fn seen(counts: Seq<u32>, byte: u8) -> Seq<u32> {
    let more = counts.update(byte as int, (counts[byte as int] + 1) as u32);
    if sum_of(more, 256) > FREQ_LIMIT {
        more.map_values(|c: u32| halved(c))
    } else {
        more
    }
}

/// Frequencies when nothing was seen.
pub open spec fn fresh_frequencies() -> Seq<u32> {
    Seq::new(256, |i: int| 1u32)
}

/// Simple order-0 frequency model.
#[derive(Clone, Copy)]
pub struct FreqModel {
    pub counts: [u32; 256],
    pub total: u32,
}

proof fn lemma_halved_sum(s: Seq<u32>, n: nat)
    requires
        n <= s.len(),
        forall|i: int| 0 <= i < s.len() ==> #[trigger] s[i] >= 1,
    ensures
        2 * sum_of(s.map_values(|c: u32| halved(c)), n) <= sum_of(s, n) + n,
    decreases n,
{
    if n > 0 {
        lemma_halved_sum(s, (n - 1) as nat);
    }
}

proof fn lemma_sum_ordered(s: Seq<u32>, i: nat, j: nat)
    requires
        i <= j,
    ensures
        sum_of(s, i) <= sum_of(s, j),
    decreases j,
{
    if i < j {
        lemma_sum_ordered(s, i, (j - 1) as nat);
    }
}

proof fn lemma_fresh_sum(n: nat)
    requires
        n <= 256,
    ensures
        sum_of(fresh_frequencies(), n) == n,
    decreases n,
{
    if n > 0 {
        lemma_fresh_sum((n - 1) as nat);
    }
}

impl FreqModel {
    /// The frequencies are within their bounds, and the total is theirs.
    pub open spec fn valid(self) -> bool {
        are_frequencies(self.counts@) && self.total == sum_of(self.counts@, 256)
    }

    /// A model that has seen nothing.
    pub fn new() -> (m: FreqModel)
        ensures
            m.valid(),
            m.counts@ == fresh_frequencies(),
    {
        let counts: [u32; 256] = [1;256];
        proof {
            assert(counts@ =~= fresh_frequencies());
            lemma_fresh_sum(256);
        }
        FreqModel { counts, total: 256 }
    }

    /// Feeds a byte to the model.
    pub fn update(&mut self, byte: u8)
        requires
            old(self).valid(),
        ensures
            final(self).valid(),
            final(self).counts@ == seen(old(self).counts@, byte),
    {
        let ghost start = self.counts@;
        let k: usize = byte as usize;
        proof {
            crate::coding::cdf::lemma_count_in_sum(start, byte as int, 256);
        }
        let count: u32 = self.counts[k] + 1;
        self.counts[k] = count;
        self.total = self.total + 1;
        proof {
            lemma_sum_update(start, byte as int, count, 256);
            assert(self.counts@ =~= start.update(byte as int, count));
        }
        if self.total > FREQ_LIMIT {
            self.rescale();
        }
    }

    /// Halves all frequencies, keeping them positive.
    fn rescale(&mut self)
        requires
            old(self).counts@.len() == 256,
            forall|i: int| 0 <= i < 256 ==> #[trigger] old(self).counts@[i] >= 1,
            sum_of(old(self).counts@, 256) <= FREQ_LIMIT + 1,
        ensures
            final(self).valid(),
            final(self).counts@ == old(self).counts@.map_values(|c: u32| halved(c)),
    {
        let ghost start = self.counts@;
        let ghost halves = start.map_values(|c: u32| halved(c));
        proof {
            lemma_halved_sum(start, 256);
        }
        self.total = 0;
        let mut i: usize = 0;
        while i < 256
            invariant
                i <= 256,
                self.counts@.len() == 256,
                start.len() == 256,
                halves == start.map_values(|c: u32| halved(c)),
                sum_of(halves, 256) <= FREQ_LIMIT,
                forall|k: int| 0 <= k < i ==> #[trigger] self.counts@[k] == halved(start[k]),
                forall|k: int| i <= k < 256 ==> #[trigger] self.counts@[k] == start[k],
                self.total == sum_of(halves, i as nat),
            decreases 256 - i,
        {
            let half: u32 = self.counts[i] / 2;
            let c: u32 = if half < 1 {
                1
            } else {
                half
            };
            proof {
                lemma_sum_ordered(halves, (i + 1) as nat, 256);
                assert(halves[i as int] == c);
            }
            self.counts[i] = c;
            self.total = self.total + c;
            i = i + 1;
        }
        assert(self.counts@ =~= halves);
    }
}

// The predictor's sizes.

/// Entries of the literal tables of orders 1 and 2.
pub const LIT_ORDER1_SIZE: usize = 16_384;

/// Entries of the literal table of order 3.
pub const LIT_ORDER3_SIZE: usize = 8_192;

/// Entries of the token table, one for each previous token.
pub const TOKEN_TABLE_SIZE: usize = 256;

/// How many literals the context holds.
pub const LIT_CONTEXT_LEN: usize = 4;

/// The context after a literal: the last four.
pub open spec fn shifted(context: Seq<u8>, byte: u8) -> Seq<u8> {
    if context.len() < LIT_CONTEXT_LEN {
        context.push(byte)
    } else {
        context.push(byte).drop_first()
    }
}

// The predictor.

/// The value of an [`Lz4AwarePredictor`].
pub struct Lz4Model {
    pub position: Lz4Position,
    pub last_token: u8,
    pub size_models: Seq<Seq<u32>>,
    pub token_table: Seq<Seq<u16>>,
    pub lit_ext: Seq<u32>,
    pub lit_order1: Seq<Seq<u16>>,
    pub lit_order2: Seq<Seq<u16>>,
    pub lit_order3: Seq<Seq<u16>>,
    pub lit_context: Seq<u8>,
    pub offset_low: Seq<u32>,
    pub offset_high: Seq<u32>,
    pub match_ext: Seq<u32>,
}

impl Lz4Model {
    /// Nothing was seen.
    pub open spec fn fresh() -> Lz4Model {
        Lz4Model {
            position: Lz4Position::start(),
            last_token: 0,
            size_models: Seq::new(4, |i: int| fresh_frequencies()),
            token_table: fresh_table(TOKEN_TABLE_SIZE as nat),
            lit_ext: fresh_frequencies(),
            lit_order1: fresh_table(LIT_ORDER1_SIZE as nat),
            lit_order2: fresh_table(LIT_ORDER1_SIZE as nat),
            lit_order3: fresh_table(LIT_ORDER3_SIZE as nat),
            lit_context: Seq::empty(),
            offset_low: fresh_frequencies(),
            offset_high: fresh_frequencies(),
            match_ext: fresh_frequencies(),
        }
    }

    /// The counts after a literal: the tables of all orders learn it, and it joins the
    /// context.
    pub open spec fn literal_learned(self, byte: u8) -> Lz4Model {
        Lz4Model {
            lit_order1: learned(self.lit_order1, self.lit_context, 1, byte),
            lit_order2: learned(self.lit_order2, self.lit_context, 2, byte),
            lit_order3: learned(self.lit_order3, self.lit_context, 3, byte),
            lit_context: shifted(self.lit_context, byte),
            ..self
        }
    }

    /// The counts after `byte` was seen at its position.
    pub open spec fn learned_at_position(self, byte: u8) -> Lz4Model {
        match self.position.state {
            Lz4ParseState::SizePrefix { byte_index } => Lz4Model {
                size_models: self.size_models.update(
                    byte_index as int,
                    seen(self.size_models[byte_index as int], byte),
                ),
                ..self
            },
            Lz4ParseState::Token => Lz4Model {
                token_table: self.token_table.update(
                    self.last_token as int,
                    bumped(self.token_table[self.last_token as int], byte),
                ),
                last_token: byte,
                ..self
            },
            Lz4ParseState::LitLenExt => Lz4Model { lit_ext: seen(self.lit_ext, byte), ..self },
            Lz4ParseState::Literals { .. } => self.literal_learned(byte),
            Lz4ParseState::MatchOffsetLow => Lz4Model {
                offset_low: seen(self.offset_low, byte),
                ..self
            },
            Lz4ParseState::MatchOffsetHigh => Lz4Model {
                offset_high: seen(self.offset_high, byte),
                ..self
            },
            Lz4ParseState::MatchLenExt => Lz4Model {
                match_ext: seen(self.match_ext, byte),
                ..self
            },
        }
    }

    /// The state after `byte` was seen.
    pub open spec fn counted(self, byte: u8) -> Lz4Model {
        Lz4Model {
            position: self.position.stepped(byte),
            ..self.learned_at_position(byte)
        }
    }
}

/// The counts that the next prediction rests on.
pub enum ActiveCounts {
    /// Those of a simple model.
    Frequencies(FreqModel),
    /// Those of a table entry.
    Entry([u16; 256]),
    /// Those of the literal tables, by their orders.
    Literal([Option<[u16; 256]>; 3]),
}

/// LZ-aware counts, guided by the position in the stream.
pub struct Lz4AwarePredictor {
    position: Lz4Position,
    last_token: u8,
    size_models: [FreqModel; 4],
    token_table: Vec<[u16; 256]>,
    lit_ext_model: FreqModel,
    lit_order1: Vec<[u16; 256]>,
    lit_order2: Vec<[u16; 256]>,
    lit_order3: Vec<[u16; 256]>,
    lit_context: VecDeque<u8>,
    offset_low_model: FreqModel,
    offset_high_model: FreqModel,
    match_ext_model: FreqModel,
}

impl View for Lz4AwarePredictor {
    type V = Lz4Model;

    closed spec fn view(&self) -> Lz4Model {
        Lz4Model {
            position: self.position,
            last_token: self.last_token,
            size_models: self.size_models@.map_values(|m: FreqModel| m.counts@),
            token_table: entries(self.token_table@),
            lit_ext: self.lit_ext_model.counts@,
            lit_order1: entries(self.lit_order1@),
            lit_order2: entries(self.lit_order2@),
            lit_order3: entries(self.lit_order3@),
            lit_context: self.lit_context@,
            offset_low: self.offset_low_model.counts@,
            offset_high: self.offset_high_model.counts@,
            match_ext: self.match_ext_model.counts@,
        }
    }
}

impl Lz4Model {
    /// `a` holds the counts that the next prediction rests on.
    pub open spec fn is_active(self, a: ActiveCounts) -> bool {
        match self.position.state {
            Lz4ParseState::SizePrefix { byte_index } => a matches ActiveCounts::Frequencies(m)
                && m.valid() && m.counts@ == self.size_models[byte_index as int],
            Lz4ParseState::Token => a matches ActiveCounts::Entry(e) && e@
                == self.token_table[self.last_token as int],
            Lz4ParseState::LitLenExt => a matches ActiveCounts::Frequencies(m) && m.valid()
                && m.counts@ == self.lit_ext,
            Lz4ParseState::Literals { .. } => a matches ActiveCounts::Literal(e) && entry_value(
                e@[0],
            ) == entry_for(self.lit_order1, self.lit_context, 1) && entry_value(e@[1])
                == entry_for(self.lit_order2, self.lit_context, 2) && entry_value(e@[2])
                == entry_for(self.lit_order3, self.lit_context, 3),
            Lz4ParseState::MatchOffsetLow => a matches ActiveCounts::Frequencies(m) && m.valid()
                && m.counts@ == self.offset_low,
            Lz4ParseState::MatchOffsetHigh => a matches ActiveCounts::Frequencies(m) && m.valid()
                && m.counts@ == self.offset_high,
            Lz4ParseState::MatchLenExt => a matches ActiveCounts::Frequencies(m) && m.valid()
                && m.counts@ == self.match_ext,
        }
    }
}

impl Lz4AwarePredictor {
    /// The position is one that a stream leads to, and all counts are within their bounds.
    pub closed spec fn wf(&self) -> bool {
        &&& self.position.valid()
        &&& forall|i: int| 0 <= i < 4 ==> (#[trigger] self.size_models@[i]).valid()
        &&& is_table(entries(self.token_table@), TOKEN_TABLE_SIZE as nat)
        &&& self.lit_ext_model.valid()
        &&& is_table(entries(self.lit_order1@), LIT_ORDER1_SIZE as nat)
        &&& is_table(entries(self.lit_order2@), LIT_ORDER1_SIZE as nat)
        &&& is_table(entries(self.lit_order3@), LIT_ORDER3_SIZE as nat)
        &&& self.lit_context@.len() <= LIT_CONTEXT_LEN
        &&& self.offset_low_model.valid()
        &&& self.offset_high_model.valid()
        &&& self.match_ext_model.valid()
    }

    /// A predictor that has seen nothing.
    pub fn new() -> (p: Lz4AwarePredictor)
        ensures
            p@ == Lz4Model::fresh(),
            p.wf(),
    {
        let size_models: [FreqModel; 4] = [
            FreqModel::new(),
            FreqModel::new(),
            FreqModel::new(),
            FreqModel::new(),
        ];
        let p = Lz4AwarePredictor {
            position: Lz4Position::new(),
            last_token: 0,
            size_models,
            token_table: new_table(TOKEN_TABLE_SIZE),
            lit_ext_model: FreqModel::new(),
            lit_order1: new_table(LIT_ORDER1_SIZE),
            lit_order2: new_table(LIT_ORDER1_SIZE),
            lit_order3: new_table(LIT_ORDER3_SIZE),
            lit_context: VecDeque::with_capacity(LIT_CONTEXT_LEN + 1),
            offset_low_model: FreqModel::new(),
            offset_high_model: FreqModel::new(),
            match_ext_model: FreqModel::new(),
        };
        assert(p@.size_models =~= Lz4Model::fresh().size_models);
        assert(p@.lit_context =~= Seq::empty());
        p
    }

    /// The position in the stream.
    pub fn state(&self) -> (s: Lz4ParseState)
        ensures
            s == self@.position.state,
    {
        self.position.state
    }

    /// The literal length read so far.
    pub fn lit_len_accum(&self) -> (n: usize)
        ensures
            n == self@.position.lit_len_accum,
    {
        self.position.lit_len_accum
    }

    /// The low nibble of the last token.
    pub fn match_len_nibble(&self) -> (n: u8)
        ensures
            n == self@.position.match_len_nibble,
    {
        self.position.match_len_nibble
    }

    /// The counts that the next prediction rests on.
    pub fn active(&self) -> (a: ActiveCounts)
        requires
            self.wf(),
        ensures
            self@.is_active(a),
    {
        match self.position.state {
            Lz4ParseState::SizePrefix { byte_index } => {
                ActiveCounts::Frequencies(self.size_models[byte_index as usize])
            },
            Lz4ParseState::Token => {
                let e = self.token_table[self.last_token as usize];
                assert(e@ == entries(self.token_table@)[self.last_token as int]);
                ActiveCounts::Entry(e)
            },
            Lz4ParseState::LitLenExt => ActiveCounts::Frequencies(self.lit_ext_model),
            Lz4ParseState::Literals { .. } => {
                let context = contiguous(&self.lit_context);
                ActiveCounts::Literal(
                    [
                        find_entry(&self.lit_order1, context.as_slice(), 1),
                        find_entry(&self.lit_order2, context.as_slice(), 2),
                        find_entry(&self.lit_order3, context.as_slice(), 3),
                    ],
                )
            },
            Lz4ParseState::MatchOffsetLow => ActiveCounts::Frequencies(self.offset_low_model),
            Lz4ParseState::MatchOffsetHigh => ActiveCounts::Frequencies(self.offset_high_model),
            Lz4ParseState::MatchLenExt => ActiveCounts::Frequencies(self.match_ext_model),
        }
    }

    /// Counts a literal in the tables of all orders and adds it to the context.
    fn update_literal(&mut self, byte: u8)
        requires
            old(self).wf(),
        ensures
            final(self)@ == old(self)@.literal_learned(byte),
            final(self).wf(),
    {
        let ghost before = self.lit_context@;
        let context = contiguous(&self.lit_context);
        hash_entry_update(&mut self.lit_order1, context.as_slice(), 1, byte);
        hash_entry_update(&mut self.lit_order2, context.as_slice(), 2, byte);
        hash_entry_update(&mut self.lit_order3, context.as_slice(), 3, byte);
        self.lit_context.push_back(byte);
        if self.lit_context.len() > LIT_CONTEXT_LEN {
            let _ = self.lit_context.pop_front();
        }
        assert(self.lit_context@ =~= shifted(before, byte));
    }

    /// Counts a token after the one before it.
    fn update_token(&mut self, byte: u8)
        requires
            old(self).wf(),
        ensures
            final(self)@ == (Lz4Model {
                token_table: old(self)@.token_table.update(
                    old(self)@.last_token as int,
                    bumped(old(self)@.token_table[old(self)@.last_token as int], byte),
                ),
                last_token: byte,
                ..old(self)@
            }),
            final(self).wf(),
    {
        let k: usize = self.last_token as usize;
        bump_at(&mut self.token_table, k, byte);
        self.last_token = byte;
    }

    /// Counts a byte of the size prefix.
    fn update_size(&mut self, k: usize, byte: u8)
        requires
            old(self).wf(),
            k < 4,
        ensures
            final(self)@ == (Lz4Model {
                size_models: old(self)@.size_models.update(
                    k as int,
                    seen(old(self)@.size_models[k as int], byte),
                ),
                ..old(self)@
            }),
            final(self).wf(),
    {
        let mut model = self.size_models[k];
        model.update(byte);
        self.size_models[k] = model;
        assert(self@.size_models =~= old(self)@.size_models.update(
            k as int,
            seen(old(self)@.size_models[k as int], byte),
        ));
    }

    /// Feeds a byte to the predictor.
    pub fn update(&mut self, byte: u8)
        requires
            old(self).wf(),
        ensures
            final(self)@ == old(self)@.counted(byte),
            final(self).wf(),
    {
        match self.position.state {
            Lz4ParseState::SizePrefix { byte_index } => {
                self.update_size(byte_index as usize, byte);
            },
            Lz4ParseState::Token => {
                self.update_token(byte);
            },
            Lz4ParseState::LitLenExt => {
                self.lit_ext_model.update(byte);
            },
            Lz4ParseState::Literals { .. } => {
                self.update_literal(byte);
            },
            Lz4ParseState::MatchOffsetLow => {
                self.offset_low_model.update(byte);
            },
            Lz4ParseState::MatchOffsetHigh => {
                self.offset_high_model.update(byte);
            },
            Lz4ParseState::MatchLenExt => {
                self.match_ext_model.update(byte);
            },
        }
        self.position.step(byte);
    }

    /// Forgets everything seen.
    pub fn reset(&mut self)
        ensures
            final(self)@ == Lz4Model::fresh(),
            final(self).wf(),
    {
        *self = Lz4AwarePredictor::new();
    }

    /// Human-readable name.
    pub fn name(&self) -> (s: &str)
        ensures
            s@ == "lz4-aware"@,
    {
        "lz4-aware"
    }

    /// Identifier stored in the archive header.
    pub fn predictor_id(&self) -> (id: PredictorId)
        ensures
            id == PredictorId::Lz4Aware,
    {
        PredictorId::Lz4Aware
    }
}

impl Default for Lz4AwarePredictor {
    fn default() -> (d: Lz4AwarePredictor)
        ensures
            d@ == Lz4Model::fresh(),
            d.wf(),
    {
        Lz4AwarePredictor::new()
    }
}

/// The position of a predictor is one that a stream leads to.
pub proof fn lz4_wf_is_valid(p: &Lz4AwarePredictor)
    requires
        p.wf(),
    ensures
        p@.position.valid(),
        p@.lit_context.len() <= LIT_CONTEXT_LEN,
{
}

/// From a token position, the bytes of a sequence are taken for what they are: behind the
/// token and the extension of its length stand as many literals as it says, then the two
/// bytes of the offset, then the extension of the match length where there is one.
pub proof fn sequence_parts_are_told_apart(
    p: Lz4Position,
    literals: Seq<u8>,
    offset: (u8, u8),
    match_len: nat,
    i: int,
)
    requires
        p.valid(),
        p.state is Token,
        literals.len() <= MAX_LIT_LEN,
        0 <= i < literals.len(),
    ensures
        ({
            let token = seq![(nibble_of(literals.len()) * 16 + nibble_of(match_len)) as u8];
            let head = token + extension_of(literals.len());
            &&& p.after(head + literals.take(i)).state == (Lz4ParseState::Literals {
                remaining: (literals.len() - i) as usize,
            })
            &&& p.after(head + literals).state is MatchOffsetLow
            &&& p.after(head + literals + seq![offset.0]).state is MatchOffsetHigh
            &&& match_len >= 15 <==> p.after(
                head + literals + seq![offset.0, offset.1],
            ).state is MatchLenExt
        }),
{
    let token = (nibble_of(literals.len()) * 16 + nibble_of(match_len)) as u8;
    let a = seq![token];
    let b = extension_of(literals.len());
    let head = a + b;
    lemma_after_append(p, a, b);
    reveal_with_fuel(Lz4Position::after, 3);
    assert(token / 16 == nibble_of(literals.len()));
    assert(token % 16 == nibble_of(match_len));
    assert(a.drop_first() =~= Seq::empty());
    let p1 = p.after(a);
    if literals.len() >= 15 {
        lemma_literal_extension(p1, (literals.len() - 15) as nat);
    }
    let p2 = p.after(head);
    lemma_after_append(p, head, literals.take(i));
    lemma_partly(p2, literals, i);
    lemma_after_append(p, head, literals);
    lemma_literals(p2, literals);
    let p3 = p.after(head + literals);
    let c = seq![offset.0, offset.1];
    lemma_after_append(p, head + literals, seq![offset.0]);
    lemma_after_append(p, head + literals, c);
    assert(seq![offset.0].drop_first() =~= Seq::empty());
    assert(c.drop_first() =~= seq![offset.1]);
    assert(seq![offset.1].drop_first() =~= Seq::empty());
    assert(p3.after(c) == p3.stepped(offset.0).stepped(offset.1));
}

proof fn lemma_partly(p: Lz4Position, literals: Seq<u8>, i: int)
    requires
        p.state == (Lz4ParseState::Literals { remaining: literals.len() as usize }),
        0 <= i < literals.len() <= usize::MAX,
    ensures
        p.after(literals.take(i)).state == (Lz4ParseState::Literals {
            remaining: (literals.len() - i) as usize,
        }),
    decreases i,
{
    if i > 0 {
        lemma_partly(p.stepped(literals[0]), literals.drop_first(), i - 1);
        assert(literals.take(i).drop_first() =~= literals.drop_first().take(i - 1));
    }
}

/// A byte that is seen counts once in a simple model: its count grows by one and no other
/// changes. Where they add up to half a million already, all are halved after that, but none
/// below 1.
pub proof fn frequencies_count_what_came(counts: Seq<u32>, byte: u8, i: int)
    requires
        are_frequencies(counts),
        0 <= i < 256,
    ensures
        ({
            let grown = if i == byte {
                counts[i] + 1
            } else {
                counts[i] as int
            };
            seen(counts, byte)[i] == if sum_of(counts, 256) < 500_000 {
                grown
            } else if grown < 2 {
                1
            } else {
                grown / 2
            }
        }),
        seen(counts, byte).len() == 256,
{
    crate::coding::cdf::lemma_count_in_sum(counts, byte as int, 256);
    lemma_sum_update(counts, byte as int, (counts[byte as int] + 1) as u32, 256);
}

/// A byte is counted where the prediction of it looked, by its position in the stream, and
/// nowhere else: each part of the stream has counts of its own, those of literals by the
/// literals before them and those of tokens by the token before.
pub proof fn parts_have_their_own_counts(m: Lz4Model, byte: u8)
    ensures
        ({
            let next = m.counted(byte);
            let state = m.position.state;
            &&& !(state is SizePrefix) ==> next.size_models == m.size_models
            &&& !(state is Token) ==> next.token_table == m.token_table && next.last_token
                == m.last_token
            &&& !(state is LitLenExt) ==> next.lit_ext == m.lit_ext
            &&& !(state is Literals) ==> next.lit_context == m.lit_context && next.lit_order1
                == m.lit_order1 && next.lit_order2 == m.lit_order2 && next.lit_order3
                == m.lit_order3
            &&& !(state is MatchOffsetLow) ==> next.offset_low == m.offset_low
            &&& !(state is MatchOffsetHigh) ==> next.offset_high == m.offset_high
            &&& !(state is MatchLenExt) ==> next.match_ext == m.match_ext
            &&& state is LitLenExt ==> next.lit_ext == seen(m.lit_ext, byte)
            &&& state is MatchOffsetLow ==> next.offset_low == seen(m.offset_low, byte)
            &&& state is MatchOffsetHigh ==> next.offset_high == seen(m.offset_high, byte)
            &&& state is MatchLenExt ==> next.match_ext == seen(m.match_ext, byte)
            &&& state is Token ==> next.last_token == byte
            &&& state is Literals ==> next.lit_order1 == learned(
                m.lit_order1,
                m.lit_context,
                1,
                byte,
            ) && next.lit_order2 == learned(m.lit_order2, m.lit_context, 2, byte)
                && next.lit_order3 == learned(m.lit_order3, m.lit_context, 3, byte)
            &&& next.position == m.position.stepped(byte)
        }),
{
}

/// A token is counted behind the token before it, a byte of the size at its place.
pub proof fn tokens_are_counted_by_the_one_before(m: Lz4Model, byte: u8, k: int)
    requires
        m.token_table.len() == 256,
        m.size_models.len() == 4,
        m.position.valid(),
    ensures
        m.position.state is Token && 0 <= k < 256 ==> m.counted(byte).token_table[k] == if k
            == m.last_token {
            bumped(m.token_table[k], byte)
        } else {
            m.token_table[k]
        },
        m.position.state matches Lz4ParseState::SizePrefix { byte_index } ==> (0 <= k < 4
            ==> m.counted(byte).size_models[k] == if k == byte_index {
            seen(m.size_models[k], byte)
        } else {
            m.size_models[k]
        }),
{
}

/// The context of literals are the last four of them, in order.
pub proof fn literal_contexts_are_the_last_four(context: Seq<u8>, byte: u8)
    requires
        context.len() <= 4,
    ensures
        shifted(context, byte).len() == if context.len() < 4 {
            context.len() as int + 1
        } else {
            4
        },
        shifted(context, byte) == context.push(byte).skip(
            context.len() + 1 - shifted(context, byte).len(),
        ),
{
    assert(shifted(context, byte) =~= context.push(byte).skip(
        context.len() + 1 - shifted(context, byte).len(),
    ));
}

/// What [`Lz4AwarePredictor::update`] and [`Lz4AwarePredictor::active`] do: the counts that
/// predict a byte are those that learn it, and the position moves on by it.
pub proof fn updates_teach_the_active_counts(
    p: &mut Lz4AwarePredictor,
    byte: u8,
    before: ActiveCounts,
    i: int,
)
    requires
        call_ensures(Lz4AwarePredictor::update, (p, byte), ()),
        call_ensures(Lz4AwarePredictor::active, (old(p),), before),
        old(p).wf(),
        0 <= i < 256,
    ensures
        final(p)@.position == old(p)@.position.stepped(byte),
        ({
            let after = match old(p)@.position.state {
                Lz4ParseState::SizePrefix { byte_index } => final(p)@.size_models[byte_index as int],
                Lz4ParseState::LitLenExt => final(p)@.lit_ext,
                Lz4ParseState::MatchOffsetLow => final(p)@.offset_low,
                Lz4ParseState::MatchOffsetHigh => final(p)@.offset_high,
                _ => final(p)@.match_ext,
            };
            before matches ActiveCounts::Frequencies(m) ==> (m.total < 500_000 ==> after[i]
                == m.counts@[i] + if i == byte {
                1int
            } else {
                0
            })
        }),
        before matches ActiveCounts::Entry(e) ==> (e@[byte as int] + 1 < 8_000
            ==> final(p)@.token_table[old(p)@.last_token as int][i] == e@[i] + if i == byte {
            1int
        } else {
            0
        }) && final(p)@.last_token == byte,
        before matches ActiveCounts::Literal(e) ==> final(p)@.lit_context == shifted(
            old(p)@.lit_context,
            byte,
        ) && (e@[0] is Some && e@[0]->0@[byte as int] + 1 < 8_000 ==> entry_for(
            final(p)@.lit_order1,
            old(p)@.lit_context,
            1,
        )->0[i] == e@[0]->0@[i] + if i == byte {
            1int
        } else {
            0
        }) && (e@[1] is Some && e@[1]->0@[byte as int] + 1 < 8_000 ==> entry_for(
            final(p)@.lit_order2,
            old(p)@.lit_context,
            2,
        )->0[i] == e@[1]->0@[i] + if i == byte {
            1int
        } else {
            0
        }) && (e@[2] is Some && e@[2]->0@[byte as int] + 1 < 8_000 ==> entry_for(
            final(p)@.lit_order3,
            old(p)@.lit_context,
            3,
        )->0[i] == e@[2]->0@[i] + if i == byte {
            1int
        } else {
            0
        }),
{
    let m = old(p)@;
    parts_have_their_own_counts(m, byte);
    match before {
        ActiveCounts::Frequencies(f) => {
            assert(are_frequencies(f.counts@));
            frequencies_count_what_came(f.counts@, byte, i);
        },
        ActiveCounts::Entry(e) => {
            assert(m.token_table[m.last_token as int] == e@);
            assert(super::tables::is_entry(e@));
        },
        ActiveCounts::Literal(e) => {
            if m.lit_context.len() >= 1 {
                super::tables::entries_learn_what_followed(
                    m.lit_order1,
                    m.lit_context,
                    1,
                    byte,
                    i,
                    m.lit_context,
                );
            }
            if m.lit_context.len() >= 2 {
                super::tables::entries_learn_what_followed(
                    m.lit_order2,
                    m.lit_context,
                    2,
                    byte,
                    i,
                    m.lit_context,
                );
            }
            if m.lit_context.len() >= 3 {
                super::tables::entries_learn_what_followed(
                    m.lit_order3,
                    m.lit_context,
                    3,
                    byte,
                    i,
                    m.lit_context,
                );
            }
        },
    }
}

/// What a reset leaves, and what the predictor calls itself.
pub proof fn lz4_resets_forget(p: &mut Lz4AwarePredictor, q: Lz4AwarePredictor, id: PredictorId, i: int)
    requires
        call_ensures(Lz4AwarePredictor::reset, (p,), ()),
        call_ensures(Lz4AwarePredictor::predictor_id, (&q,), id),
        0 <= i < 256,
    ensures
        final(p)@.position == Lz4Position::start(),
        final(p)@.lit_context.len() == 0,
        final(p)@.offset_low[i] == 1 && final(p)@.offset_high[i] == 1 && final(p)@.lit_ext[i] == 1
            && final(p)@.match_ext[i] == 1,
        final(p)@.token_table[i][i] == 1,
        final(p)@.lit_order1[i][i] == 1 && final(p)@.lit_order2[i][i] == 1 && final(
            p)@.lit_order3[i][i] == 1,
        id == PredictorId::Lz4Aware,
{
}

} // verus!

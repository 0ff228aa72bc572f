//! Counts of a context-mixing predictor: several order-N models side by side.
//!
//! Each model counts what followed the last N bytes. How their predictions are weighted
//! and mixed is floating-point arithmetic, and not done here.

use super::tables::{
    contiguous, entries, entry_for, entry_value, find_entry, fresh_table, hash_entry_update, is_table, learned,
    lemma_learned_len, new_table,
};
use crate::format::PredictorId;
use std::collections::VecDeque;
use vstd::prelude::*;
use vstd::string::*;

verus! {

/// The most bits that index a table: 1 Mi entries of 512 bytes.
pub const MAX_TABLE_BITS: usize = 20;

/// The most models in a mixer.
pub const MAX_NUM_MODELS: usize = 16;

/// The most memory for all tables (512 MiB).
pub const MAX_TOTAL_MEMORY: u64 = 536_870_912;

/// Bytes of a table entry.
pub const ENTRY_SIZE: u64 = 512;

/// 2 to the power of `n`.
pub open spec fn two_to(n: nat) -> nat
    decreases n,
{
    if n == 0 {
        1
    } else {
        2 * two_to((n - 1) as nat)
    }
}

/// How many entries a table for the given bits has.
pub open spec fn entry_count(bits: usize) -> nat {
    two_to(
        if bits < MAX_TABLE_BITS {
            bits as nat
        } else {
            MAX_TABLE_BITS as nat
        },
    )
}

proof fn lemma_two_to(n: nat)
    requires
        n <= 20,
    ensures
        1 <= two_to(n) <= 1_048_576,
    decreases n,
{
    lemma_two_to_ordered(n, 20);
    assert(two_to(20) == 1_048_576) by {
        reveal_with_fuel(two_to, 21);
    }
}

proof fn lemma_two_to_ordered(n: nat, m: nat)
    requires
        n <= m,
    ensures
        1 <= two_to(n) <= two_to(m),
    decreases m,
{
    if n < m {
        lemma_two_to_ordered(n, (m - 1) as nat);
    } else if n > 0 {
        lemma_two_to_ordered((n - 1) as nat, (n - 1) as nat);
    }
}

/// The number of entries of a table for the given bits.
fn table_entries(bits: usize) -> (n: usize)
    ensures
        n == entry_count(bits),
        1 <= n <= 1_048_576,
{
    let capped: usize = if bits < MAX_TABLE_BITS {
        bits
    } else {
        MAX_TABLE_BITS
    };
    let mut n: usize = 1;
    let mut i: usize = 0;
    while i < capped
        invariant
            i <= capped <= 20,
            n == two_to(i as nat),
        decreases capped - i,
    {
        proof {
            lemma_two_to((i + 1) as nat);
        }
        n = 2 * n;
        i = i + 1;
    }
    proof {
        lemma_two_to(capped as nat);
    }
    n
}

// Configuration.

/// Configuration for the context mixer.
pub struct ContextMixerConfig {
    /// Order and table bits of each model: its table has 2 to the power of the bits
    /// entries.
    pub orders: Vec<(usize, usize)>,
    /// Whether this is a lightweight configuration (affects the identifier).
    pub is_lightweight: bool,
    /// Learning rate for the weights, as the bit pattern of an `f64`.
    pub learning_rate: u64,
    /// Maximum context length to keep.
    pub max_context: usize,
}

/// The value of a [`ContextMixerConfig`].
pub struct ConfigModel {
    pub orders: Seq<(usize, usize)>,
    pub is_lightweight: bool,
    pub learning_rate: u64,
    pub max_context: usize,
}

impl View for ContextMixerConfig {
    type V = ConfigModel;

    open spec fn view(&self) -> ConfigModel {
        ConfigModel {
            orders: self.orders@,
            is_lightweight: self.is_lightweight,
            learning_rate: self.learning_rate,
            max_context: self.max_context,
        }
    }
}

/// The bytes that tables take.
pub open spec fn table_memory(orders: Seq<(usize, usize)>) -> nat
    decreases orders.len(),
{
    if orders.len() == 0 {
        0
    } else {
        table_memory(orders.drop_last()) + entry_count(orders.last().1) * ENTRY_SIZE as nat
    }
}

impl ConfigModel {
    /// Orders 1 to 6 with moderate table sizes, about 100 MiB; learning rate 0.002.
    pub open spec fn standard() -> ConfigModel {
        ConfigModel {
            orders: seq![
                (1usize, 14usize),
                (2usize, 16usize),
                (3usize, 16usize),
                (4usize, 15usize),
                (5usize, 14usize),
                (6usize, 13usize),
            ],
            is_lightweight: false,
            learning_rate: 0x3F60_624D_D2F1_A9FC,
            max_context: 8,
        }
    }

    /// Orders 1 to 3 with small tables; learning rate 0.005.
    pub open spec fn lightweight() -> ConfigModel {
        ConfigModel {
            orders: seq![(1usize, 12usize), (2usize, 12usize), (3usize, 11usize)],
            is_lightweight: true,
            learning_rate: 0x3F74_7AE1_47AE_147B,
            max_context: 4,
        }
    }

    /// The configuration that is used in its place: the lightweight one where it has no
    /// models, too many, or tables that take too much memory.
    pub open spec fn admitted(self) -> ConfigModel {
        if self.orders.len() == 0 || self.orders.len() > MAX_NUM_MODELS || table_memory(
            self.orders,
        ) > MAX_TOTAL_MEMORY {
            ConfigModel::lightweight()
        } else {
            self
        }
    }
}

impl Default for ContextMixerConfig {
    fn default() -> (c: ContextMixerConfig)
        ensures
            c@ == ConfigModel::standard(),
    {
        let mut orders: Vec<(usize, usize)> = Vec::new();
        orders.push((1, 14));
        orders.push((2, 16));
        orders.push((3, 16));
        orders.push((4, 15));
        orders.push((5, 14));
        orders.push((6, 13));
        assert(orders@ =~= ConfigModel::standard().orders);
        ContextMixerConfig {
            orders,
            is_lightweight: false,
            learning_rate: 0x3F60_624D_D2F1_A9FC,
            max_context: 8,
        }
    }
}

impl ContextMixerConfig {
    /// Lightweight configuration.
    pub fn lightweight() -> (c: ContextMixerConfig)
        ensures
            c@ == ConfigModel::lightweight(),
    {
        let mut orders: Vec<(usize, usize)> = Vec::new();
        orders.push((1, 12));
        orders.push((2, 12));
        orders.push((3, 11));
        assert(orders@ =~= ConfigModel::lightweight().orders);
        ContextMixerConfig {
            orders,
            is_lightweight: true,
            learning_rate: 0x3F74_7AE1_47AE_147B,
            max_context: 4,
        }
    }

    /// The bytes that the tables take, where there are not too many models.
    fn memory(&self) -> (n: u64)
        requires
            self.orders@.len() <= MAX_NUM_MODELS,
        ensures
            n == table_memory(self.orders@),
    {
        let mut n: u64 = 0;
        let mut i: usize = 0;
        assert(self.orders@.take(0) =~= Seq::empty());
        while i < self.orders.len()
            invariant
                i <= self.orders@.len() <= 16,
                n == table_memory(self.orders@.take(i as int)),
                n <= i * 536_870_912,
            decreases self.orders@.len() - i,
        {
            assert(self.orders@.take(i + 1).drop_last() =~= self.orders@.take(i as int));
            n = n + table_entries(self.orders[i].1) as u64 * ENTRY_SIZE;
            i = i + 1;
        }
        assert(self.orders@.take(i as int) =~= self.orders@);
        n
    }

    /// The configuration that is used in its place.
    fn within_limits(self) -> (c: ContextMixerConfig)
        ensures
            c@ == self@.admitted(),
    {
        if self.orders.len() > MAX_NUM_MODELS || self.orders.len() == 0 {
            return ContextMixerConfig::lightweight();
        }
        if self.memory() > MAX_TOTAL_MEMORY {
            return ContextMixerConfig::lightweight();
        }
        self
    }
}

// Models.

/// A single order-N context model: a hash table from the last N bytes to counts.
pub struct OrderNModel {
    order: usize,
    table: Vec<[u16; 256]>,
}

/// The value of an [`OrderNModel`].
pub struct OrderModel {
    pub order: int,
    pub table: Seq<Seq<u16>>,
}

impl View for OrderNModel {
    type V = OrderModel;

    closed spec fn view(&self) -> OrderModel {
        OrderModel { order: self.order as int, table: entries(self.table@) }
    }
}

impl OrderModel {
    /// Its table has entries, and their counts are within their bounds.
    pub open spec fn valid(self) -> bool {
        0 < self.table.len() <= 1_048_576 && is_table(self.table, self.table.len())
    }

    /// A model that has seen nothing.
    pub open spec fn fresh(order: usize, bits: usize) -> OrderModel {
        OrderModel { order: order as int, table: fresh_table(entry_count(bits)) }
    }

    /// The model after `byte` followed `context`.
    pub open spec fn counted(self, context: Seq<u8>, byte: u8) -> OrderModel {
        OrderModel { table: learned(self.table, context, self.order, byte), ..self }
    }

    /// The counts of what followed `context`, where that is long enough.
    pub open spec fn counts(self, context: Seq<u8>) -> Option<Seq<u16>> {
        entry_for(self.table, context, self.order)
    }
}

impl OrderNModel {
    /// A model that has seen nothing.
    pub fn new(order: usize, table_bits: usize) -> (m: OrderNModel)
        ensures
            m@ == OrderModel::fresh(order, table_bits),
            m@.valid(),
    {
        let size: usize = table_entries(table_bits);
        OrderNModel { order, table: new_table(size) }
    }

    /// The counts of what followed `context`, where that is long enough.
    pub fn counts(&self, context: &[u8]) -> (r: Option<[u16; 256]>)
        requires
            self@.valid(),
        ensures
            entry_value(r) == self@.counts(context@),
    {
        find_entry(&self.table, context, self.order)
    }

    /// Counts a byte behind a context.
    pub fn update(&mut self, context: &[u8], byte: u8)
        requires
            old(self)@.valid(),
        ensures
            final(self)@ == old(self)@.counted(context@, byte),
            final(self)@.valid(),
    {
        hash_entry_update(&mut self.table, context, self.order, byte);
    }

    /// Forgets everything seen.
    pub fn reset(&mut self)
        requires
            old(self)@.valid(),
        ensures
            final(self)@ == (OrderModel {
                order: old(self)@.order,
                table: fresh_table(old(self)@.table.len()),
            }),
            final(self)@.valid(),
    {
        self.table = new_table(self.table.len());
    }

    /// The bytes that the table takes.
    pub fn memory_usage(&self) -> (n: usize)
        requires
            self@.valid(),
        ensures
            n == self@.table.len() * 512,
    {
        self.table.len() * 512
    }
}

// The mixer.

/// The value of a [`ContextMixer`].
pub struct MixerModel {
    pub models: Seq<OrderModel>,
    pub learning_rate: u64,
    pub context: Seq<u8>,
    pub max_context: usize,
    pub is_lightweight: bool,
}

/// A context after `byte`, cut to the last `max` bytes.
pub open spec fn shifted(context: Seq<u8>, byte: u8, max: usize) -> Seq<u8> {
    let grown = context.push(byte);
    if grown.len() > max {
        grown.drop_first()
    } else {
        grown
    }
}

impl MixerModel {
    /// A mixer that has seen nothing.
    pub open spec fn fresh(config: ConfigModel) -> MixerModel {
        MixerModel {
            models: Seq::new(
                config.orders.len(),
                |i: int| OrderModel::fresh(config.orders[i].0, config.orders[i].1),
            ),
            learning_rate: config.learning_rate,
            context: Seq::empty(),
            max_context: config.max_context,
            is_lightweight: config.is_lightweight,
        }
    }

    /// The mixer after `byte` was seen: all models learn it.
    pub open spec fn counted(self, byte: u8) -> MixerModel {
        MixerModel {
            models: self.models.map_values(|m: OrderModel| m.counted(self.context, byte)),
            context: shifted(self.context, byte, self.max_context),
            ..self
        }
    }

    /// The mixer when everything seen is forgotten.
    pub open spec fn forgotten(self) -> MixerModel {
        MixerModel {
            models: self.models.map_values(
                |m: OrderModel| OrderModel { table: fresh_table(m.table.len()), ..m },
            ),
            context: Seq::empty(),
            ..self
        }
    }

    /// There are models, not too many and not too large, and all are valid.
    pub open spec fn valid(self) -> bool {
        &&& 0 < self.models.len() <= MAX_NUM_MODELS
        &&& models_memory(self.models) <= MAX_TOTAL_MEMORY
        &&& forall|i: int| 0 <= i < self.models.len() ==> (#[trigger] self.models[i]).valid()
        &&& self.context.len() <= self.max_context
    }
}

/// The bytes that models take.
pub open spec fn models_memory(models: Seq<OrderModel>) -> nat
    decreases models.len(),
{
    if models.len() == 0 {
        0
    } else {
        models_memory(models.drop_last()) + models.last().table.len() * 512
    }
}

/// Models with tables of the same sizes take the same memory.
proof fn lemma_same_memory(a: Seq<OrderModel>, b: Seq<OrderModel>)
    requires
        a.len() == b.len(),
        forall|i: int| 0 <= i < a.len() ==> (#[trigger] a[i]).table.len() == b[i].table.len(),
    ensures
        models_memory(a) == models_memory(b),
    decreases a.len(),
{
    if a.len() > 0 {
        assert(a.last().table.len() == b.last().table.len());
        lemma_same_memory(a.drop_last(), b.drop_last());
    }
}

/// Models made for some orders take the memory that their tables were estimated at.
proof fn lemma_fresh_memory(models: Seq<OrderModel>, orders: Seq<(usize, usize)>)
    requires
        models.len() == orders.len(),
        forall|i: int|
            0 <= i < models.len() ==> #[trigger] models[i] == OrderModel::fresh(
                orders[i].0,
                orders[i].1,
            ),
    ensures
        models_memory(models) == table_memory(orders),
    decreases models.len(),
{
    if models.len() > 0 {
        assert(models.last() == OrderModel::fresh(orders.last().0, orders.last().1));
        lemma_fresh_memory(models.drop_last(), orders.drop_last());
    }
}

/// How many bytes the buffer can hold without growing, by `VecDeque::capacity`. That is at
/// least what it holds, and no more than the largest size of an allocation. How much room
/// an allocation gives beyond what was asked for is not stated.
#[verifier::external_body]
fn room_in(buffer: &VecDeque<u8>) -> (n: usize)
    ensures
        buffer@.len() <= n <= isize::MAX,
{
    buffer.capacity()
}

/// Context-mixing counts of several order-N models.
pub struct ContextMixer {
    models: Vec<OrderNModel>,
    learning_rate: u64,
    context_buf: VecDeque<u8>,
    max_context: usize,
    is_lightweight: bool,
}

spec fn model_values(models: Seq<OrderNModel>) -> Seq<OrderModel> {
    models.map_values(|m: OrderNModel| m@)
}

impl View for ContextMixer {
    type V = MixerModel;

    closed spec fn view(&self) -> MixerModel {
        MixerModel {
            models: model_values(self.models@),
            learning_rate: self.learning_rate,
            context: self.context_buf@,
            max_context: self.max_context,
            is_lightweight: self.is_lightweight,
        }
    }
}

impl ContextMixer {
    /// The buffer of the context may have room for `n` bytes.
    pub closed spec fn may_have_room(&self, n: usize) -> bool {
        call_ensures(room_in, (&self.context_buf,), n)
    }

    /// A mixer with the default configuration, about 100 MiB.
    pub fn new() -> (m: ContextMixer)
        ensures
            m@ == MixerModel::fresh(ConfigModel::standard().admitted()),
            m@.valid(),
    {
        ContextMixer::with_config(ContextMixerConfig::default())
    }

    /// A mixer with the given configuration, or the lightweight one where that has no
    /// models, too many, or too large tables.
    ///
    /// A buffer for the context is made at once, so that must fit in memory.
    pub fn with_config(config: ContextMixerConfig) -> (m: ContextMixer)
        requires
            config@.admitted().max_context < isize::MAX,
        ensures
            m@ == MixerModel::fresh(config@.admitted()),
            m@.valid(),
    {
        let ghost asked = config@;
        let config = config.within_limits();
        let mut models: Vec<OrderNModel> = Vec::new();
        let mut i: usize = 0;
        while i < config.orders.len()
            invariant
                i <= config.orders@.len(),
                models@.len() == i,
                forall|k: int|
                    0 <= k < i ==> (#[trigger] models@[k])@.valid() && models@[k]@
                        == OrderModel::fresh(config.orders@[k].0, config.orders@[k].1),
            decreases config.orders@.len() - i,
        {
            let (order, bits) = config.orders[i];
            models.push(OrderNModel::new(order, bits));
            i = i + 1;
        }
        let mixer = ContextMixer {
            models,
            learning_rate: config.learning_rate,
            context_buf: VecDeque::with_capacity(config.max_context + 1),
            max_context: config.max_context,
            is_lightweight: config.is_lightweight,
        };
        proof {
            let fresh = MixerModel::fresh(config@);
            assert(mixer@.models =~= fresh.models);
            assert(mixer@.context =~= fresh.context);
            assert forall|k: int| 0 <= k < mixer@.models.len() implies (
            #[trigger] mixer@.models[k]).valid() by {
                assert(mixer@.models[k] == models@[k]@);
            }
            lemma_fresh_memory(mixer@.models, config@.orders);
            admitted_config_is_bounded(asked);
        }
        mixer
    }

    /// How many models there are.
    pub fn model_count(&self) -> (n: usize)
        ensures
            n == self@.models.len(),
    {
        self.models.len()
    }

    /// The learning rate for the weights, as the bit pattern of an `f64`.
    pub fn learning_rate(&self) -> (r: u64)
        ensures
            r == self@.learning_rate,
    {
        self.learning_rate
    }

    /// The counts of model `k` for the current context, where that is long enough.
    pub fn counts(&self, k: usize) -> (r: Option<[u16; 256]>)
        requires
            self@.valid(),
            k < self@.models.len(),
        ensures
            entry_value(r) == self@.models[k as int].counts(self@.context),
    {
        assert(self@.models[k as int].valid());
        let context = contiguous(&self.context_buf);
        self.models[k].counts(context.as_slice())
    }

    /// The bytes that the tables take, a buffer with room for `room` bytes, and eight bytes
    /// for each weight.
    pub fn memory_with_room(&self, room: usize) -> (n: usize)
        requires
            self@.valid(),
            room <= isize::MAX,
        ensures
            n == models_memory(self@.models) + room + self@.models.len() * 8,
    {
        let ghost all = self@.models;
        let mut n: u64 = 0;
        let mut i: usize = 0;
        assert(all.take(0) =~= Seq::empty());
        while i < self.models.len()
            invariant
                i <= self.models@.len() == all.len(),
                all.len() <= 16,
                all == self@.models,
                self@.valid(),
                n == models_memory(all.take(i as int)),
                n <= i * 536_870_912,
            decreases self.models@.len() - i,
        {
            proof {
                assert(all[i as int].valid());
                assert(all.take(i + 1).drop_last() =~= all.take(i as int));
            }
            n = n + self.models[i].memory_usage() as u64;
            i = i + 1;
        }
        proof {
            assert(all.take(i as int) =~= all);
        }
        n as usize + room + self.models.len() * 8
    }

    /// Approximate total memory usage in bytes: the tables, the buffer of the context and
    /// eight bytes for each weight.
    pub fn memory_usage(&self) -> (n: usize)
        requires
            self@.valid(),
        ensures
            exists|room: usize| #[trigger]
                self.may_have_room(room) && self@.context.len() <= room && n == models_memory(
                    self@.models,
                ) + room + self@.models.len() * 8,
    {
        let room: usize = room_in(&self.context_buf);
        assert(self.may_have_room(room));
        self.memory_with_room(room)
    }

    /// Feeds a byte to the counts of all models.
    pub fn update(&mut self, byte: u8)
        requires
            old(self)@.valid(),
        ensures
            final(self)@ == old(self)@.counted(byte),
            final(self)@.valid(),
    {
        let ghost start = self@;
        let context_bytes = contiguous(&self.context_buf);
        let ghost context = self.context_buf@;
        let mut i: usize = 0;
        while i < self.models.len()
            invariant
                i <= self.models@.len() == start.models.len(),
                start.valid(),
                start.context == context,
                self.context_buf@ == context,
                context_bytes@ == context,
                self.learning_rate == start.learning_rate,
                self.max_context == start.max_context,
                self.is_lightweight == start.is_lightweight,
                forall|k: int|
                    0 <= k < i ==> (#[trigger] self.models@[k])@ == start.models[k].counted(
                        context,
                        byte,
                    ) && self.models@[k]@.valid(),
                forall|k: int|
                    i <= k < self.models@.len() ==> (#[trigger] self.models@[k])@
                        == start.models[k],
            decreases self.models@.len() - i,
        {
            assert(start.models[i as int].valid());
            self.models[i].update(context_bytes.as_slice(), byte);
            i = i + 1;
        }
        self.context_buf.push_back(byte);
        if self.context_buf.len() > self.max_context {
            let _ = self.context_buf.pop_front();
        }
        proof {
            assert forall|k: int| 0 <= k < start.models.len() implies (
            #[trigger] start.models[k]).table.len() == self@.models[k].table.len() by {
                assert(start.models[k].valid());
                assert(self@.models[k] == self.models@[k]@);
                lemma_learned_len(start.models[k].table, context, start.models[k].order, byte);
            }
            lemma_same_memory(start.models, self@.models);
            assert(self@.models =~= start.counted(byte).models);
            assert(self@.context =~= start.counted(byte).context);
            assert forall|k: int| 0 <= k < self@.models.len() implies (
            #[trigger] self@.models[k]).valid() by {
                assert(self@.models[k] == self.models@[k]@);
            }
        }
    }

    /// Forgets everything seen.
    pub fn reset(&mut self)
        requires
            old(self)@.valid(),
        ensures
            final(self)@ == old(self)@.forgotten(),
            final(self)@.valid(),
    {
        let ghost start = self@;
        let mut i: usize = 0;
        while i < self.models.len()
            invariant
                i <= self.models@.len() == start.models.len(),
                start.valid(),
                self.learning_rate == start.learning_rate,
                self.max_context == start.max_context,
                self.is_lightweight == start.is_lightweight,
                forall|k: int|
                    0 <= k < i ==> (#[trigger] self.models@[k])@ == (OrderModel {
                        table: fresh_table(start.models[k].table.len()),
                        ..start.models[k]
                    }) && self.models@[k]@.valid(),
                forall|k: int|
                    i <= k < self.models@.len() ==> (#[trigger] self.models@[k])@
                        == start.models[k],
            decreases self.models@.len() - i,
        {
            assert(start.models[i as int].valid());
            self.models[i].reset();
            i = i + 1;
        }
        self.context_buf.clear();
        proof {
            assert forall|k: int| 0 <= k < start.models.len() implies (
            #[trigger] start.models[k]).table.len() == self@.models[k].table.len() by {
                assert(self@.models[k] == self.models@[k]@);
            }
            lemma_same_memory(start.models, self@.models);
            assert(self@.models =~= start.forgotten().models);
            assert(self@.context =~= start.forgotten().context);
            assert forall|k: int| 0 <= k < self@.models.len() implies (
            #[trigger] self@.models[k]).valid() by {
                assert(self@.models[k] == self.models@[k]@);
            }
        }
    }

    /// Human-readable name.
    pub fn name(&self) -> (s: &str)
        ensures
            s@ == "context-mixer"@,
    {
        "context-mixer"
    }

    /// Identifier stored in the archive header.
    pub fn predictor_id(&self) -> (id: PredictorId)
        ensures
            id == if self@.is_lightweight {
                PredictorId::ContextMixerLight
            } else {
                PredictorId::ContextMixer
            },
    {
        if self.is_lightweight {
            PredictorId::ContextMixerLight
        } else {
            PredictorId::ContextMixer
        }
    }
}

impl Default for ContextMixer {
    fn default() -> (d: ContextMixer)
        ensures
            d@ == MixerModel::fresh(ConfigModel::standard().admitted()),
            d@.valid(),
    {
        ContextMixer::new()
    }
}

// Laws.

/// Whatever the configuration, the tables of a mixer stay within the memory limit, and it
/// has at least one model.
pub proof fn admitted_config_is_bounded(config: ConfigModel)
    ensures
        table_memory(config.admitted().orders) <= MAX_TOTAL_MEMORY,
        0 < config.admitted().orders.len() <= MAX_NUM_MODELS,
{
    let light = ConfigModel::lightweight().orders;
    let two = light.drop_last();
    let one = two.drop_last();
    reveal_with_fuel(two_to, 13);
    assert(two.last() == (2usize, 12usize));
    assert(one.last() == (1usize, 12usize));
    assert(one.drop_last().len() == 0);
    assert(table_memory(one.drop_last()) == 0);
    assert(table_memory(one) == 4096 * 512);
    assert(table_memory(two) == 8192 * 512);
    assert(table_memory(light) == 10240 * 512);
}

/// A mixer made with the given configuration, whatever it has seen since.
pub open spec fn made_with(m: MixerModel, config: ConfigModel) -> bool {
    &&& m.models.len() == config.orders.len()
    &&& forall|i: int|
        0 <= i < m.models.len() ==> (#[trigger] m.models[i]).order == config.orders[i].0
            && m.models[i].table.len() == entry_count(config.orders[i].1)
    &&& m.learning_rate == config.learning_rate
    &&& m.max_context == config.max_context
    &&& m.is_lightweight == config.is_lightweight
}

/// A mixer that forgets everything is as it was made, whatever it has seen.
pub proof fn forgotten_is_fresh(m: MixerModel, config: ConfigModel, byte: u8)
    requires
        made_with(m, config),
    ensures
        m.forgotten() == MixerModel::fresh(config),
        made_with(m.counted(byte), config),
        made_with(MixerModel::fresh(config), config),
{
    let fresh = MixerModel::fresh(config);
    assert forall|i: int| 0 <= i < fresh.models.len() implies m.forgotten().models[i]
        == fresh.models[i] by {
        assert(m.models[i].table.len() == entry_count(config.orders[i].1));
    }
    assert(m.forgotten().models =~= fresh.models);
    assert forall|i: int| 0 <= i < m.models.len() implies (#[trigger] m.counted(
        byte,
    ).models[i]).order == config.orders[i].0 && m.counted(byte).models[i].table.len()
        == entry_count(config.orders[i].1) by {
        let bits = config.orders[i].1;
        assert(m.models[i].order == config.orders[i].0);
        lemma_two_to(
            if bits < MAX_TABLE_BITS {
                bits as nat
            } else {
                MAX_TABLE_BITS as nat
            },
        );
        lemma_learned_len(m.models[i].table, m.context, m.models[i].order, byte);
    }
}

/// A table has twice as many entries for one bit more, from one entry without bits up to a
/// million for 20 bits and more.
pub proof fn bits_double_the_entries(bits: usize)
    ensures
        entry_count(0) == 1,
        bits < 20 ==> entry_count((bits + 1) as usize) == 2 * entry_count(bits),
        bits >= 20 ==> entry_count(bits) == 1_048_576,
{
    assert(two_to(20) == 1_048_576) by {
        reveal_with_fuel(two_to, 21);
    }
}

/// A configuration within the limits is used as it is: one to sixteen models that take at
/// most 512 MiB. Any other is replaced by the lightweight one.
pub proof fn configs_within_limits_are_kept(config: ConfigModel)
    ensures
        1 <= config.orders.len() <= 16 && table_memory(config.orders) <= 536_870_912
            ==> config.admitted() == config,
        !(1 <= config.orders.len() <= 16 && table_memory(config.orders) <= 536_870_912)
            ==> config.admitted() == ConfigModel::lightweight(),
{
}

/// The memory of tables is that of their entries, 512 bytes each, for all orders.
pub proof fn tables_take_their_entries(orders: Seq<(usize, usize)>, order: usize, bits: usize)
    ensures
        table_memory(orders.push((order, bits))) == table_memory(orders) + 512 * entry_count(bits),
        table_memory(Seq::<(usize, usize)>::empty()) == 0,
{
    assert(orders.push((order, bits)).drop_last() =~= orders);
}

/// A byte is learned by every model, behind the context that its prediction looked at, and
/// then joins the context, which keeps the last bytes in order, as many as are configured.
pub proof fn every_model_learns(m: MixerModel, byte: u8, k: int)
    requires
        0 <= k < m.models.len(),
        m.context.len() <= m.max_context,
    ensures
        m.counted(byte).models.len() == m.models.len(),
        m.counted(byte).models[k].order == m.models[k].order,
        m.counted(byte).models[k].table == learned(
            m.models[k].table,
            m.context,
            m.models[k].order,
            byte,
        ),
        m.models[k].counts(m.context) == entry_for(m.models[k].table, m.context, m.models[k].order),
        m.counted(byte).context.len() == if m.context.len() < m.max_context {
            m.context.len() as int + 1
        } else {
            m.max_context as int
        },
        m.counted(byte).context == m.context.push(byte).skip(
            m.context.len() + 1 - m.counted(byte).context.len(),
        ),
        m.counted(byte).max_context == m.max_context,
        m.counted(byte).learning_rate == m.learning_rate,
        m.counted(byte).is_lightweight == m.is_lightweight,
{
    assert(m.counted(byte).context =~= m.context.push(byte).skip(
        m.context.len() + 1 - m.counted(byte).context.len(),
    ));
}

/// A mixer is made with a model for each order, with the table for its bits, of which every
/// count is 1, and with nothing in its context.
pub proof fn mixers_start_even(config: ConfigModel, k: int, e: int, i: int)
    requires
        0 <= k < config.orders.len(),
        0 <= e < entry_count(config.orders[k].1),
        0 <= i < 256,
    ensures
        MixerModel::fresh(config).models.len() == config.orders.len(),
        MixerModel::fresh(config).models[k].order == config.orders[k].0,
        MixerModel::fresh(config).models[k].table.len() == entry_count(config.orders[k].1),
        MixerModel::fresh(config).models[k].table[e][i] == 1,
        MixerModel::fresh(config).context.len() == 0,
        MixerModel::fresh(config).max_context == config.max_context,
        MixerModel::fresh(config).learning_rate == config.learning_rate,
        MixerModel::fresh(config).is_lightweight == config.is_lightweight,
{
}

/// What [`ContextMixer::update`] and [`ContextMixer::counts`] do: in every model the counts
/// that predict a byte learn it, once and for itself alone, and the byte joins the context.
pub proof fn updates_teach_every_model(
    p: &mut ContextMixer,
    byte: u8,
    k: usize,
    before: Option<[u16; 256]>,
    i: int,
)
    requires
        call_ensures(ContextMixer::update, (p, byte), ()),
        call_ensures(ContextMixer::counts, (old(p), k), before),
        old(p)@.valid(),
        k < old(p)@.models.len(),
        0 <= i < 256,
        before is Some,
        before->0@[byte as int] + 1 < 8_000,
    ensures
        final(p)@.models.len() == old(p)@.models.len(),
        entry_for(
            final(p)@.models[k as int].table,
            old(p)@.context,
            old(p)@.models[k as int].order,
        ) is Some,
        entry_for(
            final(p)@.models[k as int].table,
            old(p)@.context,
            old(p)@.models[k as int].order,
        )->0[i] == before->0@[i] + if i == byte {
            1int
        } else {
            0
        },
        final(p)@.context.len() > 0 ==> final(p)@.context.last() == byte,
        final(p)@.context == old(p)@.context.push(byte).skip(
            old(p)@.context.len() + 1 - final(p)@.context.len(),
        ),
{
    let m = old(p)@;
    let model = m.models[k as int];
    assert(model.valid());
    every_model_learns(m, byte, k as int);
    if 0 <= model.order <= m.context.len() {
        super::tables::entries_learn_what_followed(
            model.table,
            m.context,
            model.order,
            byte,
            i,
            m.context,
        );
    } else {
        assert(model.order >= 0);
    }
}

/// What [`ContextMixer::with_config`] gives for a configuration within the limits: its models,
/// nothing seen.
pub proof fn mixers_are_made_as_configured(config: ContextMixerConfig, m: ContextMixer, k: int)
    requires
        call_ensures(ContextMixer::with_config, (config,), m),
        1 <= config.orders@.len() <= 16,
        table_memory(config.orders@) <= 536_870_912,
        0 <= k < config.orders@.len(),
    ensures
        m@.models.len() == config.orders@.len(),
        m@.models[k].order == config.orders@[k].0,
        m@.models[k].table.len() == entry_count(config.orders@[k].1),
        m@.context.len() == 0,
        m@.max_context == config.max_context,
        m@.learning_rate == config.learning_rate,
        m@.is_lightweight == config.is_lightweight,
{
    configs_within_limits_are_kept(config@);
}

/// What a reset leaves, and what the mixer calls itself.
pub proof fn mixer_resets_forget(
    p: &mut ContextMixer,
    q: ContextMixer,
    id: PredictorId,
    k: int,
    e: int,
    i: int,
)
    requires
        call_ensures(ContextMixer::reset, (p,), ()),
        call_ensures(ContextMixer::predictor_id, (&q,), id),
        0 <= k < old(p)@.models.len(),
        0 <= e < old(p)@.models[k].table.len(),
        0 <= i < 256,
    ensures
        final(p)@.models.len() == old(p)@.models.len(),
        final(p)@.models[k].order == old(p)@.models[k].order,
        final(p)@.models[k].table.len() == old(p)@.models[k].table.len(),
        final(p)@.models[k].table[e][i] == 1,
        final(p)@.context.len() == 0,
        id == PredictorId::ContextMixerLight <==> q@.is_lightweight,
        id == PredictorId::ContextMixer <==> !q@.is_lightweight,
{
}

} // verus!

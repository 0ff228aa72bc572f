//! Hashed tables of byte counts, for prediction from contexts.

use std::collections::VecDeque;
use vstd::prelude::*;

verus! {

/// A table entry is halved when one of its counts reaches this.
pub const HASH_TABLE_RESCALE: u16 = 8000;

/// Counts of a table entry within their bounds.
pub open spec fn is_entry(counts: Seq<u16>) -> bool {
    counts.len() == 256 && forall|i: int|
        0 <= i < 256 ==> 1 <= #[trigger] counts[i] < HASH_TABLE_RESCALE
}

/// Half a count, but at least 1.
pub open spec fn half_of(c: u16) -> u16 {
    if c / 2 < 1 {
        1
    } else {
        c / 2
    }
}

/// A table entry after `byte` was seen.
pub open spec fn bumped(counts: Seq<u16>, byte: u8) -> Seq<u16> {
    let more = counts.update(byte as int, (counts[byte as int] + 1) as u16);
    if more[byte as int] >= HASH_TABLE_RESCALE {
        more.map_values(|c: u16| half_of(c))
    } else {
        more
    }
}

/// A table entry when nothing was seen.
pub open spec fn fresh_entry() -> Seq<u16> {
    Seq::new(256, |i: int| 1u16)
}

/// Table entries as sequences.
pub open spec fn entries(table: Seq<[u16; 256]>) -> Seq<Seq<u16>> {
    table.map_values(|e: [u16; 256]| e@)
}

/// A table of `n` entries.
pub open spec fn is_table(table: Seq<Seq<u16>>, n: nat) -> bool {
    table.len() == n && forall|i: int| 0 <= i < n ==> is_entry(#[trigger] table[i])
}

/// A table in which nothing was seen.
pub open spec fn fresh_table(n: nat) -> Seq<Seq<u16>> {
    Seq::new(n, |i: int| fresh_entry())
}

pub fn new_table(n: usize) -> (table: Vec<[u16; 256]>)
    ensures
        entries(table@) == fresh_table(n as nat),
        is_table(entries(table@), n as nat),
{
    let mut table: Vec<[u16; 256]> = Vec::new();
    while table.len() < n
        invariant
            table@.len() <= n,
            forall|i: int| 0 <= i < table@.len() ==> (#[trigger] table@[i])@ == fresh_entry(),
        decreases n - table@.len(),
    {
        let entry: [u16; 256] = [1;256];
        assert(entry@ =~= fresh_entry());
        table.push(entry);
    }
    assert(entries(table@) =~= fresh_table(n as nat));
    table
}

/// Counts a byte in a table entry.
fn bump_entry(entry: &mut [u16; 256], byte: u8)
    requires
        is_entry(old(entry)@),
    ensures
        final(entry)@ == bumped(old(entry)@, byte),
        is_entry(final(entry)@),
{
    let ghost start = entry@;
    let k: usize = byte as usize;
    let count: u16 = entry[k] + 1;
    entry[k] = count;
    let ghost more = entry@;
    assert(more =~= start.update(byte as int, count));
    if count >= HASH_TABLE_RESCALE {
        let mut i: usize = 0;
        while i < 256
            invariant
                i <= 256,
                more.len() == 256,
                entry@.len() == 256,
                forall|j: int| 0 <= j < i ==> #[trigger] entry@[j] == half_of(more[j]),
                forall|j: int| i <= j < 256 ==> #[trigger] entry@[j] == more[j],
            decreases 256 - i,
        {
            let half: u16 = entry[i] / 2;
            entry[i] = if half < 1 {
                1
            } else {
                half
            };
            i = i + 1;
        }
        assert(entry@ =~= more.map_values(|c: u16| half_of(c)));
    }
}

/// Counts a byte in entry `k` of a table.
pub fn bump_at(table: &mut Vec<[u16; 256]>, k: usize, byte: u8)
    requires
        k < old(table)@.len(),
        is_table(entries(old(table)@), old(table)@.len()),
    ensures
        entries(final(table)@) == entries(old(table)@).update(
            k as int,
            bumped(entries(old(table)@)[k as int], byte),
        ),
        is_table(entries(final(table)@), old(table)@.len()),
{
    let mut entry = table[k];
    assert(entry@ == entries(table@)[k as int]);
    bump_entry(&mut entry, byte);
    table.set(k, entry);
    assert(entries(table@) =~= entries(old(table)@).update(
        k as int,
        bumped(entries(old(table)@)[k as int], byte),
    ));
}

// Contexts.

/// The FNV-1a hash of some bytes.
pub open spec fn fnv(data: Seq<u8>) -> u64
    decreases data.len(),
{
    if data.len() == 0 {
        0xcbf2_9ce4_8422_2325
    } else {
        (fnv(data.drop_last()) ^ (data.last() as u64)).wrapping_mul(0x0100_0000_01b3)
    }
}

/// FNV-1a hash of context bytes, the same on all platforms.
pub fn hash_context(data: &[u8]) -> (h: u64)
    ensures
        h == fnv(data@),
{
    let mut h: u64 = 0xcbf2_9ce4_8422_2325;
    let mut i: usize = 0;
    assert(data@.take(0) =~= Seq::empty());
    while i < data.len()
        invariant
            i <= data@.len(),
            h == fnv(data@.take(i as int)),
        decreases data@.len() - i,
    {
        assert(data@.take(i + 1).drop_last() =~= data@.take(i as int));
        h = (h ^ (data[i] as u64)).wrapping_mul(0x0100_0000_01b3);
        i = i + 1;
    }
    assert(data@.take(i as int) =~= data@);
    h
}

/// The table entry for the last `order` bytes of a context, where it has so many.
pub open spec fn slot(context: Seq<u8>, order: int, size: int) -> Option<int> {
    if context.len() < order {
        None
    } else {
        Some(fnv(context.skip(context.len() - order)) as int % size)
    }
}

/// A table after `byte` followed a context.
pub open spec fn learned(
    table: Seq<Seq<u16>>,
    context: Seq<u8>,
    order: int,
    byte: u8,
) -> Seq<Seq<u16>> {
    match slot(context, order, table.len() as int) {
        None => table,
        Some(k) => table.update(k, bumped(table[k], byte)),
    }
}

/// A table entry that may be missing, as a sequence.
pub open spec fn entry_value(e: Option<[u16; 256]>) -> Option<Seq<u16>> {
    match e {
        Some(a) => Some(a@),
        None => None,
    }
}

/// The table entry that a context leads to.
pub open spec fn entry_for(table: Seq<Seq<u16>>, context: Seq<u8>, order: int) -> Option<
    Seq<u16>,
> {
    match slot(context, order, table.len() as int) {
        Some(k) => Some(table[k]),
        None => None,
    }
}

pub fn find_slot(context: &[u8], order: usize, size: usize) -> (r: Option<usize>)
    requires
        size > 0,
    ensures
        match r {
            Some(k) => slot(context@, order as int, size as int) == Some(k as int) && k < size,
            None => slot(context@, order as int, size as int) is None,
        },
{
    if context.len() < order {
        return None;
    }
    let last = vstd::slice::slice_subrange(context, context.len() - order, context.len());
    assert(last@ =~= context@.skip(context@.len() - order));
    let h: u64 = hash_context(last);
    Some((h % (size as u64)) as usize)
}

/// Counts a byte in the entry of its context.
pub fn hash_entry_update(table: &mut Vec<[u16; 256]>, context: &[u8], order: usize, byte: u8)
    requires
        old(table)@.len() > 0,
        is_table(entries(old(table)@), old(table)@.len()),
    ensures
        entries(final(table)@) == learned(entries(old(table)@), context@, order as int, byte),
        is_table(entries(final(table)@), old(table)@.len()),
{
    match find_slot(context, order, table.len()) {
        Some(k) => bump_at(table, k, byte),
        None => {},
    }
}

pub fn find_entry(table: &Vec<[u16; 256]>, context: &[u8], order: usize) -> (r: Option<[u16; 256]>)
    requires
        table@.len() > 0,
    ensures
        entry_value(r) == entry_for(entries(table@), context@, order as int),
{
    match find_slot(context, order, table.len()) {
        Some(k) => Some(table[k]),
        None => None,
    }
}

/// Learning does not change the size of a table.
pub proof fn lemma_learned_len(table: Seq<Seq<u16>>, context: Seq<u8>, order: int, byte: u8)
    requires
        table.len() > 0,
    ensures
        learned(table, context, order, byte).len() == table.len(),
{
    if let Some(k) = slot(context, order, table.len() as int) {
        vstd::arithmetic::div_mod::lemma_mod_bound(
            fnv(context.skip(context.len() - order)) as int,
            table.len() as int,
        );
    }
}

/// The bytes of a rolling context in one piece.
pub fn contiguous(context: &VecDeque<u8>) -> (v: Vec<u8>)
    ensures
        v@ == context@,
{
    let mut v: Vec<u8> = Vec::new();
    let mut i: usize = 0;
    while i < context.len()
        invariant
            i <= context@.len(),
            v@ == context@.take(i as int),
        decreases context@.len() - i,
    {
        v.push(context[i]);
        i = i + 1;
        assert(v@ =~= context@.take(i as int));
    }
    assert(context@.take(i as int) =~= context@);
    v
}

/// A byte that followed a context counts once in the entry of that context: its count grows
/// by one and no other changes, until it reaches 8,000; then all are halved, but none below
/// 1. All other entries stay.
pub proof fn entries_learn_what_followed(
    table: Seq<Seq<u16>>,
    context: Seq<u8>,
    order: int,
    byte: u8,
    i: int,
    other: Seq<u8>,
)
    requires
        table.len() > 0,
        is_table(table, table.len()),
        0 <= order <= context.len(),
        0 <= i < 256,
    ensures
        entry_for(table, context, order) is Some,
        entry_for(learned(table, context, order, byte), context, order) is Some,
        ({
            let before = entry_for(table, context, order).unwrap();
            let after = entry_for(learned(table, context, order, byte), context, order).unwrap();
            let grown = if i == byte {
                before[i] + 1
            } else {
                before[i] as int
            };
            after[i] == if before[byte as int] + 1 < 8_000 {
                grown
            } else if grown < 2 {
                1
            } else {
                grown / 2
            }
        }),
        slot(other, order, table.len() as int) != slot(context, order, table.len() as int)
            ==> entry_for(learned(table, context, order, byte), other, order) == entry_for(
            table,
            other,
            order,
        ),
{
    let n = table.len() as int;
    let k = slot(context, order, n).unwrap();
    vstd::arithmetic::div_mod::lemma_mod_bound(
        fnv(context.skip(context.len() - order)) as int,
        n,
    );
    if other.len() >= order {
        vstd::arithmetic::div_mod::lemma_mod_bound(
            fnv(other.skip(other.len() - order)) as int,
            n,
        );
    }
    assert(is_entry(table[k]));
    assert(table[k][byte as int] >= 1);
}

/// The last `order` bytes of a context alone lead to its entry; a shorter context has none,
/// and nothing is learned with it.
pub proof fn entries_go_by_the_last_bytes(
    table: Seq<Seq<u16>>,
    a: Seq<u8>,
    b: Seq<u8>,
    last: Seq<u8>,
    byte: u8,
)
    requires
        table.len() > 0,
    ensures
        entry_for(table, a + last, last.len() as int) == entry_for(
            table,
            b + last,
            last.len() as int,
        ),
        slot(a + last, last.len() as int, table.len() as int) == slot(
            b + last,
            last.len() as int,
            table.len() as int,
        ),
        entry_for(table, last, last.len() as int + 1) is None,
        learned(table, last, last.len() as int + 1, byte) == table,
{
    assert((a + last).skip(a.len() as int) =~= last);
    assert((b + last).skip(b.len() as int) =~= last);
}

/// The factor of the hash is odd, so that products of different bytes end differently.
proof fn lemma_odd_factor(u: int, v: int)
    requires
        0 <= u < 256,
        0 <= v < 256,
        (u * 179) % 256 == (v * 179) % 256,
    ensures
        u == v,
{
    let p = u * 179 / 256;
    let q = v * 179 / 256;
    assert((u - v) * 179 == 256 * (p - q));
    assert((u - v) * 22_017 == 256 * ((p - q) * 123));
    assert(u - v == 256 * ((p - q) * 123 - (u - v) * 86));
}

/// How a product with the factor of the hash ends, in 64 bits.
proof fn lemma_product_ends(y: int)
    requires
        0 <= y,
    ensures
        ((y * 0x0100_0000_01b3) % 0x1_0000_0000_0000_0000) % 256 == ((y % 256) * 179) % 256,
{
    let full = y * 0x0100_0000_01b3;
    let high = y / 256;
    let low = y % 256;
    let e = low * 179 / 256;
    let r = (low * 179) % 256;
    let q = full / 0x1_0000_0000_0000_0000;
    let c = high * 0x0100_0000_01b3 + low * 0x1_0000_0001 + e;
    assert(y == 256 * high + low);
    assert(low * 179 == 256 * e + r);
    assert(full == 256 * c + r);
    let cut = full % 0x1_0000_0000_0000_0000;
    assert(cut == full - q * 0x1_0000_0000_0000_0000);
    let k = c - q * 0x100_0000_0000_0000;
    assert(cut == k * 256 + r);
    vstd::arithmetic::div_mod::lemma_fundamental_div_mod_converse(cut, 256, k, r);
}

/// Numbers that end differently are in different places of a table.
proof fn lemma_places_differ(g: int, h: int, size: int)
    requires
        0 <= g,
        0 <= h,
        size > 0,
        size % 256 == 0,
        g % 256 != h % 256,
    ensures
        g % size != h % size,
{
    if g % size == h % size {
        let k = size / 256;
        assert(size == 256 * k);
        vstd::arithmetic::div_mod::lemma_fundamental_div_mod(g, size);
        vstd::arithmetic::div_mod::lemma_fundamental_div_mod(h, size);
        let p = g / size;
        let q = h / size;
        let n = k * (p - q);
        assert(g - h == 256 * n) by (nonlinear_arith)
            requires
                g == size * p + g % size,
                h == size * q + h % size,
                g % size == h % size,
                size == 256 * k,
                n == k * (p - q),
        ;
    }
}

/// Contexts that differ in their last byte alone have entries of their own, in tables whose
/// size is a multiple of 256.
pub proof fn last_bytes_have_their_own_entries(before: Seq<u8>, a: u8, b: u8, order: int, size: int)
    requires
        a != b,
        1 <= order <= before.len() + 1,
        size > 0,
        size % 256 == 0,
    ensures
        slot(before.push(a), order, size) != slot(before.push(b), order, size),
{
    let s = before.push(a).skip(before.len() + 1 - order);
    let t = before.push(b).skip(before.len() + 1 - order);
    let x = fnv(s.drop_last());
    assert(s.drop_last() =~= t.drop_last());
    assert(s.last() == a && t.last() == b);
    let y = x ^ (a as u64);
    let z = x ^ (b as u64);
    assert(y % 256 != z % 256) by {
        assert(a != b ==> (x ^ (a as u64)) % 256 != (x ^ (b as u64)) % 256) by (bit_vector);
    }
    lemma_product_ends(y as int);
    lemma_product_ends(z as int);
    if ((y as int % 256) * 179) % 256 == ((z as int % 256) * 179) % 256 {
        lemma_odd_factor(y as int % 256, z as int % 256);
    }
    assert(fnv(s) == y.wrapping_mul(0x0100_0000_01b3));
    assert(fnv(t) == z.wrapping_mul(0x0100_0000_01b3));
    lemma_places_differ(fnv(s) as int, fnv(t) as int, size);
}

/// The hash of a context is FNV-1a in 64 bits: each byte is mixed into the low bits, and the
/// whole multiplied by the prime 1099511628211.
pub proof fn context_hashes_are_fnv(data: Seq<u8>, b: u8)
    ensures
        fnv(Seq::empty()) == 14_695_981_039_346_656_037u64,
        fnv(data.push(b)) == ((fnv(data) ^ (b as u64)) as int * 1_099_511_628_211)
            % 18_446_744_073_709_551_616,
{
    assert(data.push(b).drop_last() =~= data);
}

} // verus!

//! Reversible normalization of x86 branch addresses.
//!
//! The operands of relative `CALL` and `JMP` instructions depend on where the
//! instruction stands. The transform replaces them by absolute positions, which repeat;
//! its inverse restores the relative values.

use crate::bytes::{
    copy_of, le_bytes, le_value, lemma_le_bytes_of_value, lemma_le_round_trip,
    lemma_le_value_bound, lemma_pow256_values, lowest_byte_comes_first, read_le,
};
use vstd::prelude::*;

verus! {

/// `data` holds `part` at `pos`.
pub open spec fn holds_at(data: Seq<u8>, pos: int, part: Seq<u8>) -> bool {
    0 <= pos && pos + part.len() <= data.len() && data.subrange(pos, pos + part.len()) == part
}

/// An ELF file for x86 or x86-64.
pub open spec fn x86_elf(data: Seq<u8>) -> bool {
    let little = data[18] + 256 * data[19];
    let big = 256 * data[18] + data[19];
    &&& data.len() >= 20
    &&& holds_at(data, 0, seq![0x7F, 0x45, 0x4C, 0x46])
    &&& (data[5] == 1 && (little == 3 || little == 62)) || (data[5] == 2 && (big == 3 || big == 62))
}

/// A PE file for x86 or x86-64.
pub open spec fn x86_pe(data: Seq<u8>) -> bool {
    let offset = le_value(data.subrange(0x3C, 0x40)) as int;
    let machine = le_value(data.subrange(offset + 4, offset + 6));
    &&& data.len() >= 0x40
    &&& holds_at(data, 0, seq![0x4D, 0x5A])
    &&& offset + 6 <= data.len()
    &&& holds_at(data, offset, seq![0x50, 0x45, 0, 0])
    &&& machine == 0x014C || machine == 0x8664
}

/// A Mach-O file for x86 or x86-64.
pub open spec fn x86_macho(data: Seq<u8>) -> bool {
    let little = le_value(data.subrange(4, 8));
    let big = 0x100_0000 * data[4] + 0x1_0000 * data[5] + 256 * data[6] + data[7];
    &&& data.len() >= 8
    &&& {
        ||| (holds_at(data, 0, seq![0xCE, 0xFA, 0xED, 0xFE]) || holds_at(
            data,
            0,
            seq![0xCF, 0xFA, 0xED, 0xFE],
        )) && (little == 7 || little == 0x0100_0007)
        ||| (holds_at(data, 0, seq![0xFE, 0xED, 0xFA, 0xCE]) || holds_at(
            data,
            0,
            seq![0xFE, 0xED, 0xFA, 0xCF],
        )) && (big == 7 || big == 0x0100_0007)
    }
}

/// Tells whether `data` is an x86 or x86-64 ELF, PE or Mach-O executable.
pub fn is_x86_executable(data: &[u8]) -> (r: bool)
    ensures
        r == (x86_elf(data@) || x86_pe(data@) || x86_macho(data@)),
{
    is_x86_elf(data) || is_x86_pe(data) || is_x86_macho(data)
}

/// Tells whether `data` holds the four bytes `a b c d` at `pos`.
fn four_at(data: &[u8], pos: usize, a: u8, b: u8, c: u8, d: u8) -> (r: bool)
    requires
        pos + 4 <= data@.len(),
    ensures
        r == holds_at(data@, pos as int, seq![a, b, c, d]),
{
    assert(data.len() == data@.len());
    let ghost part = data@.subrange(pos as int, pos + 4);
    let r = data[pos] == a && data[pos + 1] == b && data[pos + 2] == c && data[pos + 3] == d;
    proof {
        if r {
            assert(part =~= seq![a, b, c, d]);
        } else if part == seq![a, b, c, d] {
            assert(part[0] == a && part[1] == b && part[2] == c && part[3] == d);
        }
    }
    r
}

fn is_x86_elf(data: &[u8]) -> (r: bool)
    ensures
        r == x86_elf(data@),
{
    if data.len() < 20 || !four_at(data, 0, 0x7F, 0x45, 0x4C, 0x46) {
        return false;
    }
    let machine: u32 = match data[5] {
        1 => data[18] as u32 + 256 * (data[19] as u32),
        2 => 256 * (data[18] as u32) + data[19] as u32,
        _ => {
            return false;
        },
    };
    machine == 3 || machine == 62
}

fn is_x86_pe(data: &[u8]) -> (r: bool)
    ensures
        r == x86_pe(data@),
{
    if data.len() < 0x40 || data[0] != 0x4D || data[1] != 0x5A {
        proof {
            if holds_at(data@, 0, seq![0x4D, 0x5A]) {
                assert(data@.subrange(0, 2)[0] == data@[0] && data@.subrange(0, 2)[1] == data@[1]);
            }
        }
        return false;
    }
    assert(data@.subrange(0, 2) =~= seq![0x4D, 0x5A]);
    proof {
        lemma_pow256_values();
    }
    let pe_offset: u64 = read_le(data, 0x3C, 4);
    if pe_offset + 6 > data.len() as u64 {
        return false;
    }
    let offset: usize = pe_offset as usize;
    if !four_at(data, offset, 0x50, 0x45, 0, 0) {
        return false;
    }
    let machine: u64 = read_le(data, offset + 4, 2);
    machine == 0x014C || machine == 0x8664
}

fn is_x86_macho(data: &[u8]) -> (r: bool)
    ensures
        r == x86_macho(data@),
{
    if data.len() < 8 {
        return false;
    }
    let little = four_at(data, 0, 0xCE, 0xFA, 0xED, 0xFE) || four_at(data, 0, 0xCF, 0xFA, 0xED, 0xFE);
    let big = four_at(data, 0, 0xFE, 0xED, 0xFA, 0xCE) || four_at(data, 0, 0xFE, 0xED, 0xFA, 0xCF);
    proof {
        let head = data@.subrange(0, 4);
        assert(little ==> head[0] != 0xFE);
    }
    if little {
        let cpu_type: u64 = read_le(data, 4, 4);
        cpu_type == 7 || cpu_type == 0x0100_0007
    } else if big {
        let cpu_type: u32 = 0x100_0000 * (data[4] as u32) + 0x1_0000 * (data[5] as u32) + 256 * (
        data[6] as u32) + data[7] as u32;
        cpu_type == 7 || cpu_type == 0x0100_0007
    } else {
        false
    }
}

/// The operand at an instruction that ends at `end`, made absolute or relative again.
pub open spec fn moved_operand(operand: nat, end: nat, encode: bool) -> nat {
    if encode {
        (operand + end) % 0x1_0000_0000
    } else {
        ((operand - end) % 0x1_0000_0000) as nat
    }
}

/// The transform of `rest`, which stands at position `pos`: behind each `CALL` or `JMP`
/// opcode found from the start on, the four operand bytes are moved.
pub open spec fn bcj(rest: Seq<u8>, pos: nat, encode: bool) -> Seq<u8>
    decreases rest.len(),
{
    if rest.len() < 5 {
        rest
    } else if rest[0] == 0xE8 || rest[0] == 0xE9 {
        let operand = moved_operand(le_value(rest.subrange(1, 5)), pos + 5, encode);
        seq![rest[0]] + le_bytes(operand, 4) + bcj(rest.skip(5), pos + 5, encode)
    } else {
        seq![rest[0]] + bcj(rest.drop_first(), pos + 1, encode)
    }
}

/// Makes the branch operands of an x86 executable absolute; gives nothing for other data.
pub fn encode_x86(data: &[u8]) -> (r: Option<Vec<u8>>)
    ensures
        match r {
            Some(v) => (x86_elf(data@) || x86_pe(data@) || x86_macho(data@)) && v@ == bcj(
                data@,
                0,
                true,
            ),
            None => !x86_elf(data@) && !x86_pe(data@) && !x86_macho(data@),
        },
{
    if !is_x86_executable(data) {
        return None;
    }
    let mut transformed = copy_of(data);
    transform_x86(transformed.as_mut_slice(), true);
    Some(transformed)
}

/// Makes the branch operands relative again, in place.
pub fn decode_x86(data: &mut [u8])
    ensures
        final(data)@ == bcj(old(data)@, 0, false),
{
    transform_x86(data, false);
}

#[verifier::spinoff_prover]
#[verifier::rlimit(60)]
fn transform_x86(data: &mut [u8], encode: bool)
    ensures
        final(data)@ == bcj(old(data)@, 0, encode),
{
    let n: usize = data.len();
    let mut position: usize = 0;
    assert(data@.take(0) + data@.skip(0) =~= data@);
    assert(data@.take(0) =~= Seq::<u8>::empty());
    assert(data@.skip(0) =~= data@);
    assert(Seq::<u8>::empty() + bcj(data@, 0, encode) =~= bcj(data@, 0, encode));
    while position < n && n - position >= 5
        invariant
            position <= n == data@.len(),
            bcj(old(data)@, 0, encode) == data@.take(position as int) + bcj(
                data@.skip(position as int),
                position as nat,
                encode,
            ),
        decreases n - position,
    {
        let ghost before = data@;
        let ghost rest = data@.skip(position as int);
        let ghost head = data@.take(position as int);
        let opcode: u8 = data[position];
        if opcode == 0xE8 || opcode == 0xE9 {
            let operand: u64 = read_le(data, position + 1, 4);
            proof {
                lemma_pow256_values();
                assert(rest.subrange(1, 5) =~= data@.subrange(position + 1, position + 5));
            }
            let end: u64 = (position as u64 + 5) % 0x1_0000_0000;
            let moved: u64 = if encode {
                (operand + end) % 0x1_0000_0000
            } else {
                (operand + (0x1_0000_0000 - end)) % 0x1_0000_0000
            };
            proof {
                lemma_moved(operand as nat, (position + 5) as nat, encode);
                assert(moved == moved_operand(operand as nat, (position + 5) as nat, encode));
                lemma_four_le_bytes(moved as nat);
            }
            data[position + 1] = (moved % 256) as u8;
            data[position + 2] = ((moved / 0x100) % 256) as u8;
            data[position + 3] = ((moved / 0x1_0000) % 256) as u8;
            data[position + 4] = ((moved / 0x100_0000) % 256) as u8;
            position = position + 5;
            proof {
                let four = le_bytes(moved as nat, 4);
                assert(data@.take(position as int) =~= head + (seq![opcode] + four));
                assert(data@.skip(position as int) =~= rest.skip(5));
                let tail = bcj(rest.skip(5), position as nat, encode);
                assert(head + (seq![opcode] + four + tail) =~= (head + (seq![opcode] + four))
                    + tail);
            }
        } else {
            position = position + 1;
            proof {
                assert(data@.take(position as int) =~= head + seq![opcode]);
                assert(data@.skip(position as int) =~= rest.drop_first());
                let tail = bcj(rest.drop_first(), position as nat, encode);
                assert(head + (seq![opcode] + tail) =~= (head + seq![opcode]) + tail);
            }
        }
    }
    assert(data@.take(position as int) + data@.skip(position as int) =~= data@);
}

/// Reducing the position first does not change the moved operand.
proof fn lemma_moved(operand: nat, end: nat, encode: bool)
    requires
        operand < 0x1_0000_0000,
    ensures
        moved_operand(operand, end, encode) == if encode {
            (operand + end % 0x1_0000_0000) % 0x1_0000_0000
        } else {
            (operand + (0x1_0000_0000 - end % 0x1_0000_0000)) as nat % 0x1_0000_0000
        },
{
}

/// The four bytes of a number.
proof fn lemma_four_le_bytes(n: nat)
    ensures
        le_bytes(n, 4) == seq![
            (n % 256) as u8,
            ((n / 0x100) % 256) as u8,
            ((n / 0x1_0000) % 256) as u8,
            ((n / 0x100_0000) % 256) as u8,
        ],
{
    reveal_with_fuel(le_bytes, 5);
    assert(n / 256 / 256 == n / 0x1_0000);
    assert(n / 256 / 256 / 256 == n / 0x100_0000);
    assert(le_bytes(n, 4) =~= seq![
        (n % 256) as u8,
        ((n / 0x100) % 256) as u8,
        ((n / 0x1_0000) % 256) as u8,
        ((n / 0x100_0000) % 256) as u8,
    ]);
}

proof fn lemma_bcj_round_trips(rest: Seq<u8>, pos: nat)
    ensures
        bcj(rest, pos, true).len() == rest.len(),
        bcj(bcj(rest, pos, true), pos, false) == rest,
    decreases rest.len(),
{
    let moved = bcj(rest, pos, true);
    if rest.len() < 5 {
    } else if rest[0] == 0xE8 || rest[0] == 0xE9 {
        lemma_bcj_round_trips(rest.skip(5), pos + 5);
        let relative = rest.subrange(1, 5);
        let operand = le_value(relative);
        let absolute = moved_operand(operand, pos + 5, true);
        lemma_pow256_values();
        lemma_le_value_bound(relative);
        lemma_le_round_trip(absolute, 4);
        lemma_le_bytes_of_value(relative);
        assert(moved.subrange(1, 5) =~= le_bytes(absolute, 4));
        assert(moved.skip(5) =~= bcj(rest.skip(5), pos + 5, true));
        assert(moved_operand(absolute, pos + 5, false) == operand);
        assert(bcj(moved, pos, false) =~= rest);
    } else {
        lemma_bcj_round_trips(rest.drop_first(), pos + 1);
        assert(moved.drop_first() =~= bcj(rest.drop_first(), pos + 1, true));
        assert(bcj(moved, pos, false) =~= rest);
    }
}

/// The inverse transform restores the data.
pub proof fn bcj_round_trips(data: Seq<u8>)
    ensures
        bcj(data, 0, true).len() == data.len(),
        bcj(bcj(data, 0, true), 0, false) == data,
{
    lemma_bcj_round_trips(data, 0);
}

proof fn lemma_unbranched(rest: Seq<u8>, pos: nat, encode: bool, k: int)
    requires
        0 <= k <= rest.len(),
        forall|i: int| 0 <= i < k ==> #[trigger] rest[i] != 0xE8 && rest[i] != 0xE9,
    ensures
        bcj(rest, pos, encode) == rest.take(k) + bcj(rest.skip(k), pos + k as nat, encode),
    decreases rest.len(),
{
    if k == 0 {
        assert(rest.skip(0) =~= rest);
        assert(rest.take(0) + bcj(rest, pos, encode) =~= bcj(rest, pos, encode));
    } else if rest.len() < 5 {
        assert(rest.take(k) + rest.skip(k) =~= rest);
    } else {
        lemma_unbranched(rest.drop_first(), pos + 1, encode, k - 1);
        assert(rest.drop_first().skip(k - 1) =~= rest.skip(k));
        assert(seq![rest[0]] + rest.drop_first().take(k - 1) =~= rest.take(k));
        assert(bcj(rest, pos, encode) =~= rest.take(k) + bcj(
            rest.skip(k),
            pos + k as nat,
            encode,
        ));
    }
}

/// Bytes without a `CALL` or `JMP` opcode stay as they are.
pub proof fn code_without_branches_is_kept(data: Seq<u8>, pos: nat, encode: bool)
    requires
        forall|i: int| 0 <= i < data.len() ==> #[trigger] data[i] != 0xE8 && data[i] != 0xE9,
    ensures
        bcj(data, pos, encode) == data,
{
    lemma_unbranched(data, pos, encode, data.len() as int);
    assert(data.skip(data.len() as int) =~= Seq::empty());
    assert(bcj(data, pos, encode) =~= data);
}

/// A branch gets its target for an operand: the four bytes behind the first opcode, a
/// distance from the end of the instruction, become the place that lies this far from it.
/// What stands before stays, and what follows is treated from there on.
pub proof fn branches_get_their_targets(data: Seq<u8>, pos: nat, k: int)
    requires
        0 <= k,
        k + 5 <= data.len(),
        forall|i: int| 0 <= i < k ==> #[trigger] data[i] != 0xE8 && data[i] != 0xE9,
        data[k] == 0xE8 || data[k] == 0xE9,
    ensures
        bcj(data, pos, true).len() == data.len(),
        bcj(data, pos, true).take(k + 1) == data.take(k + 1),
        le_value(bcj(data, pos, true).subrange(k + 1, k + 5)) == (le_value(
            data.subrange(k + 1, k + 5),
        ) + pos + k + 5) % 0x1_0000_0000,
        bcj(data, pos, true).skip(k + 5) == bcj(data.skip(k + 5), pos + (k + 5) as nat, true),
{
    let rest = data.skip(k);
    let moved = bcj(data, pos, true);
    lemma_unbranched(data, pos, true, k);
    lemma_bcj_round_trips(data, pos);
    let operand = le_value(rest.subrange(1, 5));
    let absolute = moved_operand(operand, (pos + k + 5) as nat, true);
    lemma_pow256_values();
    lemma_le_round_trip(absolute, 4);
    assert(rest.subrange(1, 5) =~= data.subrange(k + 1, k + 5));
    assert(rest.skip(5) =~= data.skip(k + 5));
    let tail = bcj(rest.skip(5), (pos + k + 5) as nat, true);
    assert(moved == data.take(k) + (seq![rest[0]] + le_bytes(absolute, 4) + tail));
    assert(moved.take(k + 1) =~= data.take(k + 1));
    assert(moved.subrange(k + 1, k + 5) =~= le_bytes(absolute, 4));
    assert(moved.skip(k + 5) =~= tail);
}

/// Two branches to the same place from different ones get the same operand.
pub proof fn same_targets_look_alike(x: nat, end: nat, y: nat, other: nat)
    requires
        (x + end) % 0x1_0000_0000 == (y + other) % 0x1_0000_0000,
    ensures
        moved_operand(x, end, true) == moved_operand(y, other, true),
        x < 0x1_0000_0000 ==> moved_operand(moved_operand(x, end, true), end, false) == x,
{
}

/// Which files are taken for x86 programs, by their bytes: ELF files by the number of the
/// machine in their byte order, PE files by that behind the header they point to, Mach-O
/// files by the type of the processor in their byte order.
pub proof fn programs_are_known_by_their_headers(data: Seq<u8>)
    ensures
        x86_elf(data) <==> {
            &&& data.len() >= 20
            &&& data[0] == 0x7F && data[1] == 0x45 && data[2] == 0x4C && data[3] == 0x46
            &&& (data[5] == 1 && data[19] == 0 && (data[18] == 3 || data[18] == 62)) || (data[5] == 2
                && data[18] == 0 && (data[19] == 3 || data[19] == 62))
        },
        x86_pe(data) <==> {
            let at = data[60] + 256 * data[61] + 65_536 * data[62] + 16_777_216 * data[63];
            &&& data.len() >= 64
            &&& data[0] == 0x4D && data[1] == 0x5A
            &&& at + 6 <= data.len()
            &&& data[at] == 0x50 && data[at + 1] == 0x45 && data[at + 2] == 0 && data[at + 3] == 0
            &&& (data[at + 4] == 0x4C && data[at + 5] == 0x01) || (data[at + 4] == 0x64 && data[at
                + 5] == 0x86)
        },
        x86_macho(data) <==> {
            &&& data.len() >= 8
            &&& (data[0] == 0xCE || data[0] == 0xCF) && data[1] == 0xFA && data[2] == 0xED && data[3]
                == 0xFE && data[4] == 7 && data[5] == 0 && data[6] == 0 && (data[7] == 0 || data[7]
                == 1) || data[0] == 0xFE && data[1] == 0xED && data[2] == 0xFA && (data[3] == 0xCE
                || data[3] == 0xCF) && (data[4] == 0 || data[4] == 1) && data[5] == 0 && data[6] == 0
                && data[7] == 7
        },
{
    lemma_holds_four(data, 0, 0x7F, 0x45, 0x4C, 0x46);
    lemma_holds_four(data, 0, 0xCE, 0xFA, 0xED, 0xFE);
    lemma_holds_four(data, 0, 0xCF, 0xFA, 0xED, 0xFE);
    lemma_holds_four(data, 0, 0xFE, 0xED, 0xFA, 0xCE);
    lemma_holds_four(data, 0, 0xFE, 0xED, 0xFA, 0xCF);
    if data.len() >= 8 {
        lowest_byte_comes_first(data.subrange(4, 8));
    }
    if data.len() >= 64 {
        let two = data.subrange(0, 2);
        assert(two[0] == data[0] && two[1] == data[1]);
        if data[0] == 0x4D && data[1] == 0x5A {
            assert(two =~= seq![0x4D, 0x5A]);
        }
        lowest_byte_comes_first(data.subrange(60, 64));
        let at = data[60] + 256 * data[61] + 65_536 * data[62] + 16_777_216 * data[63];
        if at + 6 <= data.len() {
            lemma_holds_four(data, at, 0x50, 0x45, 0, 0);
            lowest_byte_comes_first(data.subrange(at + 4, at + 6));
        }
    }
}

proof fn lemma_holds_four(data: Seq<u8>, pos: int, a: u8, b: u8, c: u8, d: u8)
    requires
        0 <= pos,
    ensures
        holds_at(data, pos, seq![a, b, c, d]) <==> pos + 4 <= data.len() && data[pos] == a
            && data[pos + 1] == b && data[pos + 2] == c && data[pos + 3] == d,
{
    if pos + 4 <= data.len() {
        let part = data.subrange(pos, pos + 4);
        assert(part[0] == data[pos] && part[1] == data[pos + 1] && part[2] == data[pos + 2]
            && part[3] == data[pos + 3]);
        if data[pos] == a && data[pos + 1] == b && data[pos + 2] == c && data[pos + 3] == d {
            assert(part =~= seq![a, b, c, d]);
        }
    }
}

/// What [`encode_x86`] and [`decode_x86`] do, one after the other: the first takes x86
/// programs alone, and the second gives back what it took.
pub proof fn programs_are_restored(data: &[u8], r: Option<Vec<u8>>, given: &mut [u8])
    requires
        call_ensures(encode_x86, (data,), r),
    ensures
        r is Some <==> x86_elf(data@) || x86_pe(data@) || x86_macho(data@),
        (r is Some && old(given)@ == r->0@ && call_ensures(decode_x86, (given,), ())) ==> (
        final(given)@ == data@),
        r is Some ==> r->0@.len() == data@.len() && r->0@ == bcj(data@, 0, true),
{
    bcj_round_trips(data@);
}

} // verus!

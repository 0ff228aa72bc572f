//! Numbers as bytes.

use crate::error::{eof_model, unexpected_eof, Result};
use vstd::arithmetic::div_mod::*;
use vstd::prelude::*;
use vstd::slice::slice_subrange;

verus! {

/// `256` to the power `k`.
pub open spec fn pow256(k: nat) -> nat
    decreases k,
{
    if k == 0 {
        1
    } else {
        256 * pow256((k - 1) as nat)
    }
}

/// The number that `s` writes in base 256, most significant byte first.
pub open spec fn be_value(s: Seq<u8>) -> nat
    decreases s.len(),
{
    if s.len() == 0 {
        0
    } else {
        be_value(s.drop_last()) * 256 + s.last() as nat
    }
}

/// The last `len` base-256 digits of `n`, most significant first.
pub open spec fn be_bytes(n: nat, len: nat) -> Seq<u8>
    decreases len,
{
    if len == 0 {
        Seq::empty()
    } else {
        be_bytes(n / 256, (len - 1) as nat).push((n % 256) as u8)
    }
}

pub proof fn lemma_pow256_pos(k: nat)
    ensures
        pow256(k) > 0,
    decreases k,
{
    if k > 0 {
        lemma_pow256_pos((k - 1) as nat);
    }
}

pub proof fn lemma_pow256_add(a: nat, b: nat)
    ensures
        pow256(a + b) == pow256(a) * pow256(b),
    decreases a,
{
    if a > 0 {
        lemma_pow256_add((a - 1) as nat, b);
        let p = pow256((a - 1) as nat);
        let q = pow256(b);
        assert(256 * (p * q) == (256 * p) * q) by (nonlinear_arith);
    } else {
        assert(1 * pow256(b) == pow256(b));
    }
}

pub proof fn lemma_be_value_push(s: Seq<u8>, b: u8)
    ensures
        be_value(s.push(b)) == be_value(s) * 256 + b as nat,
{
    assert(s.push(b).drop_last() =~= s);
}

pub proof fn lemma_be_bytes_of_value(s: Seq<u8>)
    ensures
        be_bytes(be_value(s), s.len()) == s,
    decreases s.len(),
{
    if s.len() > 0 {
        lemma_be_bytes_of_value(s.drop_last());
        let v = be_value(s.drop_last());
        let b = s.last() as nat;
        assert((v * 256 + b) / 256 == v);
        assert((v * 256 + b) % 256 == b);
        assert(be_bytes(be_value(s), s.len()) =~= s.drop_last().push(s.last()));
        assert(s.drop_last().push(s.last()) =~= s);
    } else {
        assert(be_bytes(be_value(s), s.len()) =~= s);
    }
}

/// The first `c` of the `len` digits of `n` write the number `n / 256^(len - c)`.
pub proof fn lemma_be_bytes_index(n: nat, len: nat, c: nat)
    requires
        c < len,
    ensures
        be_bytes(n, len).len() == len,
        be_bytes(n, len)[c as int] as nat == (n / pow256((len - c - 1) as nat)) % 256,
    decreases len,
{
    lemma_be_bytes_len(n, len);
    lemma_be_bytes_len(n / 256, (len - 1) as nat);
    if c == len - 1 {
        assert(pow256(0) == 1);
        assert(n / 1 == n);
    } else {
        lemma_be_bytes_index(n / 256, (len - 1) as nat, c);
        let k = (len - c - 2) as nat;
        lemma_pow256_pos(k);
        lemma_div_denominator(n as int, 256, pow256(k) as int);
        assert(pow256((k + 1) as nat) == 256 * pow256(k));
    }
}

pub proof fn lemma_be_bytes_len(n: nat, len: nat)
    ensures
        be_bytes(n, len).len() == len,
    decreases len,
{
    if len > 0 {
        lemma_be_bytes_len(n / 256, (len - 1) as nat);
    }
}

/// A number that fits is read back from its bytes.
pub proof fn lemma_be_round_trip(n: nat, len: nat)
    requires
        n < pow256(len),
    ensures
        be_value(be_bytes(n, len)) == n,
    decreases len,
{
    if len > 0 {
        lemma_be_round_trip(n / 256, (len - 1) as nat);
        assert(be_bytes(n, len).drop_last() =~= be_bytes(n / 256, (len - 1) as nat));
    }
}

/// The last `len` base-256 digits of `n`, least significant first.
pub open spec fn le_bytes(n: nat, len: nat) -> Seq<u8>
    decreases len,
{
    if len == 0 {
        Seq::empty()
    } else {
        seq![(n % 256) as u8] + le_bytes(n / 256, (len - 1) as nat)
    }
}

/// The number that `s` writes in base 256, least significant byte first.
pub open spec fn le_value(s: Seq<u8>) -> nat
    decreases s.len(),
{
    if s.len() == 0 {
        0
    } else {
        s[0] as nat + 256 * le_value(s.drop_first())
    }
}

pub proof fn lemma_le_bytes_len(n: nat, len: nat)
    ensures
        le_bytes(n, len).len() == len,
    decreases len,
{
    if len > 0 {
        lemma_le_bytes_len(n / 256, (len - 1) as nat);
    }
}

/// A number with at most `len` digits is read back from them.
pub proof fn lemma_le_round_trip(n: nat, len: nat)
    requires
        n < pow256(len),
    ensures
        le_bytes(n, len).len() == len,
        le_value(le_bytes(n, len)) == n,
    decreases len,
{
    lemma_le_bytes_len(n, len);
    if len > 0 {
        lemma_le_round_trip(n / 256, (len - 1) as nat);
        let s = le_bytes(n, len);
        assert(s.drop_first() =~= le_bytes(n / 256, (len - 1) as nat));
    }
}

pub proof fn lemma_le_value_bound(s: Seq<u8>)
    ensures
        le_value(s) < pow256(s.len()),
    decreases s.len(),
{
    if s.len() > 0 {
        lemma_le_value_bound(s.drop_first());
    }
}

/// Bytes are the digits of the number they write.
pub proof fn lemma_le_bytes_of_value(s: Seq<u8>)
    ensures
        le_bytes(le_value(s), s.len()) == s,
    decreases s.len(),
{
    if s.len() > 0 {
        lemma_le_bytes_of_value(s.drop_first());
        let rest = le_value(s.drop_first());
        let v = le_value(s);
        assert(v % 256 == s[0] as nat);
        assert(v / 256 == rest);
        assert(le_bytes(v, s.len()) =~= s);
    } else {
        assert(le_bytes(le_value(s), s.len()) =~= s);
    }
}

/// The powers of 256 that bound the integer types.
pub proof fn lemma_pow256_values()
    ensures
        pow256(0) == 1,
        pow256(1) == 0x100,
        pow256(2) == 0x1_0000,
        pow256(4) == 0x1_0000_0000,
        pow256(8) == 0x1_0000_0000_0000_0000,
{
    reveal_with_fuel(pow256, 9);
}

/// Appends the low `len` bytes of `v`, least significant first.
pub fn push_le(out: &mut Vec<u8>, v: u64, len: usize)
    ensures
        final(out)@ == old(out)@ + le_bytes(v as nat, len as nat),
    decreases len,
{
    if len > 0 {
        out.push((v % 256) as u8);
        push_le(out, v / 256, len - 1);
    }
    assert(out@ =~= old(out)@ + le_bytes(v as nat, len as nat));
}

/// Reads `len` bytes at `pos`, least significant first.
pub fn read_le(data: &[u8], pos: usize, len: usize) -> (v: u64)
    requires
        pos + len <= data@.len(),
        len <= 8,
    ensures
        v == le_value(data@.subrange(pos as int, pos + len)),
        v < pow256(len as nat),
    decreases len,
{
    let ghost s = data@.subrange(pos as int, pos + len);
    proof {
        lemma_le_value_bound(s);
    }
    if len == 0 {
        0
    } else {
        assert(data.len() == data@.len());
        let rest: u64 = read_le(data, pos + 1, len - 1);
        proof {
            assert(s.drop_first() =~= data@.subrange(pos + 1, pos + len));
            lemma_pow256_values();
            lemma_pow256_monotone(len as nat, 8);
        }
        data[pos] as u64 + 256 * rest
    }
}

pub proof fn lemma_pow256_monotone(a: nat, b: nat)
    requires
        a <= b,
    ensures
        pow256(a) <= pow256(b),
    decreases b,
{
    if a < b {
        lemma_pow256_monotone(a, (b - 1) as nat);
        lemma_pow256_pos((b - 1) as nat);
    }
}

/// Appends all of `data`.
pub fn push_all(out: &mut Vec<u8>, data: &[u8])
    ensures
        final(out)@ == old(out)@ + data@,
{
    out.extend_from_slice(data);
    assert(out@ =~= old(out)@ + data@);
}

/// A copy of `data`.
pub fn copy_of(data: &[u8]) -> (v: Vec<u8>)
    ensures
        v@ == data@,
{
    let mut v: Vec<u8> = Vec::new();
    push_all(&mut v, data);
    v
}

/// `a` is what is left of `b` after some bytes were taken from its start.
pub open spec fn is_rest_of(a: Seq<u8>, b: Seq<u8>) -> bool {
    exists|k: int| 0 <= k <= b.len() && a == #[trigger] b.skip(k)
}

/// Reads a byte slice from its start to its end. Its value is what is left to read.
pub struct ByteReader<'a> {
    data: &'a [u8],
    pos: usize,
}

impl View for ByteReader<'_> {
    type V = Seq<u8>;

    closed spec fn view(&self) -> Seq<u8> {
        self.data@.skip(self.pos as int)
    }
}

impl<'a> ByteReader<'a> {
    #[verifier::type_invariant]
    spec fn inside(&self) -> bool {
        self.pos <= self.data@.len()
    }

    pub fn new(data: &'a [u8]) -> (r: ByteReader<'a>)
        ensures
            r@ == data@,
    {
        let r = ByteReader { data, pos: 0 };
        assert(r@ =~= data@);
        r
    }

    /// How many bytes are left.
    pub fn remaining(&self) -> (n: usize)
        ensures
            n == self@.len(),
    {
        proof {
            use_type_invariant(self);
        }
        self.data.len() - self.pos
    }

    /// Takes the next `n` bytes.
    pub fn take_bytes(&mut self, n: usize) -> (r: Result<&'a [u8]>)
        ensures
            match r {
                Ok(s) => n <= old(self)@.len() && s@ == old(self)@.take(n as int) && final(self)@
                    == old(self)@.skip(n as int),
                Err(e) => n > old(self)@.len() && e@ == eof_model() && final(self)@ == old(self)@,
            },
    {
        proof {
            use_type_invariant(&*self);
        }
        if n > self.data.len() - self.pos {
            return Err(unexpected_eof());
        }
        let s = slice_subrange(self.data, self.pos, self.pos + n);
        let ghost before = self@;
        let next: usize = self.pos + n;
        self.pos = next;
        assert(s@ =~= before.take(n as int));
        assert(self@ =~= before.skip(n as int));
        Ok(s)
    }

    /// Takes the next `n` bytes as a number, least significant byte first.
    pub fn take_le(&mut self, n: usize) -> (r: Result<u64>)
        requires
            n <= 8,
        ensures
            match r {
                Ok(v) => n <= old(self)@.len() && v == le_value(old(self)@.take(n as int)) && v
                    < pow256(n as nat) && final(self)@ == old(self)@.skip(n as int),
                Err(e) => n > old(self)@.len() && e@ == eof_model() && final(self)@ == old(self)@,
            },
    {
        match self.take_bytes(n) {
            Ok(s) => {
                assert(s@.subrange(0, n as int) =~= s@);
                Ok(read_le(s, 0, n))
            },
            Err(e) => Err(e),
        }
    }

    pub fn take_u8(&mut self) -> (r: Result<u8>)
        ensures
            match r {
                Ok(v) => 1 <= old(self)@.len() && v == old(self)@[0] && final(self)@
                    == old(self)@.skip(1),
                Err(e) => old(self)@.len() == 0 && e@ == eof_model() && final(self)@ == old(self)@,
            },
    {
        match self.take_bytes(1) {
            Ok(s) => Ok(s[0]),
            Err(e) => Err(e),
        }
    }

    pub fn take_u16(&mut self) -> (r: Result<u16>)
        ensures
            match r {
                Ok(v) => 2 <= old(self)@.len() && v == le_value(old(self)@.take(2)) && final(self)@
                    == old(self)@.skip(2),
                Err(e) => 2 > old(self)@.len() && e@ == eof_model() && final(self)@ == old(self)@,
            },
    {
        proof {
            lemma_pow256_values();
        }
        match self.take_le(2) {
            Ok(v) => Ok(v as u16),
            Err(e) => Err(e),
        }
    }

    pub fn take_u32(&mut self) -> (r: Result<u32>)
        ensures
            match r {
                Ok(v) => 4 <= old(self)@.len() && v == le_value(old(self)@.take(4)) && final(self)@
                    == old(self)@.skip(4),
                Err(e) => 4 > old(self)@.len() && e@ == eof_model() && final(self)@ == old(self)@,
            },
    {
        proof {
            lemma_pow256_values();
        }
        match self.take_le(4) {
            Ok(v) => Ok(v as u32),
            Err(e) => Err(e),
        }
    }

    pub fn take_32(&mut self) -> (r: Result<[u8; 32]>)
        ensures
            match r {
                Ok(v) => 32 <= old(self)@.len() && v@ == old(self)@.take(32) && final(self)@
                    == old(self)@.skip(32),
                Err(e) => 32 > old(self)@.len() && e@ == eof_model() && final(self)@ == old(self)@,
            },
    {
        match self.take_bytes(32) {
            Ok(s) => {
                let mut out: [u8; 32] = [0;32];
                let mut i: usize = 0;
                while i < 32
                    invariant
                        i <= 32,
                        s@.len() == 32,
                        forall|k: int| 0 <= k < i ==> out@[k] == s@[k],
                    decreases 32 - i,
                {
                    out[i] = s[i];
                    i = i + 1;
                }
                assert(out@ =~= s@);
                Ok(out)
            },
            Err(e) => Err(e),
        }
    }
}

/// Tells whether two byte slices are equal.
pub fn same_slice(a: &[u8], b: &[u8]) -> (r: bool)
    ensures
        r == (a@ == b@),
{
    if a.len() != b.len() {
        return false;
    }
    let mut i: usize = 0;
    while i < a.len()
        invariant
            i <= a@.len() == b@.len(),
            forall|k: int| 0 <= k < i ==> a@[k] == b@[k],
        decreases a@.len() - i,
    {
        if a[i] != b[i] {
            return false;
        }
        i = i + 1;
    }
    assert(a@ =~= b@);
    true
}

/// The first byte of a number is its lowest: what two, four and eight bytes write.
pub proof fn lowest_byte_comes_first(s: Seq<u8>)
    ensures
        s.len() == 2 ==> le_value(s) == s[0] + 256 * s[1],
        s.len() == 4 ==> le_value(s) == s[0] + 256 * s[1] + 65_536 * s[2] + 16_777_216 * s[3],
        s.len() == 8 ==> le_value(s) == s[0] + 256 * s[1] + 65_536 * s[2] + 16_777_216 * s[3]
            + 4_294_967_296 * (s[4] + 256 * s[5] + 65_536 * s[6] + 16_777_216 * s[7]),
        le_bytes(le_value(s), s.len()) == s,
{
    lemma_le_bytes_of_value(s);
    let a = s.drop_first();
    let b = a.drop_first();
    let c = b.drop_first();
    let d = c.drop_first();
    let e = d.drop_first();
    let f = e.drop_first();
    let g = f.drop_first();
    reveal_with_fuel(le_value, 9);
}

/// What [`push_le`] appends is read back by [`read_le`], in two, four or eight bytes.
pub proof fn pushed_numbers_are_read_back(
    out: &mut Vec<u8>,
    v: u64,
    len: usize,
    data: &[u8],
    pos: usize,
    back: u64,
)
    requires
        call_ensures(push_le, (out, v, len), ()),
        call_ensures(read_le, (data, pos, len), back),
        len == 2 || len == 4 || len == 8,
        data@ == final(out)@,
        pos == old(out)@.len(),
    ensures
        final(out)@.len() == old(out)@.len() + len,
        final(out)@.take(pos as int) == old(out)@,
        len == 8 || len == 4 && v < 0x1_0000_0000 || len == 2 && v < 0x1_0000 ==> back == v,
{
    lemma_pow256_values();
    lemma_le_bytes_len(v as nat, len as nat);
    assert(data@.subrange(pos as int, pos + len) =~= le_bytes(v as nat, len as nat));
    assert(final(out)@.take(pos as int) =~= old(out)@);
    if len == 8 || len == 4 && v < 0x1_0000_0000 || len == 2 && v < 0x1_0000 {
        lemma_le_round_trip(v as nat, len as nat);
    }
}

/// What a [`ByteReader`] takes and what it then has left make up what it had; it takes nothing
/// where there is not enough.
pub proof fn readers_take_from_the_front<'a>(
    r: &mut ByteReader<'a>,
    n: usize,
    taken: Result<&'a [u8]>,
)
    requires
        call_ensures(ByteReader::<'a>::take_bytes, (r, n), taken),
    ensures
        taken is Ok <==> n <= old(r)@.len(),
        taken is Ok ==> taken->Ok_0@ + final(r)@ == old(r)@ && taken->Ok_0@.len() == n,
        taken is Err ==> final(r)@ == old(r)@,
{
    if taken is Ok {
        assert(taken->Ok_0@ + final(r)@ =~= old(r)@);
    }
}

} // verus!

//! LZ4 preprocessing stage.
//!
//! Applies LZ4 compression to remove repeated substrings before the data is fed through
//! the predictor and the range coder. A block is the length of the data in four bytes,
//! little-endian, followed by the LZ4 sequences.

use crate::bytes::{le_bytes, le_value, lemma_pow256_values, read_le};
use crate::error::{same_bytes, AetherError, ErrorModel, Result};
use crate::header::lemma_field;
use crate::text::{decimal, text_around_numbers};
use vstd::prelude::*;
use vstd::string::*;

verus! {

/// What an LZ4 block with the length of its data in front decompresses to, or what is said
/// of it where it does not.
pub uninterp spec fn lz4_unpacked(block: Seq<u8>) -> std::result::Result<Seq<u8>, Seq<char>>;

// Lengths in a block.

/// The sum of the bytes that extend a length from `pos` on: bytes 0xFF, and the one behind
/// them where the block does not end before.
pub open spec fn length_sum(block: Seq<u8>, pos: int) -> nat
    decreases block.len() - pos,
{
    if pos >= block.len() {
        0
    } else if block[pos] == 0xFF {
        255 + length_sum(block, pos + 1)
    } else {
        block[pos] as nat
    }
}

/// Where the bytes that extend a length from `pos` on end, or none where the block ends
/// before they do.
pub open spec fn length_end(block: Seq<u8>, pos: int) -> Option<int>
    decreases block.len() - pos,
{
    if pos >= block.len() {
        None
    } else if block[pos] == 0xFF {
        length_end(block, pos + 1)
    } else {
        Some(pos + 1)
    }
}

/// The length that the half of a token gives, extended by the bytes from `pos` on where the
/// half is 15, and where it ends.
pub open spec fn length_at(block: Seq<u8>, pos: int, half: u8) -> Option<(nat, int)> {
    if half < 15 {
        Some((half as nat, pos))
    } else {
        match length_end(block, pos) {
            Some(end) => Some((15 + length_sum(block, pos), end)),
            None => None,
        }
    }
}

/// The bytes that extend a length can be summed in 32 bits, and the length added to
/// `before` in a machine word.
pub open spec fn length_fits(block: Seq<u8>, pos: int, half: u8, before: nat) -> bool {
    half >= 15 ==> length_sum(block, pos) <= u32::MAX && before + 15 + length_sum(block, pos)
        <= usize::MAX
}

/// A length ends where it starts or behind that, and inside the block.
pub proof fn lemma_length_end(block: Seq<u8>, pos: int)
    ensures
        length_end(block, pos) matches Some(end) ==> pos < end <= block.len(),
    decreases block.len() - pos,
{
    if pos < block.len() && block[pos] == 0xFF {
        lemma_length_end(block, pos + 1);
    }
}

/// Every length fits that is read from the token at `pos` on, when `out` of `size` bytes
/// were made before it. Reading ends with the block, or where the bytes do not make sense: a
/// length is cut off, literals go beyond the block or the size, a match has no offset or one
/// beyond what was made, or goes beyond the size.
pub open spec fn lengths_fit_from(block: Seq<u8>, pos: int, out: nat, size: nat) -> bool
    decreases block.len() - pos,
{
    if pos < 0 || pos >= block.len() {
        true
    } else {
        let token = block[pos];
        proof {
            lemma_length_end(block, pos + 1);
        }
        length_fits(block, pos + 1, token / 16, 0) && match length_at(block, pos + 1, token / 16) {
            None => true,
            Some((literals, start)) => {
                let at = start + literals;
                let made = out + literals;
                if made > size || at + 2 > block.len() || (block[at] == 0 && block[at + 1] == 0) {
                    true
                } else {
                    proof {
                        lemma_length_end(block, at + 2);
                    }
                    length_fits(block, at + 2, token % 16, made + 4) && match length_at(
                        block,
                        at + 2,
                        token % 16,
                    ) {
                        None => true,
                        Some((more, next)) => {
                            let total = made + 4 + more;
                            total > size || block[at] + 256 * block[at + 1] > made
                                || lengths_fit_from(block, next, total, size)
                        },
                    }
                }
            },
        }
    }
}

/// Every length that is read from the block fits, and a buffer of the size in front can be
/// had.
pub open spec fn lengths_fit(block: Seq<u8>) -> bool {
    block.len() >= 4 ==> {
        let size = le_value(block.take(4));
        size <= isize::MAX && lengths_fit_from(block, 4, 0, size)
    }
}

/// A length in a block, as it was read.
enum LengthField {
    /// It does not fit.
    TooLarge,
    /// The block ends in it.
    CutOff,
    /// It is `len`, and ends at `end`.
    Read { len: usize, end: usize },
}

/// Reads a length: the half of a token, and the bytes from `pos` on that extend it.
fn read_length(block: &[u8], pos: usize, half: u8, before: usize) -> (r: LengthField)
    requires
        pos <= block@.len(),
        half <= 15,
        before <= isize::MAX + 4,
    ensures
        match r {
            LengthField::TooLarge => !length_fits(block@, pos as int, half, before as nat),
            LengthField::CutOff => length_fits(block@, pos as int, half, before as nat)
                && length_at(block@, pos as int, half) is None,
            LengthField::Read { len, end } => length_fits(block@, pos as int, half, before as nat)
                && length_at(block@, pos as int, half) == Some((len as nat, end as int)),
        },
{
    if half < 15 {
        return LengthField::Read { len: half as usize, end: pos };
    }
    let mut sum: u64 = 0;
    let mut i: usize = pos;
    while i < block.len() && block[i] == 0xFF && sum <= 0xFFFF_FFFF
        invariant
            pos <= i <= block@.len(),
            sum <= 0xFFFF_FFFF + 255,
            sum + length_sum(block@, i as int) == length_sum(block@, pos as int),
            length_end(block@, i as int) == length_end(block@, pos as int),
        decreases block@.len() - i,
    {
        sum = sum + 255;
        i = i + 1;
    }
    let ended = i < block.len();
    if ended {
        sum = sum + block[i] as u64;
    }
    if sum > 0xFFFF_FFFF || before as u64 + 15 + sum > usize::MAX as u64 {
        return LengthField::TooLarge;
    }
    if ended {
        LengthField::Read { len: 15 + sum as usize, end: i + 1 }
    } else {
        LengthField::CutOff
    }
}

/// Whether every length that is read from the block fits, and a buffer of the size in front
/// can be had.
fn lengths_fit_in(block: &[u8]) -> (r: bool)
    ensures
        r == lengths_fit(block@),
{
    if block.len() < 4 {
        return true;
    }
    proof {
        lemma_pow256_values();
        assert(block@.subrange(0, 4) =~= block@.take(4));
    }
    let declared: u64 = read_le(block, 0, 4);
    if declared > isize::MAX as u64 {
        return false;
    }
    let size: usize = declared as usize;
    let mut pos: usize = 4;
    let mut out: usize = 0;
    while pos < block.len()
        invariant
            4 <= pos <= block@.len(),
            out <= size <= isize::MAX,
            size == le_value(block@.take(4)),
            lengths_fit(block@) == lengths_fit_from(block@, pos as int, out as nat, size as nat),
        decreases block@.len() - pos,
    {
        let token: u8 = block[pos];
        proof {
            lemma_length_end(block@, pos + 1);
        }
        let (literals, start): (usize, usize) = match read_length(block, pos + 1, token / 16, 0) {
            LengthField::TooLarge => {
                return false;
            },
            LengthField::CutOff => {
                return true;
            },
            LengthField::Read { len, end } => (len, end),
        };
        if literals > size - out || literals > block.len() - start {
            return true;
        }
        let at: usize = start + literals;
        let made: usize = out + literals;
        if block.len() - at < 2 || (block[at] == 0 && block[at + 1] == 0) {
            return true;
        }
        proof {
            lemma_length_end(block@, at + 2);
        }
        let (more, next): (usize, usize) = match read_length(block, at + 2, token % 16, made + 4) {
            LengthField::TooLarge => {
                return false;
            },
            LengthField::CutOff => {
                return true;
            },
            LengthField::Read { len, end } => (len, end),
        };
        let total: usize = made + 4 + more;
        if total > size || block[at] as usize + 256 * block[at + 1] as usize > made {
            return true;
        }
        pos = next;
        out = total;
    }
    true
}

// Packing and unpacking.

/// `block` is an LZ4 block that `data` was packed into. Which of many possible blocks it
/// is depends on the machine's word size.
pub open spec fn lz4_packs(block: Seq<u8>, data: Seq<u8>) -> bool {
    &&& block.len() >= 4
    &&& block.take(4) == le_bytes(data.len(), 4)
    &&& lengths_fit(block)
    &&& lz4_unpacked(block) == Ok::<Seq<u8>, Seq<char>>(data)
}

/// `data` as an LZ4 block, by `lz4_flex::compress_prepend_size`. The length goes in front
/// in four bytes, so only data below 4 GiB is read back; there the block decompresses to
/// the data, and the lengths in it, being those of parts of the data, fit. Beyond the length
/// limit here, the size of the output buffer would overflow.
#[verifier::external_body]
fn lz4_pack(data: &[u8]) -> (block: Vec<u8>)
    requires
        data@.len() * 110 <= usize::MAX,
    ensures
        data@.len() <= u32::MAX ==> lz4_packs(block@, data@),
{
    lz4_flex::compress_prepend_size(data)
}

/// `block` is one that the LZ4 library may give for `data` on this machine.
pub closed spec fn may_pack(data: &[u8], block: Vec<u8>) -> bool {
    call_ensures(lz4_pack, (data,), block)
}

/// A result that came out of a block, as a value.
pub open spec fn unpacked_value(r: std::result::Result<Vec<u8>, String>) -> std::result::Result<
    Seq<u8>,
    Seq<char>,
> {
    match r {
        Ok(data) => Ok(data@),
        Err(text) => Err(text@),
    }
}

/// What the LZ4 block decompresses to, by `lz4_flex::decompress_size_prepended`, or the
/// text of its error. A length is summed there without a test, in 32 bits and then on top of
/// what was made before, so a block with one that does not fit is left out.
#[verifier::external_body]
fn lz4_unpack(block: &[u8]) -> (r: std::result::Result<Vec<u8>, String>)
    requires
        lengths_fit(block@),
    ensures
        unpacked_value(r) == lz4_unpacked(block@),
{
    lz4_flex::decompress_size_prepended(block).map_err(|e| e.to_string())
}

/// The packed form where it is smaller than the data.
pub fn shorter_form(data: &[u8], packed: Vec<u8>) -> (r: Option<Vec<u8>>)
    ensures
        match r {
            Some(v) => packed@.len() < data@.len() && v == packed,
            None => packed@.len() >= data@.len(),
        },
{
    if packed.len() < data.len() {
        Some(packed)
    } else {
        None
    }
}

/// Compresses `data` with LZ4.
///
/// Gives a block where that is smaller than the data, and none for data that is empty or
/// does not compress.
#[must_use]
pub fn lz_encode(data: &[u8]) -> (r: Option<Vec<u8>>)
    requires
        data@.len() * 110 <= usize::MAX,
    ensures
        data@.len() == 0 ==> r is None,
        data@.len() > 0 ==> exists|block: Vec<u8>| #[trigger]
            may_pack(data, block) && r == if block@.len() < data@.len() {
                Some(block)
            } else {
                None
            },
        r matches Some(block) ==> block@.len() < data@.len() && (data@.len() <= u32::MAX
            ==> lz4_packs(block@, data@)),
{
    if data.len() == 0 {
        return None;
    }
    let packed = lz4_pack(data);
    assert(may_pack(data, packed));
    shorter_form(data, packed)
}

/// The text of a block whose length differs from what is expected.
pub open spec fn declared_size_text(declared: nat, expected: nat) -> Seq<char> {
    "LZ4 embedded size "@ + decimal(declared) + " does not match expected "@ + decimal(expected)
        + ""@
}

/// What data that came out of a block is taken for.
pub open spec fn unpacked_outcome(
    unpacked: std::result::Result<Seq<u8>, Seq<char>>,
    expected: nat,
) -> std::result::Result<Seq<u8>, ErrorModel> {
    match unpacked {
        Err(fault) => Err(ErrorModel::Decompression("LZ4 decompress failed: "@ + fault)),
        Ok(data) => if data.len() != expected {
            Err(
                ErrorModel::Decompression(
                    "LZ4 decode size mismatch: expected "@ + decimal(expected) + ", got "@
                        + decimal(data.len()) + ""@,
                ),
            )
        } else {
            Ok(data)
        },
    }
}

/// What a block decodes to where `expected` bytes are expected. A block whose length in
/// front is another, or in which a length does not fit, is not decompressed.
pub open spec fn lz_decode_outcome(
    block: Seq<u8>,
    expected: nat,
) -> std::result::Result<Seq<u8>, ErrorModel> {
    if block.len() == 0 {
        Err(ErrorModel::Decompression("LZ4 decode: empty input"@))
    } else if block.len() >= 4 && le_value(block.take(4)) != expected {
        Err(ErrorModel::Decompression(declared_size_text(le_value(block.take(4)), expected)))
    } else if !lengths_fit(block) {
        Err(ErrorModel::Decompression("LZ4 decode: a length is too large"@))
    } else {
        unpacked_outcome(lz4_unpacked(block), expected)
    }
}

/// Takes over what came out of a block, where it has the expected size.
pub fn accept_unpacked(
    unpacked: std::result::Result<Vec<u8>, String>,
    expected_original_size: usize,
) -> (r: Result<Vec<u8>>)
    ensures
        same_bytes(r, unpacked_outcome(unpacked_value(unpacked), expected_original_size as nat)),
{
    match unpacked {
        Err(fault) => {
            let mut text = String::from_str("LZ4 decompress failed: ");
            text.append(fault.as_str());
            Err(AetherError::Decompression(text))
        },
        Ok(data) => if data.len() != expected_original_size {
            Err(
                AetherError::Decompression(
                    text_around_numbers(
                        "LZ4 decode size mismatch: expected ",
                        expected_original_size as u64,
                        ", got ",
                        data.len() as u64,
                        "",
                    ),
                ),
            )
        } else {
            Ok(data)
        },
    }
}

/// Decompresses a block that [`lz_encode`] gave.
///
/// The size in front of the block and the size of what comes out must be the expected
/// one. A block in which a length does not fit is refused.
pub fn lz_decode(lz_bytes: &[u8], expected_original_size: usize) -> (r: Result<Vec<u8>>)
    ensures
        same_bytes(r, lz_decode_outcome(lz_bytes@, expected_original_size as nat)),
{
    if lz_bytes.len() == 0 {
        return Err(AetherError::Decompression("LZ4 decode: empty input".to_string()));
    }
    if lz_bytes.len() >= 4 {
        proof {
            lemma_pow256_values();
            assert(lz_bytes@.subrange(0, 4) =~= lz_bytes@.take(4));
        }
        let declared: u64 = read_le(lz_bytes, 0, 4);
        if declared != expected_original_size as u64 {
            return Err(
                AetherError::Decompression(
                    text_around_numbers(
                        "LZ4 embedded size ",
                        declared,
                        " does not match expected ",
                        expected_original_size as u64,
                        "",
                    ),
                ),
            );
        }
    }
    if !lengths_fit_in(lz_bytes) {
        return Err(AetherError::Decompression("LZ4 decode: a length is too large".to_string()));
    }
    accept_unpacked(lz4_unpack(lz_bytes), expected_original_size)
}

/// A block that data below 4 GiB was packed into decodes to the data.
pub proof fn lz_round_trips(data: Seq<u8>, block: Seq<u8>)
    requires
        data.len() <= u32::MAX,
        lz4_packs(block, data),
    ensures
        lz_decode_outcome(block, data.len()) == Ok::<Seq<u8>, ErrorModel>(data),
{
    lemma_field(data.len(), 4);
}

/// What [`lz_encode`] and [`lz_decode`] give, one after the other: nothing, or a block smaller
/// than the data that decodes to it; and what decodes at all has the expected size.
pub proof fn blocks_decode_to_the_data(
    data: &[u8],
    r: Option<Vec<u8>>,
    block: &[u8],
    expected: usize,
    back: Result<Vec<u8>>,
)
    requires
        call_ensures(lz_decode, (block, expected), back),
    ensures
        back is Ok ==> back->Ok_0@.len() == expected,
        call_ensures(lz_encode, (data,), r) && r is Some ==> r->0@.len() < data@.len(),
        call_ensures(lz_encode, (data,), r) && r is Some && block@ == r->0@ && expected
            == data@.len() && data@.len() <= 0xFFFF_FFFF ==> back is Ok && back->Ok_0@ == data@,
{
    if call_ensures(lz_encode, (data,), r) && r is Some && data@.len() <= 0xFFFF_FFFF {
        lz_round_trips(data@, r->0@);
    }
}

/// What [`lz_encode`] gives is the block that the LZ4 library gave, wherever that is smaller
/// than the data, and nothing elsewhere.
pub proof fn smaller_blocks_are_given(data: &[u8], r: Option<Vec<u8>>)
    requires
        call_ensures(lz_encode, (data,), r),
        data@.len() > 0,
    ensures
        exists|block: Vec<u8>| #[trigger]
            may_pack(data, block) && (block@.len() < data@.len() ==> r == Some(block)) && (
            block@.len() >= data@.len() ==> r is None),
{
    let block = choose|block: Vec<u8>| #[trigger]
        may_pack(data, block) && r == if block@.len() < data@.len() {
            Some(block)
        } else {
            None
        };
    assert(may_pack(data, block));
}

/// What [`accept_unpacked`] and [`shorter_form`] make of an answer: data of the expected size
/// and a block that is smaller are taken as they are, and nothing else is.
pub proof fn answers_are_taken_over(
    unpacked: std::result::Result<Vec<u8>, String>,
    expected: usize,
    r: Result<Vec<u8>>,
    data: &[u8],
    packed: Vec<u8>,
    shorter: Option<Vec<u8>>,
)
    requires
        call_ensures(accept_unpacked, (unpacked, expected), r),
        call_ensures(shorter_form, (data, packed), shorter),
    ensures
        r is Ok <==> unpacked is Ok && unpacked->Ok_0@.len() == expected,
        r is Ok ==> r->Ok_0@ == unpacked->Ok_0@,
        r is Err ==> r->Err_0@ is Decompression,
        shorter is Some <==> packed@.len() < data@.len(),
        shorter is Some ==> shorter->0@ == packed@,
{
}

/// A length is the half of a token, and where that is 15, the sum of the bytes behind it up to
/// the first below 255.
pub proof fn lengths_are_sums(block: Seq<u8>, pos: int, half: u8)
    requires
        0 <= pos < block.len(),
        half <= 15,
    ensures
        half < 15 ==> length_at(block, pos, half) == Some((half as nat, pos)),
        block[pos] < 255 ==> length_at(block, pos, 15) == Some((15 + block[pos] as nat, pos + 1)),
        block[pos] == 255 ==> length_sum(block, pos) == 255 + length_sum(block, pos + 1)
            && length_end(block, pos) == length_end(block, pos + 1),
{
}

} // verus!

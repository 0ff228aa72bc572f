//! Zstandard fallback compression for high-entropy data.

use crate::error::{same_bytes, AetherError, ErrorModel, Result};
use crate::format::MAX_DECOMPRESSED_BLOCK_SIZE;
use crate::text::{decimal, text_around_numbers};
use std::io::Read;
use vstd::prelude::*;
use vstd::string::*;

verus! {

/// Default zstd compression level (balance of speed and ratio).
pub const ZSTD_COMPRESSION_LEVEL: i32 = 3;

/// Why reading a zstd stream failed.
pub enum ZstdFault {
    /// The decoder could not be set up.
    Init(String),
    /// The stream could not be decoded.
    Stream(String),
}

/// The value of a [`ZstdFault`].
pub enum ZstdFaultModel {
    Init(Seq<char>),
    Stream(Seq<char>),
}

impl View for ZstdFault {
    type V = ZstdFaultModel;

    open spec fn view(&self) -> ZstdFaultModel {
        match self {
            ZstdFault::Init(text) => ZstdFaultModel::Init(text@),
            ZstdFault::Stream(text) => ZstdFaultModel::Stream(text@),
        }
    }
}

/// What reading at most `limit` bytes out of a zstd stream gives.
pub uninterp spec fn zstd_read(stream: Seq<u8>, limit: nat) -> std::result::Result<
    Seq<u8>,
    ZstdFaultModel,
>;

/// `stream` is a zstd stream of `data`: reading gives the data, where the limit is above
/// its length.
pub open spec fn zstd_packs(stream: Seq<u8>, data: Seq<u8>) -> bool {
    forall|limit: nat|
        data.len() < limit ==> #[trigger] zstd_read(stream, limit) == Ok::<
            Seq<u8>,
            ZstdFaultModel,
        >(data)
}

/// `data` as a zstd stream, by `zstd::encode_all`, or the text of its error. Reading the
/// stream gives the data back. Which stream it is and when an error comes is up to the
/// library.
#[verifier::external_body]
fn zstd_pack(data: &[u8], level: i32) -> (r: std::result::Result<Vec<u8>, String>)
    requires
        1 <= level <= 22,
    ensures
        r matches Ok(stream) ==> zstd_packs(stream@, data@),
{
    zstd::encode_all(std::io::Cursor::new(data), level).map_err(|e| e.to_string())
}

/// The first bytes out of a zstd stream, at most `limit` of them, by
/// `zstd::stream::Decoder` read to its end through `std::io::Read::take`.
#[verifier::external_body]
fn zstd_unpack(stream: &[u8], limit: u64) -> (r: std::result::Result<Vec<u8>, ZstdFault>)
    ensures
        match r {
            Ok(data) => zstd_read(stream@, limit as nat) == Ok::<Seq<u8>, ZstdFaultModel>(data@)
                && data@.len() <= limit,
            Err(fault) => zstd_read(stream@, limit as nat) == Err::<Seq<u8>, ZstdFaultModel>(
                fault@,
            ),
        },
{
    let decoder = zstd::stream::Decoder::new(std::io::Cursor::new(stream))
        .map_err(|e| ZstdFault::Init(e.to_string()))?;
    let mut data: Vec<u8> = Vec::new();
    decoder.take(limit).read_to_end(&mut data).map_err(|e| ZstdFault::Stream(e.to_string()))?;
    Ok(data)
}

/// The text of a failed compression.
pub open spec fn compress_fault_text(text: Seq<char>) -> Seq<char> {
    "zstd compress: "@ + text
}

/// Takes over a compressed stream, or the text of an error.
pub fn accept_packed(packed: std::result::Result<Vec<u8>, String>) -> (r: Result<Vec<u8>>)
    ensures
        match packed {
            Ok(v) => r matches Ok(w) && w@ == v@,
            Err(text) => r matches Err(e) && e@ == ErrorModel::Compression(
                compress_fault_text(text@),
            ),
        },
{
    match packed {
        Ok(v) => Ok(v),
        Err(t) => {
            let mut text = String::from_str("zstd compress: ");
            text.append(t.as_str());
            Err(AetherError::Compression(text))
        },
    }
}

/// `packed` is what the zstd library may give for `data` at `level` on this machine.
pub closed spec fn may_zstd_pack(
    data: &[u8],
    level: i32,
    packed: std::result::Result<Vec<u8>, String>,
) -> bool {
    call_ensures(zstd_pack, (data, level), packed)
}

/// Compresses a data block using Zstandard, at [`ZSTD_COMPRESSION_LEVEL`].
pub fn compress(data: &[u8]) -> (r: Result<Vec<u8>>)
    ensures
        exists|packed: std::result::Result<Vec<u8>, String>| #[trigger]
            may_zstd_pack(data, ZSTD_COMPRESSION_LEVEL, packed) && match packed {
                Ok(v) => r matches Ok(w) && w@ == v@,
                Err(text) => r matches Err(e) && e@ == ErrorModel::Compression(
                    compress_fault_text(text@),
                ),
            },
        r matches Ok(stream) ==> zstd_packs(stream@, data@),
{
    let packed = zstd_pack(data, ZSTD_COMPRESSION_LEVEL);
    assert(may_zstd_pack(data, ZSTD_COMPRESSION_LEVEL, packed));
    accept_packed(packed)
}

/// What came out of a stream is taken for where `expected` bytes are expected.
pub open spec fn read_outcome(
    read: std::result::Result<Seq<u8>, ZstdFaultModel>,
    expected: nat,
) -> std::result::Result<Seq<u8>, ErrorModel> {
    match read {
        Err(ZstdFaultModel::Init(text)) => Err(
            ErrorModel::Decompression("zstd decoder init: "@ + text),
        ),
        Err(ZstdFaultModel::Stream(text)) => Err(
            ErrorModel::Decompression("zstd decompress: "@ + text),
        ),
        Ok(data) => if data.len() != expected {
            Err(
                ErrorModel::Decompression(
                    "zstd decode size mismatch: expected "@ + decimal(expected) + ", got "@
                        + decimal(data.len()) + ""@,
                ),
            )
        } else {
            Ok(data)
        },
    }
}

/// What a stream decompresses to where `expected` bytes are expected: one byte more is
/// asked for, so that a longer content is noticed without reading all of it.
pub open spec fn decompress_outcome(stream: Seq<u8>, expected: nat) -> std::result::Result<
    Seq<u8>,
    ErrorModel,
> {
    if expected > MAX_DECOMPRESSED_BLOCK_SIZE {
        Err(
            ErrorModel::Decompression(
                "zstd decode size "@ + decimal(expected) + " exceeds safety limit "@ + decimal(
                    MAX_DECOMPRESSED_BLOCK_SIZE as nat,
                ) + ""@,
            ),
        )
    } else {
        read_outcome(zstd_read(stream, expected + 1), expected)
    }
}

/// A result that was read, as a value.
pub open spec fn read_value(read: std::result::Result<Vec<u8>, ZstdFault>) -> std::result::Result<
    Seq<u8>,
    ZstdFaultModel,
> {
    match read {
        Ok(data) => Ok(data@),
        Err(fault) => Err(fault@),
    }
}

/// Takes over what came out of a stream, where it has the expected size.
pub fn accept_read(
    read: std::result::Result<Vec<u8>, ZstdFault>,
    expected_size: usize,
) -> (r: Result<Vec<u8>>)
    ensures
        same_bytes(r, read_outcome(read_value(read), expected_size as nat)),
{
    match read {
        Err(ZstdFault::Init(t)) => {
            let mut text = String::from_str("zstd decoder init: ");
            text.append(t.as_str());
            Err(AetherError::Decompression(text))
        },
        Err(ZstdFault::Stream(t)) => {
            let mut text = String::from_str("zstd decompress: ");
            text.append(t.as_str());
            Err(AetherError::Decompression(text))
        },
        Ok(data) => if data.len() != expected_size {
            Err(
                AetherError::Decompression(
                    text_around_numbers(
                        "zstd decode size mismatch: expected ",
                        expected_size as u64,
                        ", got ",
                        data.len() as u64,
                        "",
                    ),
                ),
            )
        } else {
            Ok(data)
        },
    }
}

/// Decompresses a Zstandard-compressed data block whose content has `expected_size`
/// bytes.
pub fn decompress(data: &[u8], expected_size: usize) -> (r: Result<Vec<u8>>)
    ensures
        same_bytes(r, decompress_outcome(data@, expected_size as nat)),
{
    if expected_size > MAX_DECOMPRESSED_BLOCK_SIZE {
        return Err(
            AetherError::Decompression(
                text_around_numbers(
                    "zstd decode size ",
                    expected_size as u64,
                    " exceeds safety limit ",
                    MAX_DECOMPRESSED_BLOCK_SIZE as u64,
                    "",
                ),
            ),
        );
    }
    let read = zstd_unpack(data, expected_size as u64 + 1);
    let ghost value = read_value(read);
    assert(value == zstd_read(data@, expected_size as nat + 1));
    accept_read(read, expected_size)
}

/// A stream of data within the limit decompresses to the data.
pub proof fn zstd_round_trips(data: Seq<u8>, stream: Seq<u8>)
    requires
        data.len() <= MAX_DECOMPRESSED_BLOCK_SIZE,
        zstd_packs(stream, data),
    ensures
        decompress_outcome(stream, data.len()) == Ok::<Seq<u8>, ErrorModel>(data),
{
}

/// What [`compress`] and [`decompress`] give, one after the other: the data, where it is
/// within the limit of 64 MiB; and what decompresses at all has the expected size.
pub proof fn streams_decompress_to_the_data(
    data: &[u8],
    r: Result<Vec<u8>>,
    stream: &[u8],
    expected: usize,
    back: Result<Vec<u8>>,
)
    requires
        call_ensures(decompress, (stream, expected), back),
    ensures
        back is Ok ==> back->Ok_0@.len() == expected <= 67_108_864,
        call_ensures(compress, (data,), r) && r is Ok && stream@ == r->Ok_0@ && expected
            == data@.len() && data@.len() <= 67_108_864 ==> back is Ok && back->Ok_0@ == data@,
{
    if call_ensures(compress, (data,), r) && r is Ok && data@.len() <= 67_108_864 {
        zstd_round_trips(data@, r->Ok_0@);
    }
}

/// What [`compress`] gives is what the zstd library gave at level 3, or its error.
pub proof fn streams_are_made_at_level_three(data: &[u8], r: Result<Vec<u8>>)
    requires
        call_ensures(compress, (data,), r),
    ensures
        exists|packed: std::result::Result<Vec<u8>, String>| #[trigger]
            may_zstd_pack(data, 3, packed) && (r is Ok <==> packed is Ok) && (r is Ok
                ==> r->Ok_0@ == packed->Ok_0@),
{
    let packed = choose|packed: std::result::Result<Vec<u8>, String>| #[trigger]
        may_zstd_pack(data, ZSTD_COMPRESSION_LEVEL, packed) && match packed {
            Ok(v) => r matches Ok(w) && w@ == v@,
            Err(text) => r matches Err(e) && e@ == ErrorModel::Compression(
                compress_fault_text(text@),
            ),
        };
    assert(may_zstd_pack(data, 3, packed));
}

/// What [`accept_read`] and [`accept_packed`] make of an answer: data of the expected size and
/// any stream are taken as they are, and nothing else is.
pub proof fn answers_are_taken_over(
    read: std::result::Result<Vec<u8>, ZstdFault>,
    expected: usize,
    r: Result<Vec<u8>>,
    packed: std::result::Result<Vec<u8>, String>,
    w: Result<Vec<u8>>,
)
    requires
        call_ensures(accept_read, (read, expected), r),
        call_ensures(accept_packed, (packed,), w),
    ensures
        r is Ok <==> read is Ok && read->Ok_0@.len() == expected,
        r is Ok ==> r->Ok_0@ == read->Ok_0@,
        w is Ok <==> packed is Ok,
        w is Ok ==> w->Ok_0@ == packed->Ok_0@,
        r is Err ==> r->Err_0@ is Decompression,
        w is Err ==> w->Err_0@ is Compression,
{
}

} // verus!

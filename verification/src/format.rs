//! Constants, limits and identifiers of the `.aet` binary format.

use crate::error::{AetherError, ErrorModel, Result};
use vstd::prelude::*;

verus! {

/// Magic bytes identifying an AetherArch archive: `0xAE "ther" 0x00 <major> <minor>`.
pub const MAGIC: [u8; 8] = [0xAE, 0x74, 0x68, 0x65, 0x72, 0x00, 0x01, 0x00];

/// Format major version number.
pub const FORMAT_VERSION_MAJOR: u8 = 0x01;

/// Format minor version number.
pub const FORMAT_VERSION_MINOR: u8 = 0x01;

/// Magic number at the start of each compressed data block.
pub const BLOCK_MAGIC: u32 = 0xB10C_AE01;

/// Magic number at the end of the archive footer (`0xAE "END"`).
pub const FOOTER_MAGIC: u32 = 0xAE45_4E44;

/// Size of the fixed archive header in bytes.
pub const ARCHIVE_HEADER_SIZE: usize = 48;

/// Size of each block header in bytes.
pub const BLOCK_HEADER_SIZE: usize = 28;

/// Size of each block trailer in bytes.
pub const BLOCK_TRAILER_SIZE: usize = 36;

/// Size of each block index entry in bytes.
pub const BLOCK_INDEX_ENTRY_SIZE: usize = 24;

/// Size of the fixed archive footer in bytes.
pub const ARCHIVE_FOOTER_SIZE: usize = 32;

/// Size of each solid group table entry in bytes.
pub const SOLID_GROUP_ENTRY_SIZE: usize = 24;

/// Maximum decompressed block size (64 MiB).
pub const MAX_DECOMPRESSED_BLOCK_SIZE: usize = 67_108_864;

/// Maximum number of files allowed in a single archive.
pub const MAX_FILE_COUNT: u32 = 1_000_000;

/// Maximum number of blocks allowed in a single archive.
pub const MAX_BLOCK_COUNT: u32 = 10_000_000;

/// Maximum number of solid groups allowed in a single archive.
pub const MAX_SOLID_GROUP_COUNT: u32 = 100_000;

/// Maximum file path length in bytes.
pub const MAX_PATH_LENGTH: usize = 4096;

/// Maximum total decompressed output per archive (8 GiB).
pub const MAX_TOTAL_DECOMPRESSED_SIZE: u64 = 8_589_934_592;

/// Maximum total compressed bytes read per archive (16 GiB).
pub const MAX_TOTAL_COMPRESSED_READ_SIZE: u64 = 17_179_869_184;

/// Maximum capacity hint when sizes come from untrusted archive metadata.
pub const MAX_PREALLOC_CAPACITY: usize = 4096;

/// Minimum Argon2id memory cost in KiB.
pub const MIN_ARGON2_M_COST: u32 = 16_384;

/// Minimum Argon2id iteration count.
pub const MIN_ARGON2_T_COST: u32 = 2;

/// Minimum Argon2id parallelism lanes.
pub const MIN_ARGON2_P_COST: u32 = 1;

/// Maximum Argon2id memory cost in KiB (1 GiB).
pub const MAX_ARGON2_M_COST: u32 = 1_048_576;

/// Maximum Argon2id iteration count.
pub const MAX_ARGON2_T_COST: u32 = 16;

/// Maximum Argon2id parallelism lanes.
pub const MAX_ARGON2_P_COST: u32 = 16;

/// Permission bits kept of an archived file mode (no setuid, setgid or sticky bit).
pub const SAFE_PERMISSION_MASK: u32 = 0o0777;

/// Maximum total input size during compression (8 GiB).
pub const MAX_TOTAL_INPUT_SIZE: u64 = 8_589_934_592;

/// Size of the password verification tag in the encryption header.
pub const VERIFICATION_TAG_SIZE: usize = 32;

/// Block ID reserved for encrypted metadata; real block IDs start at 0.
pub const ENCRYPTED_METADATA_BLOCK_ID: u32 = 0xFFFF_FFFF;

/// BWT compression ratio in percent below which LZ77 is not tried.
pub const BWT_DECISIVE_RATIO: usize = 55;

/// Header flag: archive contains a neural model predictor.
pub const FLAG_HAS_NEURAL_MODEL: u16 = 1;

/// Header flag: archive uses solid grouping.
pub const FLAG_SOLID_ARCHIVE: u16 = 2;

/// Header flag: archive is encrypted.
pub const FLAG_ENCRYPTED: u16 = 4;

/// Header flag: archive was compressed with a dictionary.
pub const FLAG_HAS_DICTIONARY: u16 = 8;

/// Identifies which predictor was used to compress the archive.
#[non_exhaustive]
#[derive(Debug, Clone, Copy, PartialEq, Eq, Hash, Structural)]
pub enum PredictorId {
    Order0,
    ContextMixer,
    NeuralSsm,
    ContextMixerLight,
    Lz4Aware,
    /// RLE-aware context-class predictor for BWT+MTF+RLE streams.
    Rle,
    /// MTF-aware predictor for BWT+MTF preprocessed data.
    Mtf,
    ZstdOnly,
}

impl PredictorId {
    /// The number stored for the predictor.
    pub open spec fn number(self) -> u16 {
        match self {
            PredictorId::Order0 => 0,
            PredictorId::ContextMixer => 1,
            PredictorId::NeuralSsm => 2,
            PredictorId::ContextMixerLight => 3,
            PredictorId::Lz4Aware => 4,
            PredictorId::Rle => 5,
            PredictorId::Mtf => 6,
            PredictorId::ZstdOnly => 255,
        }
    }

    /// The predictor with the stored number `v`, if there is one.
    pub open spec fn of_number(v: u16) -> Option<PredictorId> {
        if v == 0 {
            Some(PredictorId::Order0)
        } else if v == 1 {
            Some(PredictorId::ContextMixer)
        } else if v == 2 {
            Some(PredictorId::NeuralSsm)
        } else if v == 3 {
            Some(PredictorId::ContextMixerLight)
        } else if v == 4 {
            Some(PredictorId::Lz4Aware)
        } else if v == 5 {
            Some(PredictorId::Rle)
        } else if v == 6 {
            Some(PredictorId::Mtf)
        } else if v == 255 {
            Some(PredictorId::ZstdOnly)
        } else {
            None
        }
    }

    /// The number stored in the archive header for this predictor.
    pub fn to_u16(self) -> (v: u16)
        ensures
            v == self.number(),
    {
        match self {
            PredictorId::Order0 => 0,
            PredictorId::ContextMixer => 1,
            PredictorId::NeuralSsm => 2,
            PredictorId::ContextMixerLight => 3,
            PredictorId::Lz4Aware => 4,
            PredictorId::Rle => 5,
            PredictorId::Mtf => 6,
            PredictorId::ZstdOnly => 255,
        }
    }

    /// The predictor stored as `v`; an error names a number that none has.
    pub fn from_u16(v: u16) -> (r: Result<PredictorId>)
        ensures
            match (r, PredictorId::of_number(v)) {
                (Ok(id), Some(known)) => id == known,
                (Err(e), None) => e@ == ErrorModel::UnknownPredictorId(v),
                _ => false,
            },
    {
        match v {
            0x0000 => Ok(PredictorId::Order0),
            0x0001 => Ok(PredictorId::ContextMixer),
            0x0002 => Ok(PredictorId::NeuralSsm),
            0x0003 => Ok(PredictorId::ContextMixerLight),
            0x0004 => Ok(PredictorId::Lz4Aware),
            0x0005 => Ok(PredictorId::Rle),
            0x0006 => Ok(PredictorId::Mtf),
            0x00FF => Ok(PredictorId::ZstdOnly),
            other => Err(AetherError::UnknownPredictorId(other)),
        }
    }
}

/// Reading back the number of a predictor gives the predictor, and every number
/// that is accepted is the number of the predictor it is read as.
pub proof fn predictor_numbers_round_trip(id: PredictorId, v: u16)
    ensures
        PredictorId::of_number(id.number()) == Some(id),
        PredictorId::of_number(v) matches Some(p) ==> p.number() == v,
{
}

/// Per-block compression method stored in the block header.
#[non_exhaustive]
#[derive(Debug, Clone, Copy, PartialEq, Eq, Hash, Structural)]
pub enum CompressionMethod {
    /// Predictor + range coding.
    PredictorRans,
    /// Zstandard fallback for high-entropy data.
    Zstd,
    /// Stored uncompressed.
    Store,
    /// LZ4 preprocessing + predictor + range coding.
    LzPredictorRans,
    /// LZ77 preprocessing + predictor + range coding.
    Lz77PredictorRans,
    /// BWT + MTF preprocessing + predictor + range coding.
    BwtPredictorRans,
    /// Byte-plane splitting + per-plane range coding.
    BytePlanePredictorRans,
}

impl CompressionMethod {
    /// The number stored for the method.
    pub open spec fn number(self) -> u8 {
        match self {
            CompressionMethod::PredictorRans => 0,
            CompressionMethod::Zstd => 1,
            CompressionMethod::Store => 2,
            CompressionMethod::LzPredictorRans => 3,
            CompressionMethod::Lz77PredictorRans => 4,
            CompressionMethod::BwtPredictorRans => 5,
            CompressionMethod::BytePlanePredictorRans => 6,
        }
    }

    /// The method with the stored number `v`, if there is one.
    pub open spec fn of_number(v: u8) -> Option<CompressionMethod> {
        if v == 0 {
            Some(CompressionMethod::PredictorRans)
        } else if v == 1 {
            Some(CompressionMethod::Zstd)
        } else if v == 2 {
            Some(CompressionMethod::Store)
        } else if v == 3 {
            Some(CompressionMethod::LzPredictorRans)
        } else if v == 4 {
            Some(CompressionMethod::Lz77PredictorRans)
        } else if v == 5 {
            Some(CompressionMethod::BwtPredictorRans)
        } else if v == 6 {
            Some(CompressionMethod::BytePlanePredictorRans)
        } else {
            None
        }
    }

    /// The number stored in the block header for this method.
    pub fn to_u8(self) -> (v: u8)
        ensures
            v == self.number(),
    {
        match self {
            CompressionMethod::PredictorRans => 0,
            CompressionMethod::Zstd => 1,
            CompressionMethod::Store => 2,
            CompressionMethod::LzPredictorRans => 3,
            CompressionMethod::Lz77PredictorRans => 4,
            CompressionMethod::BwtPredictorRans => 5,
            CompressionMethod::BytePlanePredictorRans => 6,
        }
    }

    /// The method stored as `v`; an error names a number that none has.
    pub fn from_u8(v: u8) -> (r: Result<CompressionMethod>)
        ensures
            match (r, CompressionMethod::of_number(v)) {
                (Ok(m), Some(known)) => m == known,
                (Err(e), None) => e@ == ErrorModel::UnknownCompressionMethod(v),
                _ => false,
            },
    {
        match v {
            0 => Ok(CompressionMethod::PredictorRans),
            1 => Ok(CompressionMethod::Zstd),
            2 => Ok(CompressionMethod::Store),
            3 => Ok(CompressionMethod::LzPredictorRans),
            4 => Ok(CompressionMethod::Lz77PredictorRans),
            5 => Ok(CompressionMethod::BwtPredictorRans),
            6 => Ok(CompressionMethod::BytePlanePredictorRans),
            other => Err(AetherError::UnknownCompressionMethod(other)),
        }
    }
}

/// Reading back the number of a method gives the method, and every number that
/// is accepted is the number of the method it is read as.
pub proof fn method_numbers_round_trip(m: CompressionMethod, v: u8)
    ensures
        CompressionMethod::of_number(m.number()) == Some(m),
        CompressionMethod::of_number(v) matches Some(p) ==> p.number() == v,
{
}

/// Semantic content type used for solid grouping.
#[non_exhaustive]
#[derive(Debug, Clone, Copy, PartialEq, Eq, Hash, Structural)]
pub enum ContentType {
    Mixed,
    Text,
    BinaryStructured,
    BinaryRandom,
    Image,
    Executable,
    /// Numeric arrays / tensor data (float weights, embeddings, etc.).
    NumericData,
}

impl ContentType {
    /// The number stored for the content type.
    pub open spec fn number(self) -> u16 {
        match self {
            ContentType::Mixed => 0,
            ContentType::Text => 1,
            ContentType::BinaryStructured => 2,
            ContentType::BinaryRandom => 3,
            ContentType::Image => 4,
            ContentType::Executable => 5,
            ContentType::NumericData => 6,
        }
    }

    /// The content type with the stored number `v`, if there is one.
    pub open spec fn of_number(v: u16) -> Option<ContentType> {
        if v == 0 {
            Some(ContentType::Mixed)
        } else if v == 1 {
            Some(ContentType::Text)
        } else if v == 2 {
            Some(ContentType::BinaryStructured)
        } else if v == 3 {
            Some(ContentType::BinaryRandom)
        } else if v == 4 {
            Some(ContentType::Image)
        } else if v == 5 {
            Some(ContentType::Executable)
        } else if v == 6 {
            Some(ContentType::NumericData)
        } else {
            None
        }
    }

    /// The number stored in the solid group table for this content type.
    pub fn to_u16(self) -> (v: u16)
        ensures
            v == self.number(),
    {
        match self {
            ContentType::Mixed => 0,
            ContentType::Text => 1,
            ContentType::BinaryStructured => 2,
            ContentType::BinaryRandom => 3,
            ContentType::Image => 4,
            ContentType::Executable => 5,
            ContentType::NumericData => 6,
        }
    }

    /// The content type stored as `v`; an error names a number that none has.
    pub fn from_u16(v: u16) -> (r: Result<ContentType>)
        ensures
            match (r, ContentType::of_number(v)) {
                (Ok(t), Some(known)) => t == known,
                (Err(e), None) => e@ == ErrorModel::UnknownContentType(v),
                _ => false,
            },
    {
        match v {
            0 => Ok(ContentType::Mixed),
            1 => Ok(ContentType::Text),
            2 => Ok(ContentType::BinaryStructured),
            3 => Ok(ContentType::BinaryRandom),
            4 => Ok(ContentType::Image),
            5 => Ok(ContentType::Executable),
            6 => Ok(ContentType::NumericData),
            other => Err(AetherError::UnknownContentType(other)),
        }
    }
}

/// Reading back the number of a content type gives the content type, and every
/// number that is accepted is the number of the content type it is read as.
pub proof fn content_type_numbers_round_trip(t: ContentType, v: u16)
    ensures
        ContentType::of_number(t.number()) == Some(t),
        ContentType::of_number(v) matches Some(p) ==> p.number() == v,
{
}

/// How often `byte` occurs in `data`.
pub open spec fn occurrences(data: Seq<u8>, byte: int) -> nat
    decreases data.len(),
{
    if data.len() == 0 {
        0
    } else {
        occurrences(data.drop_last(), byte) + if data.last() == byte {
            1nat
        } else {
            0nat
        }
    }
}

/// Counts how often each byte occurs, which is what the entropy of `data` rests on.
pub fn byte_counts(data: &[u8]) -> (counts: [u64; 256])
    ensures
        forall|b: int| 0 <= b < 256 ==> #[trigger] counts@[b] == occurrences(data@, b),
{
    let mut counts: [u64; 256] = [0;256];
    let mut i: usize = 0;
    assert(data@.take(0) =~= Seq::empty());
    while i < data.len()
        invariant
            i <= data@.len(),
            counts@.len() == 256,
            forall|b: int|
                0 <= b < 256 ==> #[trigger] counts@[b] == occurrences(data@.take(i as int), b)
                    && counts@[b] <= i,
        decreases data@.len() - i,
    {
        assert(data@.take(i + 1).drop_last() =~= data@.take(i as int));
        let k: usize = data[i] as usize;
        let more: u64 = counts[k] + 1;
        counts[k] = more;
        i = i + 1;
    }
    assert(data@.take(i as int) =~= data@);
    counts
}

/// The numbers under which predictors, methods and content types are stored, and what
/// becomes of all others.
pub proof fn stored_numbers_are_fixed(v: u16, b: u8)
    ensures
        PredictorId::Order0.number() == 0 && PredictorId::ContextMixer.number() == 1
            && PredictorId::NeuralSsm.number() == 2 && PredictorId::ContextMixerLight.number() == 3
            && PredictorId::Lz4Aware.number() == 4 && PredictorId::Rle.number() == 5
            && PredictorId::Mtf.number() == 6 && PredictorId::ZstdOnly.number() == 255,
        CompressionMethod::PredictorRans.number() == 0 && CompressionMethod::Zstd.number() == 1
            && CompressionMethod::Store.number() == 2 && CompressionMethod::LzPredictorRans.number()
            == 3 && CompressionMethod::Lz77PredictorRans.number() == 4
            && CompressionMethod::BwtPredictorRans.number() == 5
            && CompressionMethod::BytePlanePredictorRans.number() == 6,
        ContentType::Mixed.number() == 0 && ContentType::Text.number() == 1
            && ContentType::BinaryStructured.number() == 2 && ContentType::BinaryRandom.number()
            == 3 && ContentType::Image.number() == 4 && ContentType::Executable.number() == 5
            && ContentType::NumericData.number() == 6,
        PredictorId::of_number(v) is None <==> v > 6 && v != 255,
        CompressionMethod::of_number(b) is None <==> b > 6,
        ContentType::of_number(v) is None <==> v > 6,
{
}

/// What the conversions to and from numbers give, one after the other: what was stored, and
/// an error that names the number where there is no such thing.
pub proof fn stored_numbers_are_read_back(
    p: PredictorId,
    v: u16,
    m: CompressionMethod,
    b: u8,
    t: ContentType,
    c: u16,
    rp: Result<PredictorId>,
    rm: Result<CompressionMethod>,
    rt: Result<ContentType>,
)
    requires
        call_ensures(PredictorId::from_u16, (v,), rp),
        call_ensures(CompressionMethod::from_u8, (b,), rm),
        call_ensures(ContentType::from_u16, (c,), rt),
    ensures
        call_ensures(PredictorId::to_u16, (p,), v) ==> rp is Ok && rp->Ok_0 == p,
        call_ensures(CompressionMethod::to_u8, (m,), b) ==> rm is Ok && rm->Ok_0 == m,
        call_ensures(ContentType::to_u16, (t,), c) ==> rt is Ok && rt->Ok_0 == t,
        rp is Ok ==> rp->Ok_0.number() == v,
        rm is Ok ==> rm->Ok_0.number() == b,
        rt is Ok ==> rt->Ok_0.number() == c,
        rp is Err ==> rp->Err_0@ == ErrorModel::UnknownPredictorId(v) && v > 6 && v != 255,
        rm is Err ==> rm->Err_0@ == ErrorModel::UnknownCompressionMethod(b) && b > 6,
        rt is Err ==> rt->Err_0@ == ErrorModel::UnknownContentType(c) && c > 6,
{
}

/// What [`byte_counts`] gives: one byte more counts once, for itself alone.
pub proof fn bytes_are_counted_once(data: Seq<u8>, byte: u8, b: int)
    ensures
        occurrences(Seq::empty(), b) == 0,
        occurrences(data.push(byte), b) == occurrences(data, b) + if b == byte {
            1int
        } else {
            0
        },
{
    assert(data.push(byte).drop_last() =~= data);
}

/// What [`byte_counts`] gives are the occurrences of each byte.
pub proof fn counts_are_occurrences(data: &[u8], counts: [u64; 256], b: int)
    requires
        call_ensures(byte_counts, (data,), counts),
        0 <= b < 256,
    ensures
        counts@[b] == occurrences(data@, b),
        occurrences(data@, b) <= data@.len(),
        data@.len() > 0 && occurrences(data@, b) == data@.len() ==> data@[0] == b,
{
    lemma_occurrences(data@, b);
}

proof fn lemma_occurrences(data: Seq<u8>, b: int)
    ensures
        occurrences(data, b) <= data.len(),
        data.len() > 0 && occurrences(data, b) == data.len() ==> data[0] == b,
    decreases data.len(),
{
    if data.len() > 0 {
        lemma_occurrences(data.drop_last(), b);
    }
}

} // verus!

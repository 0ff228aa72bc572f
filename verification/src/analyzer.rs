//! Content-type detection and compression routing.
//!
//! Entropies, in bits per byte, are handed over as the bit patterns of `f64` numbers,
//! read as signed integers: those of numbers that are not negative are ordered as the
//! numbers are, and those of negative numbers are negative.

use crate::bytes::{le_value, lemma_pow256_values, lowest_byte_comes_first, read_le};
use crate::format::ContentType;
use crate::strings::{
    after_last_dot, extension_of, extensions_follow_the_last_dot, lower_text, same_text,
};
use vstd::prelude::*;
use vstd::slice::slice_subrange;

verus! {

/// The bit pattern of 7.5: above this entropy, data is near-random and goes to zstd.
pub const HIGH_ENTROPY_THRESHOLD: i64 = 0x401E_0000_0000_0000;

/// The bit pattern of 7.95: above this entropy, data is stored raw.
pub const INCOMPRESSIBLE_THRESHOLD: i64 = 0x401F_CCCC_CCCC_CCCD;

/// The bit pattern of infinity. Larger ones are not numbers.
pub const INFINITE_ENTROPY: i64 = 0x7FF0_0000_0000_0000;

/// Recommended compression method for a chunk or file.
#[derive(Debug, Clone, Copy, PartialEq, Eq, Structural)]
pub enum RecommendedMethod {
    /// Low or medium entropy: structured data, for a predictor and the range coder.
    PredictorRans,
    /// High entropy but still somewhat compressible.
    Zstd,
    /// Incompressible (encrypted, already compressed): store verbatim.
    Store,
}

/// Result of analyzing a chunk or file.
#[derive(Debug, Clone, Copy)]
pub struct AnalysisResult {
    /// Detected content type.
    pub content_type: ContentType,
    /// Mean Shannon entropy in bits per byte (0.0 = uniform, 8.0 = random).
    pub mean_entropy: i64,
    /// Recommended compression method based on entropy and content type.
    pub recommended_method: RecommendedMethod,
}

// Content-type detection.

/// `data` starts with `prefix`.
pub open spec fn starts(data: Seq<u8>, prefix: Seq<u8>) -> bool {
    data.len() >= prefix.len() && data.take(prefix.len() as int) == prefix
}

fn starts_with(data: &[u8], prefix: &[u8]) -> (r: bool)
    ensures
        r == starts(data@, prefix@),
{
    if data.len() < prefix.len() {
        return false;
    }
    let mut i: usize = 0;
    while i < prefix.len()
        invariant
            i <= prefix@.len() <= data@.len(),
            forall|k: int| 0 <= k < i ==> data@[k] == prefix@[k],
        decreases prefix@.len() - i,
    {
        if data[i] != prefix[i] {
            assert(data@.take(prefix@.len() as int)[i as int] != prefix@[i as int]);
            return false;
        }
        i = i + 1;
    }
    assert(data@.take(prefix@.len() as int) =~= prefix@);
    true
}

/// A safetensors file: the length of its metadata in eight bytes, then the metadata, which
/// starts with a brace.
pub open spec fn is_safetensors(data: Seq<u8>) -> bool {
    data.len() >= 9 && 0 < le_value(data.take(8)) < 100_000_000 && data[8] == 0x7B
}

/// An arrays or tensors file.
pub open spec fn is_numeric_magic(data: Seq<u8>) -> bool {
    ||| starts(data, seq![0x93u8, 0x4E, 0x55, 0x4D, 0x50, 0x59])
    ||| is_safetensors(data)
    ||| starts(data, seq![0x47u8, 0x47, 0x55, 0x46])
}

/// An ELF file or one in a DOS format.
pub open spec fn is_program_magic(data: Seq<u8>) -> bool {
    starts(data, seq![0x7Fu8, 0x45, 0x4C, 0x46]) || starts(data, seq![0x4Du8, 0x5A])
}

/// A WebP image: its name stands behind a RIFF header of eight bytes.
pub open spec fn is_webp(data: Seq<u8>) -> bool {
    &&& data.len() >= 12
    &&& starts(data, seq![0x52u8, 0x49, 0x46, 0x46])
    &&& starts(data.skip(8), seq![0x57u8, 0x45, 0x42, 0x50])
}

/// A JPEG, PNG, GIF or WebP image.
pub open spec fn is_image_magic(data: Seq<u8>) -> bool {
    ||| starts(data, seq![0xFFu8, 0xD8, 0xFF])
    ||| starts(data, seq![0x89u8, 0x50, 0x4E, 0x47])
    ||| starts(data, seq![0x47u8, 0x49, 0x46, 0x38])
    ||| is_webp(data)
}

/// A ZIP, gzip, zstd or xz file.
pub open spec fn is_packed_magic(data: Seq<u8>) -> bool {
    ||| starts(data, seq![0x50u8, 0x4B, 0x03, 0x04])
    ||| starts(data, seq![0x1Fu8, 0x8B])
    ||| starts(data, seq![0x28u8, 0xB5, 0x2F, 0xFD])
    ||| starts(data, seq![0xFDu8, 0x37, 0x7A, 0x58, 0x5A, 0x00])
}

/// A Mach-O file.
pub open spec fn is_mach_magic(data: Seq<u8>) -> bool {
    starts(data, seq![0xCFu8, 0xFA, 0xED, 0xFE]) || starts(data, seq![0xFEu8, 0xED, 0xFA, 0xCF])
}

/// A byte of plain text: a line feed, a carriage return, a tab or a printable ASCII
/// character.
pub open spec fn printable(b: u8) -> bool {
    b == 10 || b == 13 || b == 9 || 0x20 <= b <= 0x7E
}

/// How many bytes of `s` are printable.
pub open spec fn printable_count(s: Seq<u8>) -> nat
    decreases s.len(),
{
    if s.len() == 0 {
        0
    } else {
        printable_count(s.drop_last()) + if printable(s.last()) {
            1nat
        } else {
            0nat
        }
    }
}

/// The part of `data` that is looked at for text: at most 512 bytes.
pub open spec fn text_sample(data: Seq<u8>) -> Seq<u8> {
    if data.len() < 512 {
        data
    } else {
        data.take(512)
    }
}

/// More than 85 percent of the sample are printable, rounded down.
pub open spec fn looks_like_text(data: Seq<u8>) -> bool {
    printable_count(text_sample(data)) * 100 / text_sample(data).len() > 85
}

/// The content type that the first bytes of a file show, if they do.
pub open spec fn magic_type(data: Seq<u8>) -> Option<ContentType> {
    if data.len() < 4 {
        None
    } else if is_numeric_magic(data) {
        Some(ContentType::NumericData)
    } else if is_program_magic(data) {
        Some(ContentType::Executable)
    } else if is_image_magic(data) {
        Some(ContentType::Image)
    } else if starts(data, seq![0x25u8, 0x50, 0x44, 0x46]) {
        Some(ContentType::BinaryStructured)
    } else if is_packed_magic(data) {
        Some(ContentType::BinaryRandom)
    } else if is_mach_magic(data) {
        Some(ContentType::Executable)
    } else if looks_like_text(data) {
        Some(ContentType::Text)
    } else {
        None
    }
}

fn is_text(data: &[u8]) -> (r: bool)
    requires
        data@.len() > 0,
    ensures
        r == looks_like_text(data@),
{
    let sample_len: usize = if data.len() < 512 {
        data.len()
    } else {
        512
    };
    let mut count: usize = 0;
    let mut i: usize = 0;
    while i < sample_len
        invariant
            i <= sample_len <= data@.len(),
            sample_len <= 512,
            count <= i,
            count == printable_count(data@.take(i as int)),
        decreases sample_len - i,
    {
        let b: u8 = data[i];
        if b == 10 || b == 13 || b == 9 || (b >= 0x20 && b <= 0x7E) {
            count = count + 1;
        }
        assert(data@.take(i + 1).drop_last() =~= data@.take(i as int));
        i = i + 1;
    }
    assert(data@.take(sample_len as int) =~= text_sample(data@));
    count * 100 / sample_len > 85
}

fn has_safetensors_header(data: &[u8]) -> (r: bool)
    ensures
        r == is_safetensors(data@),
{
    if data.len() < 9 {
        return false;
    }
    proof {
        lemma_pow256_values();
        assert(data@.subrange(0, 8) =~= data@.take(8));
    }
    let meta_len: u64 = read_le(data, 0, 8);
    meta_len > 0 && meta_len < 100_000_000 && data[8] == 0x7B
}

fn detect_from_magic(data: &[u8]) -> (r: Option<ContentType>)
    ensures
        r == magic_type(data@),
{
    if data.len() < 4 {
        return None;
    }
    if starts_with(data, &[0x93u8, 0x4E, 0x55, 0x4D, 0x50, 0x59]) || has_safetensors_header(data)
        || starts_with(data, &[0x47u8, 0x47, 0x55, 0x46]) {
        return Some(ContentType::NumericData);
    }
    if starts_with(data, &[0x7Fu8, 0x45, 0x4C, 0x46]) || starts_with(data, &[0x4Du8, 0x5A]) {
        return Some(ContentType::Executable);
    }
    if starts_with(data, &[0xFFu8, 0xD8, 0xFF]) || starts_with(data, &[0x89u8, 0x50, 0x4E, 0x47])
        || starts_with(data, &[0x47u8, 0x49, 0x46, 0x38]) || has_webp_header(data) {
        return Some(ContentType::Image);
    }
    if starts_with(data, &[0x25u8, 0x50, 0x44, 0x46]) {
        return Some(ContentType::BinaryStructured);
    }
    if starts_with(data, &[0x50u8, 0x4B, 0x03, 0x04]) || starts_with(data, &[0x1Fu8, 0x8B])
        || starts_with(data, &[0x28u8, 0xB5, 0x2F, 0xFD]) || starts_with(
        data,
        &[0xFDu8, 0x37, 0x7A, 0x58, 0x5A, 0x00],
    ) {
        return Some(ContentType::BinaryRandom);
    }
    if starts_with(data, &[0xCFu8, 0xFA, 0xED, 0xFE]) || starts_with(
        data,
        &[0xFEu8, 0xED, 0xFA, 0xCF],
    ) {
        return Some(ContentType::Executable);
    }
    if is_text(data) {
        return Some(ContentType::Text);
    }
    None
}

fn has_webp_header(data: &[u8]) -> (r: bool)
    ensures
        r == is_webp(data@),
{
    if data.len() < 12 {
        return false;
    }
    let name = slice_subrange(data, 8, data.len());
    assert(name@ =~= data@.skip(8));
    starts_with(data, &[0x52u8, 0x49, 0x46, 0x46]) && starts_with(name, &[0x57u8, 0x45, 0x42, 0x50])
}

/// The lower-case form of a text by the rules of Unicode.
pub uninterp spec fn unicode_lower(s: Seq<char>) -> Seq<char>;

/// All characters are ASCII.
pub open spec fn is_ascii_text(s: Seq<char>) -> bool {
    forall|i: int| 0 <= i < s.len() ==> #[trigger] s[i] < '\u{80}'
}

/// The lower-case form of `s` by `str::to_lowercase`. Of ASCII text that is the text with
/// its letters A to Z replaced by a to z.
#[verifier::external_body]
fn to_lower(s: &str) -> (r: String)
    ensures
        r@ == unicode_lower(s@),
        is_ascii_text(s@) ==> r@ == lower_text(s@),
{
    s.to_lowercase()
}

/// Numeric and tensor data.
pub open spec fn is_numeric_extension(ext: Seq<char>) -> bool {
    ||| ext == "npy"@
    ||| ext == "npz"@
    ||| ext == "safetensors"@
    ||| ext == "gguf"@
    ||| ext == "ggml"@
    ||| ext == "bin"@
    ||| ext == "weight"@
    ||| ext == "weights"@
    ||| ext == "pt"@
    ||| ext == "pth"@
    ||| ext == "ot"@
    ||| ext == "tflite"@
    ||| ext == "pb"@
    ||| ext == "onnx"@
}

/// Text, code and markup.
pub open spec fn is_text_extension(ext: Seq<char>) -> bool {
    ||| ext == "txt"@
    ||| ext == "md"@
    ||| ext == "rst"@
    ||| ext == "csv"@
    ||| ext == "tsv"@
    ||| ext == "log"@
    ||| ext == "rs"@
    ||| ext == "py"@
    ||| ext == "js"@
    ||| ext == "ts"@
    ||| ext == "c"@
    ||| ext == "cpp"@
    ||| ext == "h"@
    ||| ext == "hpp"@
    ||| ext == "java"@
    ||| ext == "go"@
    ||| ext == "rb"@
    ||| ext == "php"@
    ||| ext == "swift"@
    ||| ext == "kt"@
    ||| ext == "scala"@
    ||| ext == "zig"@
    ||| ext == "nim"@
    ||| ext == "lua"@
    ||| ext == "sh"@
    ||| ext == "bash"@
    ||| ext == "zsh"@
    ||| ext == "fish"@
    ||| ext == "ps1"@
    ||| ext == "bat"@
    ||| ext == "cmd"@
    ||| ext == "json"@
    ||| ext == "yaml"@
    ||| ext == "yml"@
    ||| ext == "toml"@
    ||| ext == "xml"@
    ||| ext == "html"@
    ||| ext == "htm"@
    ||| ext == "css"@
    ||| ext == "scss"@
    ||| ext == "less"@
    ||| ext == "sql"@
    ||| ext == "graphql"@
    ||| ext == "proto"@
    ||| ext == "ini"@
    ||| ext == "cfg"@
    ||| ext == "conf"@
}

/// Images.
pub open spec fn is_image_extension(ext: Seq<char>) -> bool {
    ||| ext == "jpg"@
    ||| ext == "jpeg"@
    ||| ext == "png"@
    ||| ext == "gif"@
    ||| ext == "bmp"@
    ||| ext == "tiff"@
    ||| ext == "tif"@
    ||| ext == "webp"@
    ||| ext == "ico"@
    ||| ext == "svg"@
    ||| ext == "avif"@
    ||| ext == "heic"@
    ||| ext == "heif"@
}

/// Compressed or encrypted archives and media.
pub open spec fn is_packed_extension(ext: Seq<char>) -> bool {
    ||| ext == "zip"@
    ||| ext == "gz"@
    ||| ext == "bz2"@
    ||| ext == "xz"@
    ||| ext == "zst"@
    ||| ext == "lz4"@
    ||| ext == "br"@
    ||| ext == "7z"@
    ||| ext == "rar"@
    ||| ext == "tar"@
    ||| ext == "aet"@
    ||| ext == "mp3"@
    ||| ext == "mp4"@
    ||| ext == "aac"@
    ||| ext == "ogg"@
    ||| ext == "flac"@
    ||| ext == "wav"@
    ||| ext == "avi"@
    ||| ext == "mkv"@
    ||| ext == "webm"@
    ||| ext == "mov"@
    ||| ext == "m4a"@
    ||| ext == "m4v"@
}

/// Programs and libraries.
pub open spec fn is_program_extension(ext: Seq<char>) -> bool {
    ||| ext == "exe"@
    ||| ext == "dll"@
    ||| ext == "so"@
    ||| ext == "dylib"@
    ||| ext == "o"@
    ||| ext == "a"@
    ||| ext == "lib"@
    ||| ext == "elf"@
    ||| ext == "wasm"@
}

/// Structured binary documents and databases.
pub open spec fn is_structured_extension(ext: Seq<char>) -> bool {
    ||| ext == "pdf"@
    ||| ext == "doc"@
    ||| ext == "docx"@
    ||| ext == "xls"@
    ||| ext == "xlsx"@
    ||| ext == "ppt"@
    ||| ext == "pptx"@
    ||| ext == "odt"@
    ||| ext == "ods"@
    ||| ext == "db"@
    ||| ext == "sqlite"@
    ||| ext == "sqlite3"@
}

fn has_numeric_extension(ext: &str) -> (r: bool)
    ensures
        r == is_numeric_extension(ext@),
{
    same_text(ext, "npy")
        || same_text(ext, "npz")
        || same_text(ext, "safetensors")
        || same_text(ext, "gguf")
        || same_text(ext, "ggml")
        || same_text(ext, "bin")
        || same_text(ext, "weight")
        || same_text(ext, "weights")
        || same_text(ext, "pt")
        || same_text(ext, "pth")
        || same_text(ext, "ot")
        || same_text(ext, "tflite")
        || same_text(ext, "pb")
        || same_text(ext, "onnx")
}

fn has_text_extension(ext: &str) -> (r: bool)
    ensures
        r == is_text_extension(ext@),
{
    same_text(ext, "txt")
        || same_text(ext, "md")
        || same_text(ext, "rst")
        || same_text(ext, "csv")
        || same_text(ext, "tsv")
        || same_text(ext, "log")
        || same_text(ext, "rs")
        || same_text(ext, "py")
        || same_text(ext, "js")
        || same_text(ext, "ts")
        || same_text(ext, "c")
        || same_text(ext, "cpp")
        || same_text(ext, "h")
        || same_text(ext, "hpp")
        || same_text(ext, "java")
        || same_text(ext, "go")
        || same_text(ext, "rb")
        || same_text(ext, "php")
        || same_text(ext, "swift")
        || same_text(ext, "kt")
        || same_text(ext, "scala")
        || same_text(ext, "zig")
        || same_text(ext, "nim")
        || same_text(ext, "lua")
        || same_text(ext, "sh")
        || same_text(ext, "bash")
        || same_text(ext, "zsh")
        || same_text(ext, "fish")
        || same_text(ext, "ps1")
        || same_text(ext, "bat")
        || same_text(ext, "cmd")
        || same_text(ext, "json")
        || same_text(ext, "yaml")
        || same_text(ext, "yml")
        || same_text(ext, "toml")
        || same_text(ext, "xml")
        || same_text(ext, "html")
        || same_text(ext, "htm")
        || same_text(ext, "css")
        || same_text(ext, "scss")
        || same_text(ext, "less")
        || same_text(ext, "sql")
        || same_text(ext, "graphql")
        || same_text(ext, "proto")
        || same_text(ext, "ini")
        || same_text(ext, "cfg")
        || same_text(ext, "conf")
}

fn has_image_extension(ext: &str) -> (r: bool)
    ensures
        r == is_image_extension(ext@),
{
    same_text(ext, "jpg")
        || same_text(ext, "jpeg")
        || same_text(ext, "png")
        || same_text(ext, "gif")
        || same_text(ext, "bmp")
        || same_text(ext, "tiff")
        || same_text(ext, "tif")
        || same_text(ext, "webp")
        || same_text(ext, "ico")
        || same_text(ext, "svg")
        || same_text(ext, "avif")
        || same_text(ext, "heic")
        || same_text(ext, "heif")
}

fn has_packed_extension(ext: &str) -> (r: bool)
    ensures
        r == is_packed_extension(ext@),
{
    same_text(ext, "zip")
        || same_text(ext, "gz")
        || same_text(ext, "bz2")
        || same_text(ext, "xz")
        || same_text(ext, "zst")
        || same_text(ext, "lz4")
        || same_text(ext, "br")
        || same_text(ext, "7z")
        || same_text(ext, "rar")
        || same_text(ext, "tar")
        || same_text(ext, "aet")
        || same_text(ext, "mp3")
        || same_text(ext, "mp4")
        || same_text(ext, "aac")
        || same_text(ext, "ogg")
        || same_text(ext, "flac")
        || same_text(ext, "wav")
        || same_text(ext, "avi")
        || same_text(ext, "mkv")
        || same_text(ext, "webm")
        || same_text(ext, "mov")
        || same_text(ext, "m4a")
        || same_text(ext, "m4v")
}

fn has_program_extension(ext: &str) -> (r: bool)
    ensures
        r == is_program_extension(ext@),
{
    same_text(ext, "exe")
        || same_text(ext, "dll")
        || same_text(ext, "so")
        || same_text(ext, "dylib")
        || same_text(ext, "o")
        || same_text(ext, "a")
        || same_text(ext, "lib")
        || same_text(ext, "elf")
        || same_text(ext, "wasm")
}

fn has_structured_extension(ext: &str) -> (r: bool)
    ensures
        r == is_structured_extension(ext@),
{
    same_text(ext, "pdf")
        || same_text(ext, "doc")
        || same_text(ext, "docx")
        || same_text(ext, "xls")
        || same_text(ext, "xlsx")
        || same_text(ext, "ppt")
        || same_text(ext, "pptx")
        || same_text(ext, "odt")
        || same_text(ext, "ods")
        || same_text(ext, "db")
        || same_text(ext, "sqlite")
        || same_text(ext, "sqlite3")
}

/// The content type that files with the lower-case extension `ext` have.
pub open spec fn extension_type(ext: Seq<char>) -> ContentType {
    if is_numeric_extension(ext) {
        ContentType::NumericData
    } else if is_text_extension(ext) {
        ContentType::Text
    } else if is_image_extension(ext) {
        ContentType::Image
    } else if is_packed_extension(ext) {
        ContentType::BinaryRandom
    } else if is_program_extension(ext) {
        ContentType::Executable
    } else if is_structured_extension(ext) {
        ContentType::BinaryStructured
    } else {
        ContentType::Mixed
    }
}

/// The content type that files with the lower-case extension `ext` have.
pub fn content_type_of_extension(ext: &str) -> (t: ContentType)
    ensures
        t == extension_type(ext@),
{
    if has_numeric_extension(ext) {
        ContentType::NumericData
    } else if has_text_extension(ext) {
        ContentType::Text
    } else if has_image_extension(ext) {
        ContentType::Image
    } else if has_packed_extension(ext) {
        ContentType::BinaryRandom
    } else if has_program_extension(ext) {
        ContentType::Executable
    } else if has_structured_extension(ext) {
        ContentType::BinaryStructured
    } else {
        ContentType::Mixed
    }
}

fn detect_from_extension(path: &str) -> (t: ContentType)
    ensures
        t == extension_type(after_last_dot(unicode_lower(path@))),
        is_ascii_text(path@) ==> unicode_lower(path@) == lower_text(path@),
{
    let lower = to_lower(path);
    content_type_of_extension(extension_of(lower.as_str()))
}

/// Detects the content type of a file: from its first bytes where they show it, else from
/// the extension of its path in lower case.
pub fn detect_content_type(path: &str, first_bytes: &[u8]) -> (t: ContentType)
    ensures
        match magic_type(first_bytes@) {
            Some(m) => t == m,
            None => {
                &&& t == extension_type(after_last_dot(unicode_lower(path@)))
                &&& is_ascii_text(path@) ==> t == extension_type(after_last_dot(lower_text(path@)))
            },
        },
{
    if let Some(t) = detect_from_magic(first_bytes) {
        return t;
    }
    detect_from_extension(path)
}

// Routing.

/// An entropy above a threshold. What is not a number is above none.
pub open spec fn above(entropy: i64, threshold: i64) -> bool {
    threshold < entropy <= INFINITE_ENTROPY
}

/// The method that an entropy calls for.
pub open spec fn method_for_entropy(entropy: i64) -> RecommendedMethod {
    if above(entropy, INCOMPRESSIBLE_THRESHOLD) {
        RecommendedMethod::Store
    } else if above(entropy, HIGH_ENTROPY_THRESHOLD) {
        RecommendedMethod::Zstd
    } else {
        RecommendedMethod::PredictorRans
    }
}

/// The method that an entropy and a content type call for: content that is compressed
/// already does not go to the predictor.
pub open spec fn method_for(entropy: i64, content_type: ContentType) -> RecommendedMethod {
    match content_type {
        ContentType::BinaryRandom => if above(entropy, INCOMPRESSIBLE_THRESHOLD) {
            RecommendedMethod::Store
        } else {
            RecommendedMethod::Zstd
        },
        ContentType::Image => if above(entropy, HIGH_ENTROPY_THRESHOLD) {
            RecommendedMethod::Store
        } else {
            RecommendedMethod::Zstd
        },
        _ => method_for_entropy(entropy),
    }
}

fn is_above(entropy: i64, threshold: i64) -> (r: bool)
    ensures
        r == above(entropy, threshold),
{
    entropy > threshold && entropy <= INFINITE_ENTROPY
}

/// Decides the best compression method based on entropy.
pub fn recommend_method(entropy: i64) -> (m: RecommendedMethod)
    ensures
        m == method_for_entropy(entropy),
{
    if is_above(entropy, INCOMPRESSIBLE_THRESHOLD) {
        RecommendedMethod::Store
    } else if is_above(entropy, HIGH_ENTROPY_THRESHOLD) {
        RecommendedMethod::Zstd
    } else {
        RecommendedMethod::PredictorRans
    }
}

/// Decides the best compression method, also considering content type.
pub fn recommend_method_for(entropy: i64, content_type: ContentType) -> (m: RecommendedMethod)
    ensures
        m == method_for(entropy, content_type),
{
    match content_type {
        ContentType::BinaryRandom => if is_above(entropy, INCOMPRESSIBLE_THRESHOLD) {
            RecommendedMethod::Store
        } else {
            RecommendedMethod::Zstd
        },
        ContentType::Image => if is_above(entropy, HIGH_ENTROPY_THRESHOLD) {
            RecommendedMethod::Store
        } else {
            RecommendedMethod::Zstd
        },
        _ => recommend_method(entropy),
    }
}

/// Content that is compressed already never goes to the predictor, whatever its entropy.
pub proof fn packed_content_skips_predictor(entropy: i64, content_type: ContentType)
    requires
        content_type is BinaryRandom || content_type is Image,
    ensures
        method_for(entropy, content_type) != RecommendedMethod::PredictorRans,
{
}

/// For content that is neither an image nor compressed already, the entropy alone decides:
/// the predictor up to 7.5 bits per byte, zstd above that up to 7.95, and stored above that.
/// So nothing with an entropy of at most 7.5 is stored raw.
pub proof fn entropy_alone_routes(entropy: i64, content_type: ContentType)
    requires
        content_type != ContentType::Image,
        content_type != ContentType::BinaryRandom,
    ensures
        method_for(entropy, content_type) == RecommendedMethod::PredictorRans <==> (entropy
            <= 0x401E_0000_0000_0000 || entropy > 0x7FF0_0000_0000_0000),
        method_for(entropy, content_type) == RecommendedMethod::Zstd <==> 0x401E_0000_0000_0000
            < entropy <= 0x401F_CCCC_CCCC_CCCD,
        method_for(entropy, content_type) == RecommendedMethod::Store <==> 0x401F_CCCC_CCCC_CCCD
            < entropy <= 0x7FF0_0000_0000_0000,
        method_for(entropy, content_type) == method_for_entropy(entropy),
{
}

/// Content that is compressed already is stored only where zstd has nothing to win: an image
/// above 7.5 bits per byte, anything else above 7.95.
pub proof fn packed_content_is_stored_above_its_limit(entropy: i64)
    ensures
        method_for(entropy, ContentType::Image) == RecommendedMethod::Store <==> 0x401E_0000_0000_0000
            < entropy <= 0x7FF0_0000_0000_0000,
        method_for(entropy, ContentType::BinaryRandom) == RecommendedMethod::Store
            <==> 0x401F_CCCC_CCCC_CCCD < entropy <= 0x7FF0_0000_0000_0000,
        method_for(entropy, ContentType::Image) != RecommendedMethod::PredictorRans,
        method_for(entropy, ContentType::BinaryRandom) != RecommendedMethod::PredictorRans,
{
}

/// How much a method expects of the data: the predictor most, storing nothing.
pub open spec fn effort(method: RecommendedMethod) -> int {
    match method {
        RecommendedMethod::PredictorRans => 2,
        RecommendedMethod::Zstd => 1,
        RecommendedMethod::Store => 0,
    }
}

/// The more entropy, the less is expected of the data, for every content type.
pub proof fn effort_falls_with_entropy(a: i64, b: i64, content_type: ContentType)
    requires
        a <= b <= 0x7FF0_0000_0000_0000,
    ensures
        effort(method_for(b, content_type)) <= effort(method_for(a, content_type)),
        effort(method_for_entropy(b)) <= effort(method_for_entropy(a)),
{
}

/// What [`recommend_method_for`] and [`recommend_method`] give: up to 7.5 bits per byte the
/// predictor, above 7.95 storing, zstd in between, for all content but images and what is
/// compressed already.
pub proof fn recommendations_follow_the_entropy(
    entropy: i64,
    content_type: ContentType,
    m: RecommendedMethod,
    plain: RecommendedMethod,
)
    requires
        call_ensures(recommend_method_for, (entropy, content_type), m),
        call_ensures(recommend_method, (entropy,), plain),
        entropy <= 0x7FF0_0000_0000_0000,
    ensures
        plain == if entropy <= 0x401E_0000_0000_0000 {
            RecommendedMethod::PredictorRans
        } else if entropy <= 0x401F_CCCC_CCCC_CCCD {
            RecommendedMethod::Zstd
        } else {
            RecommendedMethod::Store
        },
        content_type != ContentType::Image && content_type != ContentType::BinaryRandom ==> m
            == plain,
        content_type == ContentType::Image || content_type == ContentType::BinaryRandom ==> m
            != RecommendedMethod::PredictorRans && (m == RecommendedMethod::Store <==> entropy > if
        content_type == ContentType::Image {
            0x401E_0000_0000_0000i64
        } else {
            0x401F_CCCC_CCCC_CCCDi64
        }),
{
}

// What is detected.

proof fn lemma_starts(data: Seq<u8>, prefix: Seq<u8>)
    ensures
        starts(data, prefix) <==> data.len() >= prefix.len() && forall|i: int|
            0 <= i < prefix.len() ==> #[trigger] data[i] == prefix[i],
{
    if data.len() >= prefix.len() {
        let head = data.take(prefix.len() as int);
        if head == prefix {
            assert forall|i: int| 0 <= i < prefix.len() implies #[trigger] data[i] == prefix[i] by {
                assert(head[i] == data[i]);
            }
        }
        if forall|i: int| 0 <= i < prefix.len() ==> #[trigger] data[i] == prefix[i] {
            assert(head =~= prefix);
        }
    }
}

proof fn lemma_two(data: Seq<u8>, a: u8, b: u8)
    ensures
        starts(data, seq![a, b]) <==> data.len() >= 2 && data[0] == a && data[1] == b,
{
    lemma_starts(data, seq![a, b]);
}

proof fn lemma_four(data: Seq<u8>, a: u8, b: u8, c: u8, d: u8)
    ensures
        starts(data, seq![a, b, c, d]) <==> data.len() >= 4 && data[0] == a && data[1] == b
            && data[2] == c && data[3] == d,
{
    lemma_starts(data, seq![a, b, c, d]);
}

/// What [`detect_content_type`] knows by the first bytes, whatever the path: arrays and
/// tensors, programs, images, documents, and archives, by the signatures of their formats.
/// A brace in ninth place may be that of metadata behind its length.
pub proof fn signatures_are_known(path: &str, data: &[u8], t: ContentType)
    requires
        call_ensures(detect_content_type, (path, data), t),
        data@.len() >= 12,
        data@[8] != 0x7B,
    ensures
        ({
            let s = data@;
            let head = 16_777_216 * s[0] + 65_536 * s[1] + 256 * s[2] + s[3];
            &&& head == 0x934E_554D && s[4] == 0x50 && s[5] == 0x59 ==> t == ContentType::NumericData
            &&& head == 0x4747_5546 ==> t == ContentType::NumericData
            &&& head == 0x7F45_4C46 || s[0] == 0x4D && s[1] == 0x5A ==> t == ContentType::Executable
            &&& head == 0xCFFA_EDFE || head == 0xFEED_FACF ==> t == ContentType::Executable
            &&& s[0] == 0xFF && s[1] == 0xD8 && s[2] == 0xFF ==> t == ContentType::Image
            &&& head == 0x8950_4E47 || head == 0x4749_4638 ==> t == ContentType::Image
            &&& head == 0x5249_4646 && s[8] == 0x57 && s[9] == 0x45 && s[10] == 0x42 && s[11] == 0x50
                ==> t == ContentType::Image
            &&& head == 0x2550_4446 ==> t == ContentType::BinaryStructured
            &&& head == 0x504B_0304 || s[0] == 0x1F && s[1] == 0x8B || head == 0x28B5_2FFD ==> t
                == ContentType::BinaryRandom
            &&& head == 0xFD37_7A58 && s[4] == 0x5A && s[5] == 0 ==> t == ContentType::BinaryRandom
        }),
{
    let s = data@;
    lemma_starts(s, seq![0x93u8, 0x4E, 0x55, 0x4D, 0x50, 0x59]);
    lemma_four(s, 0x47, 0x47, 0x55, 0x46);
    lemma_four(s, 0x7F, 0x45, 0x4C, 0x46);
    lemma_two(s, 0x4D, 0x5A);
    lemma_starts(s, seq![0xFFu8, 0xD8, 0xFF]);
    lemma_four(s, 0x89, 0x50, 0x4E, 0x47);
    lemma_four(s, 0x47, 0x49, 0x46, 0x38);
    lemma_four(s, 0x52, 0x49, 0x46, 0x46);
    lemma_four(s.skip(8), 0x57, 0x45, 0x42, 0x50);
    lemma_four(s, 0x25, 0x50, 0x44, 0x46);
    lemma_four(s, 0x50, 0x4B, 0x03, 0x04);
    lemma_two(s, 0x1F, 0x8B);
    lemma_four(s, 0x28, 0xB5, 0x2F, 0xFD);
    lemma_starts(s, seq![0xFDu8, 0x37, 0x7A, 0x58, 0x5A, 0x00]);
    lemma_four(s, 0xCF, 0xFA, 0xED, 0xFE);
    lemma_four(s, 0xFE, 0xED, 0xFA, 0xCF);
    let npy = seq![0x93u8, 0x4E, 0x55, 0x4D, 0x50, 0x59];
    let xz = seq![0xFDu8, 0x37, 0x7A, 0x58, 0x5A, 0x00];
    let jpeg = seq![0xFFu8, 0xD8, 0xFF];
    assert(npy[0] == 0x93 && npy[1] == 0x4E && npy[2] == 0x55 && npy[3] == 0x4D && npy[4] == 0x50
        && npy[5] == 0x59);
    assert(xz[0] == 0xFD && xz[1] == 0x37 && xz[2] == 0x7A && xz[3] == 0x58 && xz[4] == 0x5A && xz[5]
        == 0);
    assert(jpeg[0] == 0xFF && jpeg[1] == 0xD8 && jpeg[2] == 0xFF);
}

/// Tensor files with their metadata in front are known by it: a length below 100,000,000 in
/// eight bytes, and a brace.
pub proof fn metadata_is_known(path: &str, data: &[u8], t: ContentType)
    requires
        call_ensures(detect_content_type, (path, data), t),
        data@.len() >= 9,
        data@[8] == 0x7B,
        0 < le_value(data@.take(8)) < 100_000_000,
    ensures
        t == ContentType::NumericData,
{
}

proof fn lemma_printable_all(s: Seq<u8>)
    requires
        forall|i: int| 0 <= i < s.len() ==> printable(#[trigger] s[i]),
    ensures
        printable_count(s) == s.len(),
    decreases s.len(),
{
    if s.len() > 0 {
        assert(printable(s[s.len() - 1]));
        lemma_printable_all(s.drop_last());
    }
}

proof fn lemma_printable_none(s: Seq<u8>)
    requires
        forall|i: int| 0 <= i < s.len() ==> !printable(#[trigger] s[i]),
    ensures
        printable_count(s) == 0,
    decreases s.len(),
{
    if s.len() > 0 {
        assert(!printable(s[s.len() - 1]));
        lemma_printable_none(s.drop_last());
    }
}

/// Plain text is known as text, whatever its path: nothing but printable characters and line
/// ends in the first 512 bytes, unless it starts as a signature does that is printable too.
/// Data with nothing printable there is never taken for text by its bytes.
pub proof fn plain_text_is_known(path: &str, data: &[u8], t: ContentType)
    requires
        call_ensures(detect_content_type, (path, data), t),
        data@.len() >= 4,
    ensures
        data@[0] != 0x25 && data@[0] != 0x47 && data@[0] != 0x4D && data@[0] != 0x52 && (forall|
            i: int,
        |
            0 <= i < data@.len() && i < 512 ==> 0x20 <= #[trigger] data@[i] <= 0x7E || data@[i] == 9
                || data@[i] == 10 || data@[i] == 13) ==> t == ContentType::Text,
        (forall|i: int|
            0 <= i < data@.len() && i < 512 ==> #[trigger] data@[i] > 0x7E) ==> magic_type(data@)
            != Some(ContentType::Text),
{
    let s = data@;
    let sample = text_sample(s);
    assert forall|i: int| 0 <= i < sample.len() implies sample[i] == s[i] by {}
    if s[0] != 0x25 && s[0] != 0x47 && s[0] != 0x4D && s[0] != 0x52 && (forall|i: int|
        0 <= i < s.len() && i < 512 ==> 0x20 <= #[trigger] s[i] <= 0x7E || s[i] == 9 || s[i] == 10
            || s[i] == 13) {
        assert forall|i: int| 0 <= i < sample.len() implies printable(#[trigger] sample[i]) by {
            assert(sample[i] == s[i]);
        }
        lemma_printable_all(sample);
        assert(sample.len() * 100 / sample.len() == 100) by (nonlinear_arith)
            requires
                sample.len() > 0,
        ;
        lemma_starts(s, seq![0x93u8, 0x4E, 0x55, 0x4D, 0x50, 0x59]);
        assert(seq![0x93u8, 0x4E, 0x55, 0x4D, 0x50, 0x59][0] == 0x93);
        lemma_four(s, 0x47, 0x47, 0x55, 0x46);
        lemma_four(s, 0x7F, 0x45, 0x4C, 0x46);
        lemma_two(s, 0x4D, 0x5A);
        lemma_starts(s, seq![0xFFu8, 0xD8, 0xFF]);
        assert(seq![0xFFu8, 0xD8, 0xFF][0] == 0xFF);
        lemma_four(s, 0x89, 0x50, 0x4E, 0x47);
        lemma_four(s, 0x47, 0x49, 0x46, 0x38);
        lemma_four(s, 0x52, 0x49, 0x46, 0x46);
        lemma_four(s, 0x25, 0x50, 0x44, 0x46);
        lemma_four(s, 0x50, 0x4B, 0x03, 0x04);
        lemma_two(s, 0x1F, 0x8B);
        lemma_four(s, 0x28, 0xB5, 0x2F, 0xFD);
        lemma_starts(s, seq![0xFDu8, 0x37, 0x7A, 0x58, 0x5A, 0x00]);
        assert(seq![0xFDu8, 0x37, 0x7A, 0x58, 0x5A, 0x00][0] == 0xFD);
        lemma_four(s, 0xCF, 0xFA, 0xED, 0xFE);
        lemma_four(s, 0xFE, 0xED, 0xFA, 0xCF);
        assert(printable(s[0]) && printable(s[1]) && printable(s[2]) && printable(s[3]));
        if s.len() >= 9 {
            lowest_byte_comes_first(s.take(8));
            assert(s[7] >= 9);
            assert(s.take(8)[7] == s[7]);
        }
        assert(s[0] != 0x7F && s[0] != 0x93 && s[0] != 0xFF && s[0] != 0x89 && s[0] != 0x1F && s[0]
            != 0xFD && s[0] != 0xCF && s[0] != 0xFE);
        assert(s[2] != 0x03);
    }
    if forall|i: int| 0 <= i < s.len() && i < 512 ==> #[trigger] s[i] > 0x7E {
        assert forall|i: int| 0 <= i < sample.len() implies !printable(#[trigger] sample[i]) by {
            assert(sample[i] == s[i]);
        }
        lemma_printable_none(sample);
    }
}

/// Where the first bytes show nothing, the extension decides, in letters of either case: what
/// stands behind the last dot.
pub proof fn extensions_decide(
    path: &str,
    data: &[u8],
    t: ContentType,
    stem: Seq<char>,
    ext: Seq<char>,
)
    requires
        call_ensures(detect_content_type, (path, data), t),
        data@.len() < 4,
        is_ascii_text(path@),
        path@ == stem + seq!['.'] + ext,
        !ext.contains('.'),
    ensures
        t == extension_type(lower_text(ext)),
{
    let low = lower_text(ext);
    if low.contains('.') {
        let k = low.index_of('.');
        assert(ext[k] == '.');
    }
    assert(lower_text(path@) =~= lower_text(stem) + seq!['.'] + low);
    extensions_follow_the_last_dot(lower_text(stem), low);
}

proof fn lemma_numeric_spellings()
    ensures
        "npy"@.len() == 3 && "npy"@[0] == 'n' && "npy"@[1] == 'p' && "npy"@[2] == 'y',
        "npz"@.len() == 3 && "npz"@[0] == 'n' && "npz"@[1] == 'p' && "npz"@[2] == 'z',
        "safetensors"@.len() == 11 && "safetensors"@[0] == 's' && "safetensors"@[1] == 'a'
            && "safetensors"@[2] == 'f' && "safetensors"@[3] == 'e' && "safetensors"@[4] == 't'
            && "safetensors"@[5] == 'e' && "safetensors"@[6] == 'n' && "safetensors"@[7] == 's'
            && "safetensors"@[8] == 'o' && "safetensors"@[9] == 'r'
            && "safetensors"@[10] == 's',
        "gguf"@.len() == 4 && "gguf"@[0] == 'g' && "gguf"@[1] == 'g' && "gguf"@[2] == 'u'
            && "gguf"@[3] == 'f',
        "ggml"@.len() == 4 && "ggml"@[0] == 'g' && "ggml"@[1] == 'g' && "ggml"@[2] == 'm'
            && "ggml"@[3] == 'l',
        "bin"@.len() == 3 && "bin"@[0] == 'b' && "bin"@[1] == 'i' && "bin"@[2] == 'n',
        "weight"@.len() == 6 && "weight"@[0] == 'w' && "weight"@[1] == 'e'
            && "weight"@[2] == 'i' && "weight"@[3] == 'g' && "weight"@[4] == 'h'
            && "weight"@[5] == 't',
        "weights"@.len() == 7 && "weights"@[0] == 'w' && "weights"@[1] == 'e'
            && "weights"@[2] == 'i' && "weights"@[3] == 'g' && "weights"@[4] == 'h'
            && "weights"@[5] == 't' && "weights"@[6] == 's',
        "pt"@.len() == 2 && "pt"@[0] == 'p' && "pt"@[1] == 't',
        "pth"@.len() == 3 && "pth"@[0] == 'p' && "pth"@[1] == 't' && "pth"@[2] == 'h',
        "ot"@.len() == 2 && "ot"@[0] == 'o' && "ot"@[1] == 't',
        "tflite"@.len() == 6 && "tflite"@[0] == 't' && "tflite"@[1] == 'f'
            && "tflite"@[2] == 'l' && "tflite"@[3] == 'i' && "tflite"@[4] == 't'
            && "tflite"@[5] == 'e',
        "pb"@.len() == 2 && "pb"@[0] == 'p' && "pb"@[1] == 'b',
        "onnx"@.len() == 4 && "onnx"@[0] == 'o' && "onnx"@[1] == 'n' && "onnx"@[2] == 'n'
            && "onnx"@[3] == 'x',
{
    reveal_strlit("npy");
    reveal_strlit("npz");
    reveal_strlit("safetensors");
    reveal_strlit("gguf");
    reveal_strlit("ggml");
    reveal_strlit("bin");
    reveal_strlit("weight");
    reveal_strlit("weights");
    reveal_strlit("pt");
    reveal_strlit("pth");
    reveal_strlit("ot");
    reveal_strlit("tflite");
    reveal_strlit("pb");
    reveal_strlit("onnx");
}

proof fn lemma_text_spellings()
    ensures
        "txt"@.len() == 3 && "txt"@[0] == 't' && "txt"@[1] == 'x' && "txt"@[2] == 't',
        "md"@.len() == 2 && "md"@[0] == 'm' && "md"@[1] == 'd',
        "rst"@.len() == 3 && "rst"@[0] == 'r' && "rst"@[1] == 's' && "rst"@[2] == 't',
        "csv"@.len() == 3 && "csv"@[0] == 'c' && "csv"@[1] == 's' && "csv"@[2] == 'v',
        "tsv"@.len() == 3 && "tsv"@[0] == 't' && "tsv"@[1] == 's' && "tsv"@[2] == 'v',
        "log"@.len() == 3 && "log"@[0] == 'l' && "log"@[1] == 'o' && "log"@[2] == 'g',
        "rs"@.len() == 2 && "rs"@[0] == 'r' && "rs"@[1] == 's',
        "py"@.len() == 2 && "py"@[0] == 'p' && "py"@[1] == 'y',
        "js"@.len() == 2 && "js"@[0] == 'j' && "js"@[1] == 's',
        "ts"@.len() == 2 && "ts"@[0] == 't' && "ts"@[1] == 's',
        "c"@.len() == 1 && "c"@[0] == 'c',
        "cpp"@.len() == 3 && "cpp"@[0] == 'c' && "cpp"@[1] == 'p' && "cpp"@[2] == 'p',
        "h"@.len() == 1 && "h"@[0] == 'h',
        "hpp"@.len() == 3 && "hpp"@[0] == 'h' && "hpp"@[1] == 'p' && "hpp"@[2] == 'p',
        "java"@.len() == 4 && "java"@[0] == 'j' && "java"@[1] == 'a' && "java"@[2] == 'v'
            && "java"@[3] == 'a',
        "go"@.len() == 2 && "go"@[0] == 'g' && "go"@[1] == 'o',
        "rb"@.len() == 2 && "rb"@[0] == 'r' && "rb"@[1] == 'b',
        "php"@.len() == 3 && "php"@[0] == 'p' && "php"@[1] == 'h' && "php"@[2] == 'p',
        "swift"@.len() == 5 && "swift"@[0] == 's' && "swift"@[1] == 'w' && "swift"@[2] == 'i'
            && "swift"@[3] == 'f' && "swift"@[4] == 't',
        "kt"@.len() == 2 && "kt"@[0] == 'k' && "kt"@[1] == 't',
        "scala"@.len() == 5 && "scala"@[0] == 's' && "scala"@[1] == 'c' && "scala"@[2] == 'a'
            && "scala"@[3] == 'l' && "scala"@[4] == 'a',
        "zig"@.len() == 3 && "zig"@[0] == 'z' && "zig"@[1] == 'i' && "zig"@[2] == 'g',
        "nim"@.len() == 3 && "nim"@[0] == 'n' && "nim"@[1] == 'i' && "nim"@[2] == 'm',
        "lua"@.len() == 3 && "lua"@[0] == 'l' && "lua"@[1] == 'u' && "lua"@[2] == 'a',
        "sh"@.len() == 2 && "sh"@[0] == 's' && "sh"@[1] == 'h',
        "bash"@.len() == 4 && "bash"@[0] == 'b' && "bash"@[1] == 'a' && "bash"@[2] == 's'
            && "bash"@[3] == 'h',
        "zsh"@.len() == 3 && "zsh"@[0] == 'z' && "zsh"@[1] == 's' && "zsh"@[2] == 'h',
        "fish"@.len() == 4 && "fish"@[0] == 'f' && "fish"@[1] == 'i' && "fish"@[2] == 's'
            && "fish"@[3] == 'h',
        "ps1"@.len() == 3 && "ps1"@[0] == 'p' && "ps1"@[1] == 's' && "ps1"@[2] == '1',
        "bat"@.len() == 3 && "bat"@[0] == 'b' && "bat"@[1] == 'a' && "bat"@[2] == 't',
        "cmd"@.len() == 3 && "cmd"@[0] == 'c' && "cmd"@[1] == 'm' && "cmd"@[2] == 'd',
        "json"@.len() == 4 && "json"@[0] == 'j' && "json"@[1] == 's' && "json"@[2] == 'o'
            && "json"@[3] == 'n',
        "yaml"@.len() == 4 && "yaml"@[0] == 'y' && "yaml"@[1] == 'a' && "yaml"@[2] == 'm'
            && "yaml"@[3] == 'l',
        "yml"@.len() == 3 && "yml"@[0] == 'y' && "yml"@[1] == 'm' && "yml"@[2] == 'l',
        "toml"@.len() == 4 && "toml"@[0] == 't' && "toml"@[1] == 'o' && "toml"@[2] == 'm'
            && "toml"@[3] == 'l',
        "xml"@.len() == 3 && "xml"@[0] == 'x' && "xml"@[1] == 'm' && "xml"@[2] == 'l',
        "html"@.len() == 4 && "html"@[0] == 'h' && "html"@[1] == 't' && "html"@[2] == 'm'
            && "html"@[3] == 'l',
        "htm"@.len() == 3 && "htm"@[0] == 'h' && "htm"@[1] == 't' && "htm"@[2] == 'm',
        "css"@.len() == 3 && "css"@[0] == 'c' && "css"@[1] == 's' && "css"@[2] == 's',
        "scss"@.len() == 4 && "scss"@[0] == 's' && "scss"@[1] == 'c' && "scss"@[2] == 's'
            && "scss"@[3] == 's',
        "less"@.len() == 4 && "less"@[0] == 'l' && "less"@[1] == 'e' && "less"@[2] == 's'
            && "less"@[3] == 's',
        "sql"@.len() == 3 && "sql"@[0] == 's' && "sql"@[1] == 'q' && "sql"@[2] == 'l',
        "graphql"@.len() == 7 && "graphql"@[0] == 'g' && "graphql"@[1] == 'r'
            && "graphql"@[2] == 'a' && "graphql"@[3] == 'p' && "graphql"@[4] == 'h'
            && "graphql"@[5] == 'q' && "graphql"@[6] == 'l',
        "proto"@.len() == 5 && "proto"@[0] == 'p' && "proto"@[1] == 'r' && "proto"@[2] == 'o'
            && "proto"@[3] == 't' && "proto"@[4] == 'o',
        "ini"@.len() == 3 && "ini"@[0] == 'i' && "ini"@[1] == 'n' && "ini"@[2] == 'i',
        "cfg"@.len() == 3 && "cfg"@[0] == 'c' && "cfg"@[1] == 'f' && "cfg"@[2] == 'g',
        "conf"@.len() == 4 && "conf"@[0] == 'c' && "conf"@[1] == 'o' && "conf"@[2] == 'n'
            && "conf"@[3] == 'f',
{
    reveal_strlit("txt");
    reveal_strlit("md");
    reveal_strlit("rst");
    reveal_strlit("csv");
    reveal_strlit("tsv");
    reveal_strlit("log");
    reveal_strlit("rs");
    reveal_strlit("py");
    reveal_strlit("js");
    reveal_strlit("ts");
    reveal_strlit("c");
    reveal_strlit("cpp");
    reveal_strlit("h");
    reveal_strlit("hpp");
    reveal_strlit("java");
    reveal_strlit("go");
    reveal_strlit("rb");
    reveal_strlit("php");
    reveal_strlit("swift");
    reveal_strlit("kt");
    reveal_strlit("scala");
    reveal_strlit("zig");
    reveal_strlit("nim");
    reveal_strlit("lua");
    reveal_strlit("sh");
    reveal_strlit("bash");
    reveal_strlit("zsh");
    reveal_strlit("fish");
    reveal_strlit("ps1");
    reveal_strlit("bat");
    reveal_strlit("cmd");
    reveal_strlit("json");
    reveal_strlit("yaml");
    reveal_strlit("yml");
    reveal_strlit("toml");
    reveal_strlit("xml");
    reveal_strlit("html");
    reveal_strlit("htm");
    reveal_strlit("css");
    reveal_strlit("scss");
    reveal_strlit("less");
    reveal_strlit("sql");
    reveal_strlit("graphql");
    reveal_strlit("proto");
    reveal_strlit("ini");
    reveal_strlit("cfg");
    reveal_strlit("conf");
}

proof fn lemma_image_spellings()
    ensures
        "jpg"@.len() == 3 && "jpg"@[0] == 'j' && "jpg"@[1] == 'p' && "jpg"@[2] == 'g',
        "jpeg"@.len() == 4 && "jpeg"@[0] == 'j' && "jpeg"@[1] == 'p' && "jpeg"@[2] == 'e'
            && "jpeg"@[3] == 'g',
        "png"@.len() == 3 && "png"@[0] == 'p' && "png"@[1] == 'n' && "png"@[2] == 'g',
        "gif"@.len() == 3 && "gif"@[0] == 'g' && "gif"@[1] == 'i' && "gif"@[2] == 'f',
        "bmp"@.len() == 3 && "bmp"@[0] == 'b' && "bmp"@[1] == 'm' && "bmp"@[2] == 'p',
        "tiff"@.len() == 4 && "tiff"@[0] == 't' && "tiff"@[1] == 'i' && "tiff"@[2] == 'f'
            && "tiff"@[3] == 'f',
        "tif"@.len() == 3 && "tif"@[0] == 't' && "tif"@[1] == 'i' && "tif"@[2] == 'f',
        "webp"@.len() == 4 && "webp"@[0] == 'w' && "webp"@[1] == 'e' && "webp"@[2] == 'b'
            && "webp"@[3] == 'p',
        "ico"@.len() == 3 && "ico"@[0] == 'i' && "ico"@[1] == 'c' && "ico"@[2] == 'o',
        "svg"@.len() == 3 && "svg"@[0] == 's' && "svg"@[1] == 'v' && "svg"@[2] == 'g',
        "avif"@.len() == 4 && "avif"@[0] == 'a' && "avif"@[1] == 'v' && "avif"@[2] == 'i'
            && "avif"@[3] == 'f',
        "heic"@.len() == 4 && "heic"@[0] == 'h' && "heic"@[1] == 'e' && "heic"@[2] == 'i'
            && "heic"@[3] == 'c',
        "heif"@.len() == 4 && "heif"@[0] == 'h' && "heif"@[1] == 'e' && "heif"@[2] == 'i'
            && "heif"@[3] == 'f',
{
    reveal_strlit("jpg");
    reveal_strlit("jpeg");
    reveal_strlit("png");
    reveal_strlit("gif");
    reveal_strlit("bmp");
    reveal_strlit("tiff");
    reveal_strlit("tif");
    reveal_strlit("webp");
    reveal_strlit("ico");
    reveal_strlit("svg");
    reveal_strlit("avif");
    reveal_strlit("heic");
    reveal_strlit("heif");
}

proof fn lemma_packed_spellings()
    ensures
        "zip"@.len() == 3 && "zip"@[0] == 'z' && "zip"@[1] == 'i' && "zip"@[2] == 'p',
        "gz"@.len() == 2 && "gz"@[0] == 'g' && "gz"@[1] == 'z',
        "bz2"@.len() == 3 && "bz2"@[0] == 'b' && "bz2"@[1] == 'z' && "bz2"@[2] == '2',
        "xz"@.len() == 2 && "xz"@[0] == 'x' && "xz"@[1] == 'z',
        "zst"@.len() == 3 && "zst"@[0] == 'z' && "zst"@[1] == 's' && "zst"@[2] == 't',
        "lz4"@.len() == 3 && "lz4"@[0] == 'l' && "lz4"@[1] == 'z' && "lz4"@[2] == '4',
        "br"@.len() == 2 && "br"@[0] == 'b' && "br"@[1] == 'r',
        "7z"@.len() == 2 && "7z"@[0] == '7' && "7z"@[1] == 'z',
        "rar"@.len() == 3 && "rar"@[0] == 'r' && "rar"@[1] == 'a' && "rar"@[2] == 'r',
        "tar"@.len() == 3 && "tar"@[0] == 't' && "tar"@[1] == 'a' && "tar"@[2] == 'r',
        "aet"@.len() == 3 && "aet"@[0] == 'a' && "aet"@[1] == 'e' && "aet"@[2] == 't',
        "mp3"@.len() == 3 && "mp3"@[0] == 'm' && "mp3"@[1] == 'p' && "mp3"@[2] == '3',
        "mp4"@.len() == 3 && "mp4"@[0] == 'm' && "mp4"@[1] == 'p' && "mp4"@[2] == '4',
        "aac"@.len() == 3 && "aac"@[0] == 'a' && "aac"@[1] == 'a' && "aac"@[2] == 'c',
        "ogg"@.len() == 3 && "ogg"@[0] == 'o' && "ogg"@[1] == 'g' && "ogg"@[2] == 'g',
        "flac"@.len() == 4 && "flac"@[0] == 'f' && "flac"@[1] == 'l' && "flac"@[2] == 'a'
            && "flac"@[3] == 'c',
        "wav"@.len() == 3 && "wav"@[0] == 'w' && "wav"@[1] == 'a' && "wav"@[2] == 'v',
        "avi"@.len() == 3 && "avi"@[0] == 'a' && "avi"@[1] == 'v' && "avi"@[2] == 'i',
        "mkv"@.len() == 3 && "mkv"@[0] == 'm' && "mkv"@[1] == 'k' && "mkv"@[2] == 'v',
        "webm"@.len() == 4 && "webm"@[0] == 'w' && "webm"@[1] == 'e' && "webm"@[2] == 'b'
            && "webm"@[3] == 'm',
        "mov"@.len() == 3 && "mov"@[0] == 'm' && "mov"@[1] == 'o' && "mov"@[2] == 'v',
        "m4a"@.len() == 3 && "m4a"@[0] == 'm' && "m4a"@[1] == '4' && "m4a"@[2] == 'a',
        "m4v"@.len() == 3 && "m4v"@[0] == 'm' && "m4v"@[1] == '4' && "m4v"@[2] == 'v',
{
    reveal_strlit("zip");
    reveal_strlit("gz");
    reveal_strlit("bz2");
    reveal_strlit("xz");
    reveal_strlit("zst");
    reveal_strlit("lz4");
    reveal_strlit("br");
    reveal_strlit("7z");
    reveal_strlit("rar");
    reveal_strlit("tar");
    reveal_strlit("aet");
    reveal_strlit("mp3");
    reveal_strlit("mp4");
    reveal_strlit("aac");
    reveal_strlit("ogg");
    reveal_strlit("flac");
    reveal_strlit("wav");
    reveal_strlit("avi");
    reveal_strlit("mkv");
    reveal_strlit("webm");
    reveal_strlit("mov");
    reveal_strlit("m4a");
    reveal_strlit("m4v");
}

proof fn lemma_program_spellings()
    ensures
        "exe"@.len() == 3 && "exe"@[0] == 'e' && "exe"@[1] == 'x' && "exe"@[2] == 'e',
        "dll"@.len() == 3 && "dll"@[0] == 'd' && "dll"@[1] == 'l' && "dll"@[2] == 'l',
        "so"@.len() == 2 && "so"@[0] == 's' && "so"@[1] == 'o',
        "dylib"@.len() == 5 && "dylib"@[0] == 'd' && "dylib"@[1] == 'y' && "dylib"@[2] == 'l'
            && "dylib"@[3] == 'i' && "dylib"@[4] == 'b',
        "o"@.len() == 1 && "o"@[0] == 'o',
        "a"@.len() == 1 && "a"@[0] == 'a',
        "lib"@.len() == 3 && "lib"@[0] == 'l' && "lib"@[1] == 'i' && "lib"@[2] == 'b',
        "elf"@.len() == 3 && "elf"@[0] == 'e' && "elf"@[1] == 'l' && "elf"@[2] == 'f',
        "wasm"@.len() == 4 && "wasm"@[0] == 'w' && "wasm"@[1] == 'a' && "wasm"@[2] == 's'
            && "wasm"@[3] == 'm',
{
    reveal_strlit("exe");
    reveal_strlit("dll");
    reveal_strlit("so");
    reveal_strlit("dylib");
    reveal_strlit("o");
    reveal_strlit("a");
    reveal_strlit("lib");
    reveal_strlit("elf");
    reveal_strlit("wasm");
}

proof fn lemma_structured_spellings()
    ensures
        "pdf"@.len() == 3 && "pdf"@[0] == 'p' && "pdf"@[1] == 'd' && "pdf"@[2] == 'f',
        "doc"@.len() == 3 && "doc"@[0] == 'd' && "doc"@[1] == 'o' && "doc"@[2] == 'c',
        "docx"@.len() == 4 && "docx"@[0] == 'd' && "docx"@[1] == 'o' && "docx"@[2] == 'c'
            && "docx"@[3] == 'x',
        "xls"@.len() == 3 && "xls"@[0] == 'x' && "xls"@[1] == 'l' && "xls"@[2] == 's',
        "xlsx"@.len() == 4 && "xlsx"@[0] == 'x' && "xlsx"@[1] == 'l' && "xlsx"@[2] == 's'
            && "xlsx"@[3] == 'x',
        "ppt"@.len() == 3 && "ppt"@[0] == 'p' && "ppt"@[1] == 'p' && "ppt"@[2] == 't',
        "pptx"@.len() == 4 && "pptx"@[0] == 'p' && "pptx"@[1] == 'p' && "pptx"@[2] == 't'
            && "pptx"@[3] == 'x',
        "odt"@.len() == 3 && "odt"@[0] == 'o' && "odt"@[1] == 'd' && "odt"@[2] == 't',
        "ods"@.len() == 3 && "ods"@[0] == 'o' && "ods"@[1] == 'd' && "ods"@[2] == 's',
        "db"@.len() == 2 && "db"@[0] == 'd' && "db"@[1] == 'b',
        "sqlite"@.len() == 6 && "sqlite"@[0] == 's' && "sqlite"@[1] == 'q'
            && "sqlite"@[2] == 'l' && "sqlite"@[3] == 'i' && "sqlite"@[4] == 't'
            && "sqlite"@[5] == 'e',
        "sqlite3"@.len() == 7 && "sqlite3"@[0] == 's' && "sqlite3"@[1] == 'q'
            && "sqlite3"@[2] == 'l' && "sqlite3"@[3] == 'i' && "sqlite3"@[4] == 't'
            && "sqlite3"@[5] == 'e' && "sqlite3"@[6] == '3',
{
    reveal_strlit("pdf");
    reveal_strlit("doc");
    reveal_strlit("docx");
    reveal_strlit("xls");
    reveal_strlit("xlsx");
    reveal_strlit("ppt");
    reveal_strlit("pptx");
    reveal_strlit("odt");
    reveal_strlit("ods");
    reveal_strlit("db");
    reveal_strlit("sqlite");
    reveal_strlit("sqlite3");
}

/// Files known by their extension as numeric and tensor data.
#[verifier::rlimit(60)]
pub proof fn numbers_are_known_by_name(ext: Seq<char>)
    requires
        ext == "npy"@ || ext == "npz"@ || ext == "safetensors"@ || ext == "gguf"@ ||
            ext == "ggml"@ || ext == "bin"@ || ext == "weight"@ || ext == "weights"@ ||
            ext == "pt"@ || ext == "pth"@ || ext == "ot"@ || ext == "tflite"@ ||
            ext == "pb"@ || ext == "onnx"@,
    ensures
        extension_type(ext) == ContentType::NumericData,
{
    lemma_numeric_spellings();
}

/// Files known by their extension as text, code and markup.
#[verifier::rlimit(60)]
pub proof fn text_is_known_by_name(ext: Seq<char>)
    requires
        ext == "txt"@ || ext == "md"@ || ext == "rst"@ || ext == "csv"@ || ext == "tsv"@ ||
            ext == "log"@ || ext == "rs"@ || ext == "py"@ || ext == "js"@ || ext == "ts"@ ||
            ext == "c"@ || ext == "cpp"@ || ext == "h"@ || ext == "hpp"@ || ext == "java"@ ||
            ext == "go"@ || ext == "rb"@ || ext == "php"@ || ext == "swift"@ || ext == "kt"@ ||
            ext == "scala"@ || ext == "zig"@ || ext == "nim"@ || ext == "lua"@ ||
            ext == "sh"@ || ext == "bash"@ || ext == "zsh"@ || ext == "fish"@ ||
            ext == "ps1"@ || ext == "bat"@ || ext == "cmd"@ || ext == "json"@ ||
            ext == "yaml"@ || ext == "yml"@ || ext == "toml"@ || ext == "xml"@ ||
            ext == "html"@ || ext == "htm"@ || ext == "css"@ || ext == "scss"@ ||
            ext == "less"@ || ext == "sql"@ || ext == "graphql"@ || ext == "proto"@ ||
            ext == "ini"@ || ext == "cfg"@ || ext == "conf"@,
    ensures
        extension_type(ext) == ContentType::Text,
{
    lemma_numeric_spellings();
    lemma_text_spellings();
}

/// Files known by their extension as images.
#[verifier::rlimit(60)]
pub proof fn images_are_known_by_name(ext: Seq<char>)
    requires
        ext == "jpg"@ || ext == "jpeg"@ || ext == "png"@ || ext == "gif"@ || ext == "bmp"@ ||
            ext == "tiff"@ || ext == "tif"@ || ext == "webp"@ || ext == "ico"@ ||
            ext == "svg"@ || ext == "avif"@ || ext == "heic"@ || ext == "heif"@,
    ensures
        extension_type(ext) == ContentType::Image,
{
    lemma_numeric_spellings();
    lemma_text_spellings();
    lemma_image_spellings();
}

/// Files known by their extension as compressed or encrypted archives and media.
#[verifier::rlimit(60)]
pub proof fn packed_files_are_known_by_name(ext: Seq<char>)
    requires
        ext == "zip"@ || ext == "gz"@ || ext == "bz2"@ || ext == "xz"@ || ext == "zst"@ ||
            ext == "lz4"@ || ext == "br"@ || ext == "7z"@ || ext == "rar"@ || ext == "tar"@ ||
            ext == "aet"@ || ext == "mp3"@ || ext == "mp4"@ || ext == "aac"@ ||
            ext == "ogg"@ || ext == "flac"@ || ext == "wav"@ || ext == "avi"@ ||
            ext == "mkv"@ || ext == "webm"@ || ext == "mov"@ || ext == "m4a"@ || ext == "m4v"@,
    ensures
        extension_type(ext) == ContentType::BinaryRandom,
{
    lemma_numeric_spellings();
    lemma_text_spellings();
    lemma_image_spellings();
    lemma_packed_spellings();
}

/// Files known by their extension as programs and libraries.
#[verifier::rlimit(60)]
pub proof fn programs_are_known_by_name(ext: Seq<char>)
    requires
        ext == "exe"@ || ext == "dll"@ || ext == "so"@ || ext == "dylib"@ || ext == "o"@ ||
            ext == "a"@ || ext == "lib"@ || ext == "elf"@ || ext == "wasm"@,
    ensures
        extension_type(ext) == ContentType::Executable,
{
    lemma_numeric_spellings();
    lemma_text_spellings();
    lemma_image_spellings();
    lemma_packed_spellings();
    lemma_program_spellings();
}

/// Files known by their extension as structured documents and databases.
#[verifier::rlimit(60)]
pub proof fn documents_are_known_by_name(ext: Seq<char>)
    requires
        ext == "pdf"@ || ext == "doc"@ || ext == "docx"@ || ext == "xls"@ || ext == "xlsx"@ ||
            ext == "ppt"@ || ext == "pptx"@ || ext == "odt"@ || ext == "ods"@ ||
            ext == "db"@ || ext == "sqlite"@ || ext == "sqlite3"@,
    ensures
        extension_type(ext) == ContentType::BinaryStructured,
{
    lemma_numeric_spellings();
    lemma_text_spellings();
    lemma_image_spellings();
    lemma_packed_spellings();
    lemma_program_spellings();
    lemma_structured_spellings();
}

} // verus!

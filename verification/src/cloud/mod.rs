//! Rules for cloud object names, and reading of remote objects by ranges.

pub mod azure;
pub mod gcs;
pub mod s3;

use crate::error::{AetherError, ErrorModel, IoErrorKind, Result};
use crate::strings::{
    chars_of, contains_text, find_from, find_text, has_char, has_text, is_digit, is_lower,
    lower_chars, lower_text, same_text,
};
use vstd::prelude::*;
use vstd::string::*;
use vstd::utf8::encode_utf8;

verus! {

/// How many bytes are fetched ahead (256 KiB).
pub const DEFAULT_BUFFER_SIZE: u64 = 262_144;

/// The most bytes fetched at once (16 MiB).
pub const MAX_FETCH_SIZE: u64 = 16_777_216;

/// A percent-encoded `..`, in lower-case text.
pub open spec fn encoded_traversal(lower: Seq<char>) -> bool {
    contains_text(lower, "%2e%2e"@) || contains_text(lower, "%2e."@) || contains_text(
        lower,
        ".%2e"@,
    )
}

/// A percent-encoded path separator, in lower-case text.
pub open spec fn encoded_separator(lower: Seq<char>) -> bool {
    contains_text(lower, "%2f"@) || contains_text(lower, "%5c"@)
}

/// A percent-encoded overlong form of `.` or `/`, in lower-case text.
pub open spec fn overlong_encoding(lower: Seq<char>) -> bool {
    contains_text(lower, "%c0%ae"@) || contains_text(lower, "%c0%af"@)
}

/// A fullwidth character that may be normalized to a dot or a separator.
pub open spec fn has_fullwidth(s: Seq<char>) -> bool {
    s.contains('\u{FF0E}') || s.contains('\u{FF0F}') || s.contains('\u{FF3C}')
}

/// Why `path` is refused as a cloud path, if it is.
pub open spec fn cloud_path_fault(path: Seq<char>) -> Option<Seq<char>> {
    let lower = lower_text(path);
    if path.len() == 0 {
        Some("path must not be empty"@)
    } else if path.contains('\0') {
        Some("path must not contain null bytes"@)
    } else if path.contains('\n') || path.contains('\r') {
        Some("path must not contain newline characters"@)
    } else if path.contains('\\') {
        Some("path must not contain backslashes"@)
    } else if contains_text(path, ".."@) {
        Some("path must not contain '..' traversal sequences"@)
    } else if encoded_traversal(lower) {
        Some("path must not contain encoded traversal sequences"@)
    } else if contains_text(lower, "%252e"@) {
        Some("path must not contain double-encoded traversal sequences"@)
    } else if contains_text(lower, "%25"@) {
        Some("path must not contain multiply-encoded sequences"@)
    } else if encoded_separator(lower) {
        Some("path must not contain encoded path separators"@)
    } else if contains_text(lower, "%00"@) {
        Some("path must not contain encoded null bytes"@)
    } else if overlong_encoding(lower) {
        Some("path must not contain overlong UTF-8 encoded sequences"@)
    } else if has_fullwidth(path) {
        Some(
            "path must not contain Unicode fullwidth characters that could be normalized to path separators or dots"@,
        )
    } else if path[0] == '/' {
        Some("path must not start with '/'"@)
    } else {
        None
    }
}

/// A path without a fault cannot lead out of its place: it is relative, has no two dots in
/// a row, no separators but `/`, and nothing that ends it early.
pub proof fn faultless_paths_are_safe(path: Seq<char>)
    requires
        cloud_path_fault(path) is None,
    ensures
        path.len() > 0,
        path[0] != '/',
        forall|i: int| 0 <= i < path.len() - 1 ==> !(#[trigger] path[i] == '.' && path[i + 1] == '.'),
        forall|i: int|
            0 <= i < path.len() ==> #[trigger] path[i] != '\\' && path[i] != '\0' && path[i] != '\n',
{
    reveal_strlit("..");
    assert forall|i: int| 0 <= i < path.len() - 1 implies !(#[trigger] path[i] == '.' && path[i + 1]
        == '.') by {
        if path[i] == '.' && path[i + 1] == '.' {
            assert(path.subrange(i, i + 2) =~= ".."@);
            assert(crate::strings::holds_text(path, ".."@, i));
        }
    }
    assert forall|i: int| 0 <= i < path.len() implies #[trigger] path[i] != '\\' && path[i] != '\0'
        && path[i] != '\n' by {
        assert(path.contains(path[i]));
    }
}

fn has_encoded_traversal(lower: &[char]) -> (r: bool)
    ensures
        r == encoded_traversal(lower@),
{
    has_text(lower, "%2e%2e") || has_text(lower, "%2e.") || has_text(lower, ".%2e")
}

fn has_encoded_separator(lower: &[char]) -> (r: bool)
    ensures
        r == encoded_separator(lower@),
{
    has_text(lower, "%2f") || has_text(lower, "%5c")
}

fn has_overlong_encoding(lower: &[char]) -> (r: bool)
    ensures
        r == overlong_encoding(lower@),
{
    has_text(lower, "%c0%ae") || has_text(lower, "%c0%af")
}

fn has_fullwidth_char(s: &[char]) -> (r: bool)
    ensures
        r == has_fullwidth(s@),
{
    has_char(s, '\u{FF0E}') || has_char(s, '\u{FF0F}') || has_char(s, '\u{FF3C}')
}

/// The text of the fault of a path, if it has one.
fn path_fault(path: &str) -> (r: Option<&'static str>)
    ensures
        match r {
            Some(text) => cloud_path_fault(path@) == Some(text@),
            None => cloud_path_fault(path@) is None,
        },
{
    let chars = chars_of(path);
    let path_chars = chars.as_slice();
    if chars.len() == 0 {
        return Some("path must not be empty");
    }
    if has_char(path_chars, '\0') {
        return Some("path must not contain null bytes");
    }
    if has_char(path_chars, '\n') || has_char(path_chars, '\r') {
        return Some("path must not contain newline characters");
    }
    if has_char(path_chars, '\\') {
        return Some("path must not contain backslashes");
    }
    if has_text(path_chars, "..") {
        return Some("path must not contain '..' traversal sequences");
    }
    let lowered = lower_chars(path_chars);
    let lower = lowered.as_slice();
    if has_encoded_traversal(lower) {
        return Some("path must not contain encoded traversal sequences");
    }
    if has_text(lower, "%252e") {
        return Some("path must not contain double-encoded traversal sequences");
    }
    if has_text(lower, "%25") {
        return Some("path must not contain multiply-encoded sequences");
    }
    if has_encoded_separator(lower) {
        return Some("path must not contain encoded path separators");
    }
    if has_text(lower, "%00") {
        return Some("path must not contain encoded null bytes");
    }
    if has_overlong_encoding(lower) {
        return Some("path must not contain overlong UTF-8 encoded sequences");
    }
    if has_fullwidth_char(path_chars) {
        return Some(
            "path must not contain Unicode fullwidth characters that could be normalized to path separators or dots",
        );
    }
    if chars[0] == '/' {
        return Some("path must not start with '/'");
    }
    None
}

/// Refuses cloud paths with traversal sequences, null bytes or characters that could be
/// used for header injection, in plain or encoded form.
pub fn validate_cloud_path(path: &str) -> (r: Result<()>)
    ensures
        match r {
            Ok(()) => cloud_path_fault(path@) is None,
            Err(e) => cloud_path_fault(path@) matches Some(text) && e@
                == ErrorModel::InvalidCloudPath(text),
        },
{
    match path_fault(path) {
        Some(text) => Err(AetherError::InvalidCloudPath(text.to_string())),
        None => Ok(()),
    }
}

/// A validated cloud storage path: one that [`validate_cloud_path`] accepts.
#[derive(Debug, PartialEq, Eq)]
pub struct ValidatedPath(String);

impl Clone for ValidatedPath {
    fn clone(&self) -> (r: ValidatedPath)
        ensures
            r@ == self@,
    {
        proof {
            use_type_invariant(self);
        }
        ValidatedPath(self.0.clone())
    }
}

impl View for ValidatedPath {
    type V = Seq<char>;

    closed spec fn view(&self) -> Seq<char> {
        self.0@
    }
}

impl ValidatedPath {
    #[verifier::type_invariant]
    spec fn valid(&self) -> bool {
        cloud_path_fault(self.0@) is None
    }

    /// Validates `path`.
    pub fn new(path: String) -> (r: Result<ValidatedPath>)
        ensures
            match r {
                Ok(p) => cloud_path_fault(path@) is None && p@ == path@,
                Err(e) => cloud_path_fault(path@) matches Some(text) && e@
                    == ErrorModel::InvalidCloudPath(text),
            },
    {
        match validate_cloud_path(path.as_str()) {
            Ok(()) => Ok(ValidatedPath(path)),
            Err(e) => Err(e),
        }
    }

    /// The path, which is valid.
    pub fn as_str(&self) -> (s: &str)
        ensures
            s@ == self@,
            cloud_path_fault(s@) is None,
    {
        proof {
            use_type_invariant(self);
        }
        self.0.as_str()
    }
}

/// A character of a bucket name.
pub open spec fn bucket_char(c: char) -> bool {
    is_lower(c) || is_digit(c) || c == '-' || c == '.' || c == '_'
}

/// What a cloud URL is parsed into: scheme, bucket and key, or why it is refused.
pub open spec fn cloud_url_outcome(url: Seq<char>) -> std::result::Result<
    (Seq<char>, Seq<char>, Seq<char>),
    Seq<char>,
> {
    if url.contains('\0') {
        Err("URL must not contain null bytes"@)
    } else if url.contains('\n') || url.contains('\r') {
        Err("URL must not contain newline characters"@)
    } else {
        match find_from(url, "://"@, 0) {
            None => Err("missing '://' separator"@),
            Some(i) => {
                let scheme = url.take(i);
                let rest = url.skip(i + 3);
                match find_from(rest, "/"@, 0) {
                    None => Err("missing key after bucket"@),
                    Some(j) => match cloud_url_fault(url, scheme, rest.take(j), rest.skip(j + 1)) {
                        Some(text) => Err(text),
                        None => Ok((scheme, rest.take(j), rest.skip(j + 1))),
                    },
                }
            },
        }
    }
}

/// Why a URL with the given parts is refused, if it is.
pub open spec fn cloud_url_fault(
    url: Seq<char>,
    scheme: Seq<char>,
    bucket: Seq<char>,
    key: Seq<char>,
) -> Option<Seq<char>> {
    let lower = lower_text(url);
    if bucket.len() == 0 {
        Some("bucket name must not be empty"@)
    } else if key.len() == 0 {
        Some("object key must not be empty"@)
    } else if contains_text(key, ".."@) {
        Some("URL key must not contain '..' traversal sequences"@)
    } else if !(3 <= encode_utf8(bucket).len() as usize <= 63) {
        Some("bucket name must be 3-63 characters"@)
    } else if !(forall|i: int| 0 <= i < bucket.len() ==> bucket_char(#[trigger] bucket[i])) {
        Some(
            "bucket name must contain only lowercase letters, digits, hyphens, dots, and underscores"@,
        )
    } else if encoded_traversal(lower) {
        Some("URL contains encoded traversal sequence"@)
    } else if contains_text(lower, "%252e"@) {
        Some("URL contains double-encoded traversal sequence"@)
    } else if encoded_separator(lower) {
        Some("URL contains encoded path separator"@)
    } else if contains_text(lower, "%00"@) {
        Some("URL contains encoded null byte"@)
    } else if contains_text(lower, "%25"@) {
        Some("URL contains multiply-encoded sequences"@)
    } else if key.contains('\\') {
        Some("URL key must not contain backslashes"@)
    } else if overlong_encoding(lower) {
        Some("URL contains overlong UTF-8 encoded sequences"@)
    } else if has_fullwidth(url) {
        Some("URL contains Unicode fullwidth characters that could be normalized"@)
    } else if scheme == "s3"@ || scheme == "gs"@ || scheme == "az"@ {
        None
    } else {
        Some("unsupported scheme '"@ + scheme + "'"@)
    }
}

/// Tells whether all characters may stand in a bucket name.
fn all_bucket_chars(bucket: &[char]) -> (r: bool)
    ensures
        r == (forall|i: int| 0 <= i < bucket@.len() ==> bucket_char(#[trigger] bucket@[i])),
{
    let mut i: usize = 0;
    while i < bucket.len()
        invariant
            i <= bucket@.len(),
            forall|x: int| 0 <= x < i ==> bucket_char(#[trigger] bucket@[x]),
        decreases bucket@.len() - i,
    {
        let c: char = bucket[i];
        let fine = ('a' <= c && c <= 'z') || ('0' <= c && c <= '9') || c == '-' || c == '.' || c
            == '_';
        if !fine {
            assert(!bucket_char(bucket@[i as int]));
            return false;
        }
        i = i + 1;
    }
    true
}

/// The text of the fault of a URL with the given parts, if it has one.
fn url_fault(url: &[char], scheme: &str, bucket: &str, key: &str) -> (r: Option<String>)
    ensures
        match r {
            Some(text) => cloud_url_fault(url@, scheme@, bucket@, key@) == Some(text@),
            None => cloud_url_fault(url@, scheme@, bucket@, key@) is None,
        },
{
    let bucket_text = chars_of(bucket);
    let key_text = chars_of(key);
    if bucket_text.len() == 0 {
        return Some("bucket name must not be empty".to_string());
    }
    if key_text.len() == 0 {
        return Some("object key must not be empty".to_string());
    }
    if has_text(key_text.as_slice(), "..") {
        return Some("URL key must not contain '..' traversal sequences".to_string());
    }
    if bucket.len() < 3 || bucket.len() > 63 {
        return Some("bucket name must be 3-63 characters".to_string());
    }
    if !all_bucket_chars(bucket_text.as_slice()) {
        return Some(
            "bucket name must contain only lowercase letters, digits, hyphens, dots, and underscores".to_string(),
        );
    }
    let lowered = lower_chars(url);
    let lower = lowered.as_slice();
    if has_encoded_traversal(lower) {
        return Some("URL contains encoded traversal sequence".to_string());
    }
    if has_text(lower, "%252e") {
        return Some("URL contains double-encoded traversal sequence".to_string());
    }
    if has_encoded_separator(lower) {
        return Some("URL contains encoded path separator".to_string());
    }
    if has_text(lower, "%00") {
        return Some("URL contains encoded null byte".to_string());
    }
    if has_text(lower, "%25") {
        return Some("URL contains multiply-encoded sequences".to_string());
    }
    if has_char(key_text.as_slice(), '\\') {
        return Some("URL key must not contain backslashes".to_string());
    }
    if has_overlong_encoding(lower) {
        return Some("URL contains overlong UTF-8 encoded sequences".to_string());
    }
    if has_fullwidth_char(url) {
        return Some("URL contains Unicode fullwidth characters that could be normalized".to_string());
    }
    if same_text(scheme, "s3") || same_text(scheme, "gs") || same_text(scheme, "az") {
        None
    } else {
        let mut text = String::from_str("unsupported scheme '");
        text.append(scheme);
        text.append("'");
        Some(text)
    }
}

/// Parses a cloud URL into scheme, bucket and key.
///
/// The schemes are `s3`, `gs` and `az`; the key is what follows the first `/` after the
/// bucket.
pub fn parse_cloud_url(url: &str) -> (r: Result<(&str, &str, &str)>)
    ensures
        match r {
            Ok((scheme, bucket, key)) => cloud_url_outcome(url@) == Ok::<
                (Seq<char>, Seq<char>, Seq<char>),
                Seq<char>,
            >((scheme@, bucket@, key@)),
            Err(e) => cloud_url_outcome(url@) matches Err(text) && e@
                == ErrorModel::InvalidCloudUrl(text),
        },
{
    let chars = chars_of(url);
    let n: usize = chars.len();
    if has_char(chars.as_slice(), '\0') {
        return Err(AetherError::InvalidCloudUrl("URL must not contain null bytes".to_string()));
    }
    if has_char(chars.as_slice(), '\n') || has_char(chars.as_slice(), '\r') {
        return Err(
            AetherError::InvalidCloudUrl("URL must not contain newline characters".to_string()),
        );
    }
    proof {
        reveal_strlit("://");
        reveal_strlit("/");
    }
    let i: usize = match find_text(chars.as_slice(), "://") {
        Some(i) => i,
        None => {
            return Err(AetherError::InvalidCloudUrl("missing '://' separator".to_string()));
        },
    };
    let scheme = url.substring_char(0, i);
    let rest = url.substring_char(i + 3, n);
    let rest_chars = chars_of(rest);
    assert(scheme@ =~= url@.take(i as int));
    assert(rest@ =~= url@.skip(i + 3));
    let j: usize = match find_text(rest_chars.as_slice(), "/") {
        Some(j) => j,
        None => {
            return Err(AetherError::InvalidCloudUrl("missing key after bucket".to_string()));
        },
    };
    let bucket = rest.substring_char(0, j);
    let key = rest.substring_char(j + 1, rest_chars.len());
    assert(bucket@ =~= rest@.take(j as int));
    assert(key@ =~= rest@.skip(j + 1));
    match url_fault(chars.as_slice(), scheme, bucket, key) {
        Some(text) => Err(AetherError::InvalidCloudUrl(text)),
        None => Ok((scheme, bucket, key)),
    }
}

proof fn lemma_contains_part(whole: Seq<char>, from: int, to: int, needle: Seq<char>)
    requires
        0 <= from <= to <= whole.len(),
        contains_text(whole.subrange(from, to), needle),
    ensures
        contains_text(whole, needle),
{
    let part = whole.subrange(from, to);
    let i = choose|i: int| crate::strings::holds_text(part, needle, i);
    assert(whole.subrange(from + i, from + i + needle.len()) =~= part.subrange(
        i,
        i + needle.len(),
    ));
    assert(crate::strings::holds_text(whole, needle, from + i));
}

/// The parts of an accepted URL make up the URL again, and its key, unless it starts
/// with `/`, is a valid cloud path.
pub proof fn parsed_url_parts(url: Seq<char>)
    requires
        cloud_url_outcome(url) is Ok,
    ensures
        ({
            let (scheme, bucket, key) = cloud_url_outcome(url)->Ok_0;
            &&& url == scheme + "://"@ + bucket + "/"@ + key
            &&& key[0] != '/' ==> cloud_path_fault(key) is None
        }),
{
    reveal_strlit("://");
    reveal_strlit("/");
    let (scheme, bucket, key) = cloud_url_outcome(url)->Ok_0;
    lemma_found(url, "://"@, 0);
    let i = find_from(url, "://"@, 0)->0;
    let rest = url.skip(i + 3);
    lemma_found(rest, "/"@, 0);
    let j = find_from(rest, "/"@, 0)->0;
    assert(url.subrange(i, i + 3) == "://"@);
    assert(rest.subrange(j, j + 1) == "/"@);
    assert(url =~= scheme + "://"@ + bucket + "/"@ + key);
    let from = i + 3 + j + 1;
    let n = url.len() as int;
    assert(key =~= url.subrange(from, n));
    let lower = lower_text(url);
    assert(lower_text(key) =~= lower.subrange(from, n));
    assert forall|c: char| #[trigger] key.contains(c) implies url.contains(c) by {
        let k = key.index_of(c);
        assert(url[from + k] == c);
    }
    assert forall|needle: Seq<char>| #[trigger]
        contains_text(lower_text(key), needle) implies contains_text(lower, needle) by {
        lemma_contains_part(lower, from, n, needle);
    }
}

/// A place that a search gives holds the needle.
proof fn lemma_found(hay: Seq<char>, needle: Seq<char>, i: int)
    ensures
        find_from(hay, needle, i) matches Some(k) ==> crate::strings::holds_text(hay, needle, k),
    decreases hay.len() - i,
{
    if i < 0 || i + needle.len() > hay.len() || i >= hay.len() {
    } else if crate::strings::holds_text(hay, needle, i) {
    } else {
        lemma_found(hay, needle, i + 1);
    }
}

// Remote objects.

/// A cloud storage backend.
///
/// Paths are validated by their type. `read_range` returns the bytes in
/// `[offset, offset + length)`.
pub trait StorageBackend: Send + Sync {
    /// Reads a byte range of the object.
    fn read_range(&self, path: &ValidatedPath, offset: u64, length: u64) -> Result<Vec<u8>>;

    /// Writes the object.
    fn write(&self, path: &ValidatedPath, data: &[u8]) -> Result<()>;

    /// Deletes the object.
    fn delete(&self, path: &ValidatedPath) -> Result<()>;

    /// The size of the object in bytes.
    fn size(&self, path: &ValidatedPath) -> Result<u64>;

    /// Tells whether the object exists.
    fn object_exists(&self, path: &ValidatedPath) -> Result<bool>;
}

/// A position to seek to.
#[derive(Debug, Clone, Copy, PartialEq, Eq, Structural)]
pub enum SeekPosition {
    /// Counted from the start.
    Start(u64),
    /// Counted from the end.
    End(i64),
    /// Counted from the current position.
    Current(i64),
}

/// Where the bytes of a read come from.
#[allow(inconsistent_fields)]
#[derive(Debug, Clone, Copy, PartialEq, Eq, Structural)]
pub enum ReadPlan {
    /// The position is at or past the end.
    Eof,
    /// `len` bytes stand at `at` in the buffer.
    Buffered { at: usize, len: usize },
    /// `len` bytes from `offset` on are to be fetched; `wanted` of them were asked for.
    Fetch { offset: u64, len: u64, wanted: usize },
}

/// The value of a [`CloudReader`].
pub struct ReaderModel {
    pub path: Seq<char>,
    pub position: u64,
    pub total_size: u64,
    /// Bytes fetched before, and where in the object they start.
    pub buf: Seq<u8>,
    pub buf_start: u64,
}

/// The smaller of two numbers.
pub open spec fn smaller_of(a: int, b: int) -> int {
    if a < b {
        a
    } else {
        b
    }
}

/// The larger of two numbers.
pub open spec fn larger_of(a: int, b: int) -> int {
    if a < b {
        b
    } else {
        a
    }
}

impl ReaderModel {
    /// A reader at the start of an object of the given size, with nothing fetched.
    pub open spec fn fresh(path: Seq<char>, total_size: u64) -> ReaderModel {
        ReaderModel { path, position: 0, total_size, buf: Seq::empty(), buf_start: 0 }
    }

    /// Where the bytes of a read of `len` bytes come from.
    pub open spec fn plan(self, len: nat) -> ReadPlan {
        let left = self.total_size - self.position;
        let wanted = smaller_of(len as int, left);
        if left <= 0 {
            ReadPlan::Eof
        } else if self.buf_start <= self.position && self.position + wanted <= self.buf_start
            + self.buf.len() {
            ReadPlan::Buffered {
                at: (self.position - self.buf_start) as usize,
                len: wanted as usize,
            }
        } else {
            ReadPlan::Fetch {
                offset: self.position,
                len: smaller_of(
                    smaller_of(larger_of(DEFAULT_BUFFER_SIZE as int, wanted), left),
                    MAX_FETCH_SIZE as int,
                ) as u64,
                wanted: wanted as usize,
            }
        }
    }

    /// The reader after `n` more bytes were read.
    pub open spec fn advanced(self, n: nat) -> ReaderModel {
        ReaderModel { position: (self.position + n) as u64, ..self }
    }

    /// The reader with `data` fetched from its position.
    pub open spec fn refilled(self, data: Seq<u8>) -> ReaderModel {
        ReaderModel { buf: data, buf_start: self.position, ..self }
    }

    /// The position meant by `pos`, or why there is none.
    pub open spec fn seek_target(self, pos: SeekPosition) -> std::result::Result<int, Seq<char>> {
        let (base, offset, text) = match pos {
            SeekPosition::Start(offset) => (offset as int, 0int, "Seek offset overflow"@),
            SeekPosition::End(offset) => (
                self.total_size as int,
                offset as int,
                "Seek from end overflow"@,
            ),
            SeekPosition::Current(offset) => (
                self.position as int,
                offset as int,
                "Seek from current overflow"@,
            ),
        };
        if base > i64::MAX || base + offset > i64::MAX {
            Err(text)
        } else if base + offset < 0 {
            Err("Seek before start of file"@)
        } else {
            Ok(smaller_of(base + offset, self.total_size as int))
        }
    }

    /// The reader at `position`; a buffer that does not cover it is dropped.
    pub open spec fn moved_to(self, position: int) -> ReaderModel {
        ReaderModel {
            position: position as u64,
            buf: if self.buf_start <= position < self.buf_start + self.buf.len() {
                self.buf
            } else {
                Seq::empty()
            },
            ..self
        }
    }

    /// The buffer holds bytes of `object`.
    pub open spec fn mirrors(self, object: Seq<u8>) -> bool {
        &&& self.total_size == object.len()
        &&& self.buf.len() > 0 ==> self.buf_start + self.buf.len() <= object.len() && self.buf
            == object.subrange(self.buf_start as int, self.buf_start + self.buf.len())
    }
}

/// A reader over a buffer that mirrors an object serves the object's bytes: what is read
/// from the buffer are the bytes at the position, what is to be fetched lies inside the
/// object, and fetching it, reading and seeking keep the buffer a mirror.
pub proof fn reader_serves_object(m: ReaderModel, object: Seq<u8>, len: nat, pos: SeekPosition)
    requires
        m.mirrors(object),
        m.buf.len() <= usize::MAX,
        len <= usize::MAX,
    ensures
        match m.plan(len) {
            ReadPlan::Eof => m.position >= object.len(),
            ReadPlan::Buffered { at, len: n } => {
                &&& n == smaller_of(len as int, object.len() - m.position)
                &&& n > 0 ==> m.buf.subrange(at as int, at + n) == object.subrange(
                    m.position as int,
                    m.position + n,
                )
                &&& m.advanced(n as nat).mirrors(object)
            },
            ReadPlan::Fetch { offset, len: n, wanted } => {
                &&& offset == m.position
                &&& offset + n <= object.len()
                &&& wanted == smaller_of(len as int, object.len() - m.position)
                &&& forall|k: int|
                    0 <= k <= n ==> #[trigger] m.refilled(
                        object.subrange(offset as int, offset + k),
                    ).mirrors(object)
            },
        },
        m.seek_target(pos) matches Ok(p) ==> 0 <= p <= object.len() && m.moved_to(p).mirrors(object),
{
    match m.plan(len) {
        ReadPlan::Buffered { at, len: n } => {
            if n > 0 {
                assert(m.buf.subrange(at as int, at + n) =~= object.subrange(
                    m.position as int,
                    m.position + n,
                ));
            }
        },
        ReadPlan::Fetch { offset, len: n, wanted } => {
            assert forall|k: int| 0 <= k <= n implies #[trigger] m.refilled(
                object.subrange(offset as int, offset + k),
            ).mirrors(object) by {
                assert(object.subrange(offset as int, offset + k).len() == k);
            }
        },
        ReadPlan::Eof => {},
    }
}

/// A seek ends at the place asked for, or at the end where that lies behind it: counted from
/// the start, from the end or from the position before. It fails where the place lies before
/// the start or beyond the range of 64-bit offsets.
pub proof fn seeks_end_where_asked(m: ReaderModel, n: u64, d: i64)
    ensures
        m.seek_target(SeekPosition::Start(n)) is Ok <==> n <= 0x7FFF_FFFF_FFFF_FFFF,
        m.seek_target(SeekPosition::Start(n)) matches Ok(p) ==> p == n && n <= m.total_size || p
            == m.total_size && n > m.total_size,
        m.seek_target(SeekPosition::End(d)) is Ok <==> m.total_size <= 0x7FFF_FFFF_FFFF_FFFF && 0
            <= m.total_size + d <= 0x7FFF_FFFF_FFFF_FFFF,
        m.seek_target(SeekPosition::End(d)) matches Ok(p) ==> p == m.total_size + d && d <= 0 || p
            == m.total_size && d > 0,
        m.seek_target(SeekPosition::Current(d)) is Ok <==> m.position <= 0x7FFF_FFFF_FFFF_FFFF && 0
            <= m.position + d <= 0x7FFF_FFFF_FFFF_FFFF,
        m.seek_target(SeekPosition::Current(d)) matches Ok(p) ==> p == m.position + d && m.position
            + d <= m.total_size || p == m.total_size && m.position + d > m.total_size,
{
}

/// Moving to a place inside the object changes the position alone: path and size stay, and
/// what was fetched stays where it still covers the position.
pub proof fn moving_changes_the_position(m: ReaderModel, p: u64)
    ensures
        m.moved_to(p as int).position == p,
        m.moved_to(p as int).total_size == m.total_size,
        m.moved_to(p as int).path == m.path,
        m.moved_to(p as int).buf_start == m.buf_start,
        m.buf_start <= p && p - m.buf_start < m.buf.len() ==> m.moved_to(p as int).buf == m.buf,
        m.moved_to(p as int).buf == m.buf || m.moved_to(p as int).buf.len() == 0,
{
}

/// Seeking on by `d` and back by as much inside the object gives the position back, and a
/// seek by nothing gives it too.
pub proof fn seeks_undo_each_other(m: ReaderModel, d: i64)
    requires
        m.position <= m.total_size <= 0x7FFF_FFFF_FFFF_FFFF,
        0 <= m.position + d <= m.total_size,
        d > i64::MIN,
    ensures
        m.seek_target(SeekPosition::Current(d)) is Ok,
        ({
            let there = m.moved_to(m.seek_target(SeekPosition::Current(d))->Ok_0);
            &&& there.position == m.position + d
            &&& there.seek_target(SeekPosition::Current((-d) as i64)) == Ok::<int, Seq<char>>(
                m.position as int,
            )
        }),
        m.seek_target(SeekPosition::Current(0)) == Ok::<int, Seq<char>>(m.position as int),
{
}

/// A read whose bytes were fetched before fetches nothing. Where it does fetch, it asks for
/// all that is wanted, up to 16 MiB, and for 256 KiB ahead where the object has them.
pub proof fn fetches_are_enough(m: ReaderModel, len: nat)
    requires
        m.position < m.total_size,
        len <= usize::MAX,
    ensures
        ({
            let left = m.total_size - m.position;
            let wanted = if len < left {
                len as int
            } else {
                left
            };
            match m.plan(len) {
                ReadPlan::Eof => false,
                ReadPlan::Buffered { at, len: n } => m.buf_start <= m.position && m.position
                    + wanted <= m.buf_start + m.buf.len() && n == wanted && (m.buf.len()
                    <= usize::MAX ==> at == m.position - m.buf_start),
                ReadPlan::Fetch { offset, len: n, wanted: w } => {
                    &&& !(m.buf_start <= m.position && m.position + wanted <= m.buf_start
                        + m.buf.len())
                    &&& offset == m.position
                    &&& w == wanted
                    &&& n >= wanted || n == 16_777_216
                    &&& n >= 262_144 || n == left
                    &&& n <= left
                },
            }
        }),
{
}

/// A fetch starts at the position, stays inside the object as its size is known, and is of
/// one byte at least and [`MAX_FETCH_SIZE`] bytes at most.
pub proof fn fetches_stay_inside(m: ReaderModel, len: nat)
    ensures
        m.position >= m.total_size <==> m.plan(len) is Eof,
        m.plan(len) matches ReadPlan::Fetch { offset, len: n, wanted } ==> offset == m.position
            && 1 <= n <= MAX_FETCH_SIZE && offset + n <= m.total_size,
{
}

/// What a read of a reader in the state `before` into `buf` may give: the result `r`, the
/// state `after` and the bytes `filled`. On a miss of its buffer the backend was asked for
/// the range that was planned, and its answer decides.
pub open spec fn read_step<B: StorageBackend>(
    backend: B,
    path: ValidatedPath,
    before: ReaderModel,
    buf: Seq<u8>,
    r: Result<usize>,
    after: ReaderModel,
    filled: Seq<u8>,
) -> bool {
    match before.plan(buf.len()) {
        ReadPlan::Eof => r == Ok::<usize, AetherError>(0) && filled == buf && after == before,
        ReadPlan::Buffered { at, len } => r == Ok::<usize, AetherError>(len) && filled
            == before.buf.subrange(at as int, at + len) + buf.skip(len as int) && after
            == before.advanced(len as nat),
        ReadPlan::Fetch { offset, len, wanted } => exists|answer: Result<Vec<u8>>| #[trigger]
            call_ensures(B::read_range, (&backend, &path, offset, len), answer) && match answer {
                Ok(data) => r matches Ok(n) && n == smaller_of(data@.len() as int, wanted as int)
                    && filled == data@.take(n as int) + buf.skip(n as int) && after
                    == before.refilled(data@).advanced(n as nat),
                Err(inner) => r matches Err(e) && e@ == (ErrorModel::Io {
                    kind: IoErrorKind::Other,
                    message: inner@.text(),
                }) && filled == buf && after == before,
            },
    }
}

/// A new reader, told the right size, is fit to serve the object.
pub proof fn fresh_reader_mirrors_object(path: Seq<char>, object: Seq<u8>)
    requires
        object.len() <= u64::MAX,
    ensures
        ReaderModel::fresh(path, object.len() as u64).mirrors(object),
{
}

/// The backend answers every request for a range inside `object` with its bytes.
pub open spec fn serves<B: StorageBackend>(
    backend: B,
    path: ValidatedPath,
    object: Seq<u8>,
) -> bool {
    forall|offset: u64, len: u64, answer: Result<Vec<u8>>|
        offset + len <= object.len() && #[trigger] call_ensures(
            B::read_range,
            (&backend, &path, offset, len),
            answer,
        ) ==> (answer matches Ok(data) && data@ == object.subrange(
            offset as int,
            offset + len,
        ))
}

/// Where the backend answers with the bytes of the object, a read gives the bytes of the
/// object at the position and moves past them. It gives none only at the end or where none
/// were asked for, and fewer than asked for only at the end or beyond 16 MiB. Afterwards the
/// reader is as fit for the next read.
pub proof fn reads_give_the_object<B: StorageBackend>(
    backend: B,
    path: ValidatedPath,
    object: Seq<u8>,
    before: ReaderModel,
    buf: Seq<u8>,
    r: Result<usize>,
    after: ReaderModel,
    filled: Seq<u8>,
)
    requires
        serves(backend, path, object),
        before.mirrors(object),
        before.buf.len() <= usize::MAX,
        buf.len() <= usize::MAX,
        read_step(backend, path, before, buf, r, after, filled),
    ensures
        r matches Ok(n) && n <= buf.len() && (n == 0 <==> buf.len() == 0 || before.position
            >= object.len()) && (n > 0 ==> before.position + n <= object.len() && filled
            == object.subrange(before.position as int, before.position + n) + buf.skip(n as int))
            && (n == 0 ==> filled == buf) && after.position == before.position + n,
        r matches Ok(n) && (n == buf.len() || before.position >= object.len() || before.position + n
            == object.len() || n >= 16_777_216),
        after.mirrors(object),
        after.path == before.path,
        after.total_size == before.total_size,
{
    match before.plan(buf.len()) {
        ReadPlan::Eof => {},
        ReadPlan::Buffered { at, len } => {
            if len > 0 {
                assert(before.buf.subrange(at as int, at + len) =~= object.subrange(
                    before.position as int,
                    before.position + len,
                ));
            } else {
                assert(filled =~= buf);
            }
        },
        ReadPlan::Fetch { offset, len, wanted } => {
            let answer = choose|answer: Result<Vec<u8>>| #[trigger]
                call_ensures(B::read_range, (&backend, &path, offset, len), answer) && match answer {
                    Ok(data) => r matches Ok(n) && n == smaller_of(
                        data@.len() as int,
                        wanted as int,
                    ) && filled == data@.take(n as int) + buf.skip(n as int) && after
                        == before.refilled(data@).advanced(n as nat),
                    Err(inner) => r matches Err(e) && e@ == (ErrorModel::Io {
                        kind: IoErrorKind::Other,
                        message: inner@.text(),
                    }) && filled == buf && after == before,
                };
            assert(offset + len <= object.len());
            let data = answer->Ok_0;
            let n = r->Ok_0;
            assert(data@.take(n as int) =~= object.subrange(
                before.position as int,
                before.position + n,
            ));
            if n == 0 {
                assert(filled =~= buf);
            }
        },
    }
}

/// A reader over a [`StorageBackend`] that turns reads and seeks into range requests.
pub struct CloudReader<B: StorageBackend> {
    backend: B,
    path: ValidatedPath,
    position: u64,
    total_size: u64,
    buf: Vec<u8>,
    buf_start: u64,
}

impl<B: StorageBackend> View for CloudReader<B> {
    type V = ReaderModel;

    closed spec fn view(&self) -> ReaderModel {
        ReaderModel {
            path: self.path@,
            position: self.position,
            total_size: self.total_size,
            buf: self.buf@,
            buf_start: self.buf_start,
        }
    }
}

/// Replaces the first `n` bytes of `buf` by those of `src` from `from` on.
fn copy_into(buf: &mut [u8], src: &[u8], from: usize, n: usize)
    requires
        from + n <= src@.len(),
        n <= old(buf)@.len(),
    ensures
        final(buf)@ == src@.subrange(from as int, from + n) + old(buf)@.skip(n as int),
{
    assert(src.len() == src@.len());
    let mut i: usize = 0;
    while i < n
        invariant
            i <= n <= old(buf)@.len(),
            from + n <= src@.len() <= usize::MAX,
            buf@ == src@.subrange(from as int, from + i) + old(buf)@.skip(i as int),
        decreases n - i,
    {
        buf[i] = src[from + i];
        i = i + 1;
        assert(buf@ =~= src@.subrange(from as int, from + i) + old(buf)@.skip(i as int));
    }
}

impl<B: StorageBackend> CloudReader<B> {
    /// The backend that is asked.
    pub closed spec fn backend(&self) -> B {
        self.backend
    }

    /// The path of the object that it is asked about.
    pub closed spec fn object_path(&self) -> ValidatedPath {
        self.path
    }

    /// Validates `path` and asks the backend for the size of the object.
    ///
    /// An error of the backend is passed on.
    pub fn new(backend: B, path: String) -> (r: Result<CloudReader<B>>)
        ensures
            cloud_path_fault(path@) matches Some(text) ==> r matches Err(e) && e@
                == ErrorModel::InvalidCloudPath(text),
            cloud_path_fault(path@) is None ==> exists|p: ValidatedPath, answer: Result<u64>|
                p@ == path@ && #[trigger] call_ensures(B::size, (&backend, &p), answer)
                    && match answer {
                    Ok(size) => r matches Ok(reader) && reader.backend() == backend
                        && reader.object_path() == p && reader@ == ReaderModel::fresh(
                        path@,
                        size,
                    ),
                    Err(e) => r == Err::<CloudReader<B>, AetherError>(e),
                },
    {
        let validated = match ValidatedPath::new(path) {
            Ok(p) => p,
            Err(e) => {
                return Err(e);
            },
        };
        let answer = backend.size(&validated);
        assert(call_ensures(B::size, (&backend, &validated), answer));
        match answer {
            Ok(total_size) => Ok(
                CloudReader {
                    backend,
                    path: validated,
                    position: 0,
                    total_size,
                    buf: Vec::new(),
                    buf_start: 0,
                },
            ),
            Err(e) => Err(e),
        }
    }

    /// Asks the backend for the size again; the buffer is dropped, since the object may
    /// have changed. An error of the backend is passed on, and changes nothing.
    pub fn refresh_size(&mut self) -> (r: Result<()>)
        ensures
            final(self).backend() == old(self).backend(),
            final(self).object_path() == old(self).object_path(),
            exists|answer: Result<u64>| #[trigger]
                call_ensures(B::size, (&old(self).backend(), &old(self).object_path()), answer)
                    && match answer {
                    Ok(size) => r is Ok && final(self)@ == (ReaderModel {
                        total_size: size,
                        buf: Seq::empty(),
                        ..old(self)@
                    }),
                    Err(e) => r == Err::<(), AetherError>(e) && final(self)@ == old(self)@,
                },
    {
        let answer = self.backend.size(&self.path);
        assert(call_ensures(B::size, (&old(self).backend(), &old(self).object_path()), answer));
        match answer {
            Ok(size) => {
                self.total_size = size;
                self.buf = Vec::new();
                Ok(())
            },
            Err(e) => Err(e),
        }
    }

    /// The size of the object as last asked for.
    pub fn total_size(&self) -> (n: u64)
        ensures
            n == self@.total_size,
    {
        self.total_size
    }

    /// Where the bytes of a read of `len` bytes come from.
    pub fn plan_read(&self, len: usize) -> (plan: ReadPlan)
        ensures
            plan == self@.plan(len as nat),
    {
        if self.position >= self.total_size {
            return ReadPlan::Eof;
        }
        let remaining: u64 = self.total_size - self.position;
        let wanted: usize = if (len as u64) < remaining {
            len
        } else {
            remaining as usize
        };
        if self.position >= self.buf_start {
            let at: u64 = self.position - self.buf_start;
            if at <= self.buf.len() as u64 && wanted <= self.buf.len() - at as usize {
                return ReadPlan::Buffered { at: at as usize, len: wanted };
            }
        }
        let mut fetch: u64 = DEFAULT_BUFFER_SIZE;
        if (wanted as u64) > fetch {
            fetch = wanted as u64;
        }
        if remaining < fetch {
            fetch = remaining;
        }
        if MAX_FETCH_SIZE < fetch {
            fetch = MAX_FETCH_SIZE;
        }
        ReadPlan::Fetch { offset: self.position, len: fetch, wanted }
    }

    /// Takes `data`, fetched from the position on, and serves up to `wanted` bytes of it.
    pub fn accept_fetched(&mut self, data: Vec<u8>, wanted: usize, buf: &mut [u8]) -> (n: usize)
        requires
            wanted <= old(buf)@.len(),
            old(self)@.position + wanted <= old(self)@.total_size,
        ensures
            final(self).backend() == old(self).backend(),
            final(self).object_path() == old(self).object_path(),
            n == smaller_of(data@.len() as int, wanted as int),
            final(buf)@ == data@.take(n as int) + old(buf)@.skip(n as int),
            final(self)@ == old(self)@.refilled(data@).advanced(n as nat),
    {
        let n: usize = if data.len() < wanted {
            data.len()
        } else {
            wanted
        };
        copy_into(buf, data.as_slice(), 0, n);
        assert(data@.subrange(0, n as int) =~= data@.take(n as int));
        self.buf_start = self.position;
        self.buf = data;
        self.position = self.position + n as u64;
        n
    }

    /// Reads bytes at the position into `buf` and moves past them.
    ///
    /// An error of the backend is passed on as an I/O error with its message.
    pub fn read(&mut self, buf: &mut [u8]) -> (r: Result<usize>)
        ensures
            final(self).backend() == old(self).backend(),
            final(self).object_path() == old(self).object_path(),
            read_step(
                old(self).backend(),
                old(self).object_path(),
                old(self)@,
                old(buf)@,
                r,
                final(self)@,
                final(buf)@,
            ),
    {
        match self.plan_read(buf.len()) {
            ReadPlan::Eof => Ok(0),
            ReadPlan::Buffered { at, len } => {
                copy_into(buf, self.buf.as_slice(), at, len);
                self.position = self.position + len as u64;
                Ok(len)
            },
            ReadPlan::Fetch { offset, len, wanted } => {
                let answer = self.backend.read_range(&self.path, offset, len);
                assert(call_ensures(
                    B::read_range,
                    (&old(self).backend(), &old(self).object_path(), offset, len),
                    answer,
                ));
                match answer {
                    Ok(data) => Ok(self.accept_fetched(data, wanted, buf)),
                    Err(e) => Err(AetherError::Io { kind: IoErrorKind::Other, message: e.message() }),
                }
            },
        }
    }

    /// Moves to another position; a position past the end is taken as the end.
    pub fn seek(&mut self, pos: SeekPosition) -> (r: Result<u64>)
        ensures
            final(self).backend() == old(self).backend(),
            final(self).object_path() == old(self).object_path(),
            match (r, old(self)@.seek_target(pos)) {
                (Ok(p), Ok(target)) => p == target && final(self)@ == old(self)@.moved_to(target),
                (Err(e), Err(text)) => e@ == (ErrorModel::Io {
                    kind: IoErrorKind::InvalidInput,
                    message: text,
                }) && final(self)@ == old(self)@,
                _ => false,
            },
    {
        let (base, offset, text): (u64, i64, &str) = match pos {
            SeekPosition::Start(offset) => (offset, 0, "Seek offset overflow"),
            SeekPosition::End(offset) => (self.total_size, offset, "Seek from end overflow"),
            SeekPosition::Current(offset) => (self.position, offset, "Seek from current overflow"),
        };
        let target: Option<i64> = if base > i64::MAX as u64 {
            None
        } else {
            (base as i64).checked_add(offset)
        };
        let new_pos: i64 = match target {
            Some(p) => p,
            None => {
                return Err(
                    AetherError::Io { kind: IoErrorKind::InvalidInput, message: text.to_string() },
                );
            },
        };
        if new_pos < 0 {
            return Err(
                AetherError::Io {
                    kind: IoErrorKind::InvalidInput,
                    message: "Seek before start of file".to_string(),
                },
            );
        }
        let new_pos: u64 = new_pos as u64;
        self.position = if new_pos < self.total_size {
            new_pos
        } else {
            self.total_size
        };
        let covered = self.position >= self.buf_start && self.position - self.buf_start
            < self.buf.len() as u64;
        if !covered {
            self.buf = Vec::new();
        }
        Ok(self.position)
    }
}

/// What [`CloudReader::seek`] does: on success it gives the place asked for, or the end where
/// that lies behind it, and the reader stands there; otherwise nothing moves.
pub proof fn seeks_move_the_reader<B: StorageBackend>(
    reader: &mut CloudReader<B>,
    pos: SeekPosition,
    r: Result<u64>,
)
    requires
        call_ensures(CloudReader::<B>::seek, (reader, pos), r),
    ensures
        ({
            let size = old(reader)@.total_size as int;
            let asked = match pos {
                SeekPosition::Start(n) => n as int,
                SeekPosition::End(d) => size + d,
                SeekPosition::Current(d) => old(reader)@.position + d,
            };
            match r {
                Ok(p) => {
                    &&& asked >= 0
                    &&& p == if asked < size {
                        asked
                    } else {
                        size
                    }
                    &&& final(reader)@.position == p
                },
                Err(_) => {
                    &&& asked < 0 || asked > 0x7FFF_FFFF_FFFF_FFFF || size > 0x7FFF_FFFF_FFFF_FFFF
                        || old(reader)@.position > 0x7FFF_FFFF_FFFF_FFFF
                    &&& final(reader)@ == old(reader)@
                },
            }
        }),
        final(reader)@.total_size == old(reader)@.total_size,
        final(reader)@.path == old(reader)@.path,
        final(reader).backend() == old(reader).backend(),
{
}

/// What [`CloudReader::read`] does where the backend answers with the bytes of the object:
/// the bytes at the position come, as many as asked for unless the object ends or 16 MiB are
/// reached, and the reader moves past them.
pub proof fn reads_move_the_reader<B: StorageBackend>(
    reader: &mut CloudReader<B>,
    buf: &mut [u8],
    r: Result<usize>,
    object: Seq<u8>,
)
    requires
        call_ensures(CloudReader::<B>::read, (reader, buf), r),
        serves(old(reader).backend(), old(reader).object_path(), object),
        old(reader)@.mirrors(object),
        old(reader)@.buf.len() <= usize::MAX,
        old(buf)@.len() <= usize::MAX,
    ensures
        ({
            let at = old(reader)@.position as int;
            let left = object.len() - at;
            let len = old(buf)@.len();
            &&& r is Ok
            &&& ({
                let n = r->Ok_0 as int;
                &&& n <= len
                &&& left <= 0 ==> n == 0
                &&& left > 0 ==> n <= left && (n == len || n == left || n >= 16_777_216)
                &&& n > 0 ==> final(buf)@ == object.subrange(at, at + n) + old(buf)@.skip(n)
                &&& n == 0 ==> final(buf)@ == old(buf)@
                &&& final(reader)@.position == at + n
            })
            &&& final(reader)@.mirrors(object)
        }),
{
    reads_give_the_object(
        old(reader).backend(),
        old(reader).object_path(),
        object,
        old(reader)@,
        old(buf)@,
        r,
        final(reader)@,
        final(buf)@,
    );
}

// What is let through.

proof fn lemma_needs_char(hay: Seq<char>, needle: Seq<char>, k: int)
    requires
        0 <= k < needle.len(),
        contains_text(hay, needle),
    ensures
        hay.contains(needle[k]),
{
    let i = choose|i: int| crate::strings::holds_text(hay, needle, i);
    assert(hay.subrange(i, i + needle.len())[k] == hay[i + k]);
    assert(hay[i + k] == needle[k]);
}

proof fn lemma_no_percent(s: Seq<char>)
    requires
        !s.contains('%'),
    ensures
        !lower_text(s).contains('%'),
        !encoded_traversal(lower_text(s)),
        !encoded_separator(lower_text(s)),
        !overlong_encoding(lower_text(s)),
        !contains_text(lower_text(s), "%252e"@),
        !contains_text(lower_text(s), "%25"@),
        !contains_text(lower_text(s), "%00"@),
{
    let lower = lower_text(s);
    if lower.contains('%') {
        let k = lower.index_of('%');
        assert(s[k] == '%');
    }
    reveal_strlit("%2e%2e");
    reveal_strlit("%2e.");
    reveal_strlit(".%2e");
    reveal_strlit("%2f");
    reveal_strlit("%5c");
    reveal_strlit("%c0%ae");
    reveal_strlit("%c0%af");
    reveal_strlit("%252e");
    reveal_strlit("%25");
    reveal_strlit("%00");
    if contains_text(lower, "%2e%2e"@) {
        lemma_needs_char(lower, "%2e%2e"@, 0);
    }
    if contains_text(lower, "%2e."@) {
        lemma_needs_char(lower, "%2e."@, 0);
    }
    if contains_text(lower, ".%2e"@) {
        lemma_needs_char(lower, ".%2e"@, 1);
    }
    if contains_text(lower, "%2f"@) {
        lemma_needs_char(lower, "%2f"@, 0);
    }
    if contains_text(lower, "%5c"@) {
        lemma_needs_char(lower, "%5c"@, 0);
    }
    if contains_text(lower, "%c0%ae"@) {
        lemma_needs_char(lower, "%c0%ae"@, 0);
    }
    if contains_text(lower, "%c0%af"@) {
        lemma_needs_char(lower, "%c0%af"@, 0);
    }
    if contains_text(lower, "%252e"@) {
        lemma_needs_char(lower, "%252e"@, 0);
    }
    if contains_text(lower, "%25"@) {
        lemma_needs_char(lower, "%25"@, 0);
    }
    if contains_text(lower, "%00"@) {
        lemma_needs_char(lower, "%00"@, 0);
    }
}

proof fn lemma_no_two_dots(s: Seq<char>)
    requires
        forall|i: int| 0 <= i < s.len() - 1 ==> !(#[trigger] s[i] == '.' && s[i + 1] == '.'),
    ensures
        !contains_text(s, ".."@),
{
    reveal_strlit("..");
    if contains_text(s, ".."@) {
        let i = choose|i: int| crate::strings::holds_text(s, ".."@, i);
        let part = s.subrange(i, i + 2);
        assert(part[0] == s[i] && part[1] == s[i + 1]);
    }
}

/// A path as most are: relative, without two dots in a row, percent signs, control
/// characters, backslashes or fullwidth forms.
pub open spec fn is_ordinary(path: Seq<char>) -> bool {
    &&& path.len() > 0
    &&& path[0] != '/'
    &&& forall|i: int| 0 <= i < path.len() - 1 ==> !(#[trigger] path[i] == '.' && path[i + 1] == '.')
    &&& forall|i: int|
        0 <= i < path.len() ==> #[trigger] path[i] != '%' && path[i] != '\0' && path[i] != '\n'
            && path[i] != '\r' && path[i] != '\\' && path[i] != '\u{FF0E}' && path[i] != '\u{FF0F}'
            && path[i] != '\u{FF3C}'
}

proof fn lemma_ordinary(path: Seq<char>)
    requires
        is_ordinary(path),
    ensures
        !path.contains('%') && !path.contains('\0') && !path.contains('\n') && !path.contains('\r')
            && !path.contains('\\') && !has_fullwidth(path),
        !contains_text(path, ".."@),
{
    lemma_no_two_dots(path);
    assert forall|c: char| #[trigger] path.contains(c) implies c != '%' && c != '\0' && c != '\n' && c
        != '\r' && c != '\\' && c != '\u{FF0E}' && c != '\u{FF0F}' && c != '\u{FF3C}' by {
        let k = path.index_of(c);
        assert(path[k] == c);
    }
}

/// What [`validate_cloud_path`] lets pass: every ordinary path, and nothing that is empty,
/// absolute, has two dots in a row, a null byte, a line end, a backslash, or a percent sign
/// before `25`, `00`, `2f` or `5c` in letters of either case.
pub proof fn paths_that_pass(path: &str, r: Result<()>, i: int)
    requires
        call_ensures(validate_cloud_path, (path,), r),
    ensures
        is_ordinary(path@) ==> r is Ok,
        r is Ok ==> path@.len() > 0 && path@[0] != '/',
        r is Ok && 0 <= i < path@.len() ==> path@[i] != '\0' && path@[i] != '\n' && path@[i] != '\r'
            && path@[i] != '\\' && path@[i] != '\u{FF0E}' && path@[i] != '\u{FF0F}' && path@[i]
            != '\u{FF3C}',
        r is Ok && 0 <= i < path@.len() - 1 ==> !(path@[i] == '.' && path@[i + 1] == '.'),
        r is Ok && 0 <= i < path@.len() - 2 && path@[i] == '%' ==> {
            let a = path@[i + 1];
            let b = path@[i + 2];
            &&& !(a == '2' && b == '5')
            &&& !(a == '0' && b == '0')
            &&& !(a == '2' && (b == 'f' || b == 'F'))
            &&& !(a == '5' && (b == 'c' || b == 'C'))
        },
{
    let p = path@;
    if is_ordinary(p) {
        lemma_ordinary(p);
        lemma_no_percent(p);
    }
    if r is Ok {
        faultless_paths_are_safe(p);
        if 0 <= i < p.len() {
            assert(p.contains(p[i]));
        }
        if 0 <= i < p.len() - 2 && p[i] == '%' {
            lemma_escape(p, i);
        }
    }
}

proof fn lemma_escape(p: Seq<char>, i: int)
    requires
        0 <= i < p.len() - 2,
        p[i] == '%',
        cloud_path_fault(p) is None,
    ensures
        !(p[i + 1] == '2' && p[i + 2] == '5'),
        !(p[i + 1] == '0' && p[i + 2] == '0'),
        !(p[i + 1] == '2' && (p[i + 2] == 'f' || p[i + 2] == 'F')),
        !(p[i + 1] == '5' && (p[i + 2] == 'c' || p[i + 2] == 'C')),
{
    let lower = lower_text(p);
    reveal_strlit("%25");
    reveal_strlit("%00");
    reveal_strlit("%2f");
    reveal_strlit("%5c");
    let three = lower.subrange(i, i + 3);
    assert(three[0] == lower[i] && three[1] == lower[i + 1] && three[2] == lower[i + 2]);
    assert(crate::strings::lower_char('F') == 'f' && crate::strings::lower_char('C') == 'c');
    if p[i + 1] == '2' && p[i + 2] == '5' {
        assert(three =~= "%25"@);
        assert(crate::strings::holds_text(lower, "%25"@, i));
    }
    if p[i + 1] == '0' && p[i + 2] == '0' {
        assert(three =~= "%00"@);
        assert(crate::strings::holds_text(lower, "%00"@, i));
    }
    if p[i + 1] == '2' && (p[i + 2] == 'f' || p[i + 2] == 'F') {
        assert(three =~= "%2f"@);
        assert(crate::strings::holds_text(lower, "%2f"@, i));
    }
    if p[i + 1] == '5' && (p[i + 2] == 'c' || p[i + 2] == 'C') {
        assert(three =~= "%5c"@);
        assert(crate::strings::holds_text(lower, "%5c"@, i));
    }
}

/// What [`parse_cloud_url`] makes of a URL as most are: a scheme of the three, a bucket of 3
/// to 63 small letters, digits, hyphens, dots and underscores, and an ordinary key come out
/// as they stand in it.
pub proof fn ordinary_urls_are_parsed(
    url: &str,
    r: Result<(&str, &str, &str)>,
    scheme: Seq<char>,
    bucket: Seq<char>,
    key: Seq<char>,
)
    requires
        call_ensures(parse_cloud_url, (url,), r),
        url@ == scheme + "://"@ + bucket + "/"@ + key,
        scheme == "s3"@ || scheme == "gs"@ || scheme == "az"@,
        3 <= bucket.len() <= 63,
        forall|i: int|
            0 <= i < bucket.len() ==> 'a' <= #[trigger] bucket[i] <= 'z' || '0' <= bucket[i] <= '9'
                || bucket[i] == '-' || bucket[i] == '.' || bucket[i] == '_',
        is_ordinary(key),
    ensures
        r is Ok,
        (r->Ok_0).0@ == scheme && (r->Ok_0).1@ == bucket && (r->Ok_0).2@ == key,
{
    let u = url@;
    reveal_strlit("://");
    reveal_strlit("/");
    reveal_strlit("s3");
    reveal_strlit("gs");
    reveal_strlit("az");
    lemma_ordinary(key);
    assert(scheme.len() == 2);
    assert(u.len() == 2 + 3 + bucket.len() + 1 + key.len());
    assert forall|i: int| 0 <= i < u.len() implies #[trigger] u[i] != '%' && u[i] != '\0' && u[i]
        != '\n' && u[i] != '\r' && u[i] != '\u{FF0E}' && u[i] != '\u{FF0F}' && u[i] != '\u{FF3C}' by {
        if i < 2 {
            assert(u[i] == scheme[i]);
        } else if i < 5 {
            assert(u[i] == "://"@[i - 2]);
        } else if i < 5 + bucket.len() {
            assert(u[i] == bucket[i - 5]);
        } else if i == 5 + bucket.len() {
            assert(u[i] == "/"@[0]);
        } else {
            assert(u[i] == key[i - 6 - bucket.len()]);
        }
    }
    assert forall|c: char| #[trigger] u.contains(c) implies c != '%' && c != '\0' && c != '\n' && c
        != '\r' && c != '\u{FF0E}' && c != '\u{FF0F}' && c != '\u{FF3C}' by {
        let k = u.index_of(c);
        assert(u[k] == c);
    }
    lemma_no_percent(u);
    assert(u.subrange(2, 5) =~= "://"@);
    assert(u.subrange(0, 3)[0] == scheme[0]);
    assert(u.subrange(1, 4)[0] == scheme[1]);
    assert(!crate::strings::holds_text(u, "://"@, 0));
    assert(!crate::strings::holds_text(u, "://"@, 1));
    assert(crate::strings::holds_text(u, "://"@, 2));
    reveal_with_fuel(find_from, 4);
    assert(find_from(u, "://"@, 0) == Some(2int));
    let rest = u.skip(5);
    assert(rest =~= bucket + "/"@ + key);
    assert(rest.subrange(bucket.len() as int, bucket.len() as int + 1) =~= "/"@);
    assert forall|k: int| 0 <= k < bucket.len() implies rest[k] != '/' by {
        assert(rest[k] == bucket[k]);
    }
    lemma_slash(rest, 0, bucket.len() as int);
    assert(u.take(2) =~= scheme);
    assert(rest.take(bucket.len() as int) =~= bucket);
    assert(rest.skip(bucket.len() as int + 1) =~= key);
    assert forall|i: int| 0 <= i < bucket.len() implies bucket_char(#[trigger] bucket[i]) by {}
    assert(vstd::utf8::is_ascii_chars(bucket));
    vstd::utf8::is_ascii_chars_encode_utf8(bucket);
    assert(encode_utf8(bucket).len() == bucket.len());
}

proof fn lemma_slash(hay: Seq<char>, i: int, n: int)
    requires
        0 <= i <= n < hay.len(),
        crate::strings::holds_text(hay, "/"@, n),
        forall|k: int| 0 <= k < n ==> hay[k] != '/',
    ensures
        find_from(hay, "/"@, i) == Some(n),
    decreases n - i,
{
    reveal_strlit("/");
    if i < n {
        assert(hay.subrange(i, i + 1)[0] == hay[i]);
        lemma_slash(hay, i + 1, n);
    }
}

/// What [`parse_cloud_url`] lets pass: a URL that its parts make up again, with a scheme of
/// the three, a bucket without a slash, and a key without two dots in a row or a backslash.
pub proof fn urls_that_pass(url: &str, r: Result<(&str, &str, &str)>, i: int)
    requires
        call_ensures(parse_cloud_url, (url,), r),
        r is Ok,
        encode_utf8((r->Ok_0).1@).len() <= usize::MAX,
    ensures
        ({
            let (scheme, bucket, key) = r->Ok_0;
            &&& url@ == scheme@ + "://"@ + bucket@ + "/"@ + key@
            &&& scheme@ == "s3"@ || scheme@ == "gs"@ || scheme@ == "az"@
            &&& 3 <= encode_utf8(bucket@).len() <= 63
            &&& 0 <= i < bucket@.len() ==> 'a' <= bucket@[i] <= 'z' || '0' <= bucket@[i] <= '9'
                || bucket@[i] == '-' || bucket@[i] == '.' || bucket@[i] == '_'
            &&& key@.len() > 0
            &&& 0 <= i < key@.len() - 1 ==> !(key@[i] == '.' && key@[i + 1] == '.')
            &&& 0 <= i < key@.len() ==> key@[i] != '\\'
        }),
{
    let (scheme, bucket, key) = r->Ok_0;
    parsed_url_parts(url@);
    assert(0 <= i < bucket@.len() ==> bucket_char(bucket@[i]));
    reveal_strlit("..");
    if 0 <= i < key@.len() - 1 && key@[i] == '.' && key@[i + 1] == '.' {
        assert(key@.subrange(i, i + 2) =~= ".."@);
        assert(crate::strings::holds_text(key@, ".."@, i));
    }
    if 0 <= i < key@.len() {
        assert(key@.contains(key@[i]));
    }
}

/// What [`CloudReader::new`] gives where the backend has an answer: for a valid path a reader
/// at the start of an object of the size that the backend gave, or the backend's error; for
/// any other path an error. What [`CloudReader::refresh_size`] does: it takes over the size
/// that the backend then gives, and forgets what was fetched.
pub proof fn readers_take_the_size_of_the_backend<B: StorageBackend>(
    backend: B,
    path: String,
    r: Result<CloudReader<B>>,
    size: u64,
    reader: &mut CloudReader<B>,
    refreshed: Result<()>,
)
    requires
        call_ensures(CloudReader::<B>::new, (backend, path), r),
        call_ensures(CloudReader::<B>::refresh_size, (reader,), refreshed),
        forall|p: ValidatedPath, answer: Result<u64>| #[trigger]
            call_ensures(B::size, (&backend, &p), answer) ==> answer == Ok::<u64, AetherError>(size),
        old(reader).backend() == backend,
    ensures
        is_ordinary(path@) ==> r is Ok,
        r is Ok ==> (r->Ok_0)@.total_size == size && (r->Ok_0)@.position == 0 && (
        r->Ok_0)@.buf.len() == 0 && (r->Ok_0)@.path == path@ && r->Ok_0.backend() == backend,
        refreshed is Ok,
        final(reader)@.total_size == size,
        final(reader)@.position == old(reader)@.position,
        final(reader)@.buf.len() == 0,
        final(reader)@.path == old(reader)@.path,
{
    if is_ordinary(path@) {
        lemma_ordinary(path@);
        lemma_no_percent(path@);
    }
}

/// What [`CloudReader::plan_read`] and [`CloudReader::accept_fetched`] do: bytes fetched
/// before are planned for where they are all there; what was fetched from the position goes
/// to the front of the buffer of the caller, up to what was wanted, and the reader moves past
/// it and keeps it.
pub proof fn plans_are_carried_out<B: StorageBackend>(
    reader: CloudReader<B>,
    len: usize,
    plan: ReadPlan,
    moved: &mut CloudReader<B>,
    data: Vec<u8>,
    wanted: usize,
    buf: &mut [u8],
    n: usize,
)
    requires
        call_ensures(CloudReader::<B>::plan_read, (&reader, len), plan),
        call_ensures(CloudReader::<B>::accept_fetched, (moved, data, wanted, buf), n),
        wanted <= old(buf)@.len(),
        old(moved)@.position + wanted <= old(moved)@.total_size,
    ensures
        plan is Eof <==> reader@.position >= reader@.total_size,
        plan matches ReadPlan::Fetch { offset, len: l, wanted: w } ==> offset == reader@.position
            && 0 < l <= 16_777_216 && offset + l <= reader@.total_size && (l >= w || l == 16_777_216),
        n == data@.len() && n <= wanted || n == wanted && n <= data@.len(),
        final(buf)@.take(n as int) == data@.take(n as int),
        final(buf)@.skip(n as int) == old(buf)@.skip(n as int),
        final(buf)@.len() == old(buf)@.len(),
        final(moved)@.position == old(moved)@.position + n,
        final(moved)@.buf == data@,
        final(moved)@.buf_start == old(moved)@.position,
        final(moved)@.total_size == old(moved)@.total_size,
{
    fetches_stay_inside(reader@, len as nat);
    if reader@.position < reader@.total_size {
        fetches_are_enough(reader@, len as nat);
    }
    assert(final(buf)@.take(n as int) =~= data@.take(n as int));
    assert(final(buf)@.skip(n as int) =~= old(buf)@.skip(n as int));
}

} // verus!

use aether_core::cloud::{
    parse_cloud_url, validate_cloud_path, CloudReader, SeekPosition, StorageBackend, ValidatedPath,
};
use aether_core::{AetherError, Result};
use std::sync::atomic::{AtomicU64, Ordering};
use std::sync::{Arc, Mutex};

// Mockbackend.

struct MockBackend {
    data: Vec<u8>,
}

impl StorageBackend for MockBackend {
    fn read_range(&self, _path: &ValidatedPath, offset: u64, length: u64) -> Result<Vec<u8>> {
        let start = usize::try_from(offset)
            .map_err(|_| AetherError::CloudStorage("offset exceeds platform usize".into()))?;
        let end = usize::try_from(offset.saturating_add(length))
            .map_err(|_| AetherError::CloudStorage("range exceeds platform usize".into()))?;
        let end = end.min(self.data.len());
        if start > self.data.len() {
            return Err(AetherError::CloudStorage(
                "offset past end of object".into(),
            ));
        }
        Ok(self.data[start..end].to_vec())
    }
    fn write(&self, _path: &ValidatedPath, _data: &[u8]) -> Result<()> {
        Ok(())
    }
    fn delete(&self, _path: &ValidatedPath) -> Result<()> {
        Ok(())
    }
    fn size(&self, _path: &ValidatedPath) -> Result<u64> {
        Ok(self.data.len() as u64)
    }
    fn object_exists(&self, _path: &ValidatedPath) -> Result<bool> {
        Ok(true)
    }
}

fn mock_reader(data: Vec<u8>) -> CloudReader<MockBackend> {
    let backend = MockBackend { data };
    CloudReader::new(backend, "test/path.aet".to_string()).unwrap()
}

fn read_exact(reader: &mut CloudReader<MockBackend>, buf: &mut [u8]) {
    let mut done = 0;
    while done < buf.len() {
        let n = reader.read(&mut buf[done..]).unwrap();
        assert!(n > 0, "end of object");
        done += n;
    }
}

// Parse_cloud_url tests.

#[test]
fn parse_s3_url() {
    let (scheme, bucket, key) = parse_cloud_url("s3://my-bucket/path/to/archive.aet").unwrap();
    assert_eq!(scheme, "s3");
    assert_eq!(bucket, "my-bucket");
    assert_eq!(key, "path/to/archive.aet");
}

#[test]
fn parse_gs_url() {
    let (scheme, bucket, key) = parse_cloud_url("gs://bucket/key.aet").unwrap();
    assert_eq!(scheme, "gs");
    assert_eq!(bucket, "bucket");
    assert_eq!(key, "key.aet");
}

#[test]
fn parse_az_url() {
    let (scheme, bucket, key) = parse_cloud_url("az://container/blob.aet").unwrap();
    assert_eq!(scheme, "az");
    assert_eq!(bucket, "container");
    assert_eq!(key, "blob.aet");
}

#[test]
fn parse_invalid_url_no_scheme() {
    assert!(parse_cloud_url("invalid").is_err());
}

#[test]
fn parse_invalid_url_bad_scheme() {
    assert!(parse_cloud_url("ftp://bucket/key").is_err());
}

#[test]
fn parse_url_empty_bucket() {
    assert!(parse_cloud_url("s3:///key").is_err());
}

#[test]
fn parse_url_empty_key() {
    assert!(parse_cloud_url("s3://bucket/").is_err());
}

#[test]
fn parse_url_missing_key() {
    assert!(parse_cloud_url("s3://bucket").is_err());
}

#[test]
fn parse_url_null_byte() {
    assert!(parse_cloud_url("s3://bucket/key\0.aet").is_err());
}

#[test]
fn parse_url_newline() {
    assert!(parse_cloud_url("s3://bucket/key\n.aet").is_err());
    assert!(parse_cloud_url("s3://bucket/key\r.aet").is_err());
}

#[test]
fn parse_url_encoded_traversal() {
    assert!(parse_cloud_url("s3://bucket/%2e%2e/etc/passwd").is_err());
}

#[test]
fn parse_url_encoded_null() {
    assert!(parse_cloud_url("s3://bucket/key%00.aet").is_err());
}

#[test]
fn parse_url_encoded_slash() {
    assert!(parse_cloud_url("s3://bucket/foo%2fbar").is_err());
    assert!(parse_cloud_url("s3://bucket/foo%5cbar").is_err());
}

#[test]
fn parse_url_double_encoded_traversal() {
    assert!(parse_cloud_url("s3://bucket/%252e%252e/etc/passwd").is_err());
}

#[test]
fn parse_url_backslash_in_key() {
    assert!(parse_cloud_url("s3://bucket/foo\\bar").is_err());
}

// Validate_cloud_path tests.

#[test]
fn valid_path() {
    assert!(validate_cloud_path("some/path/to/file.aet").is_ok());
}

#[test]
fn path_empty() {
    assert!(validate_cloud_path("").is_err());
}

#[test]
fn path_traversal() {
    assert!(validate_cloud_path("../etc/passwd").is_err());
    assert!(validate_cloud_path("foo/../../bar").is_err());
}

#[test]
fn path_null_byte() {
    assert!(validate_cloud_path("foo\0bar").is_err());
}

#[test]
fn path_newline() {
    assert!(validate_cloud_path("foo\nbar").is_err());
    assert!(validate_cloud_path("foo\rbar").is_err());
}

#[test]
fn path_absolute() {
    assert!(validate_cloud_path("/absolute/path").is_err());
}

#[test]
fn path_backslash() {
    assert!(validate_cloud_path("foo\\bar").is_err());
    assert!(validate_cloud_path("..\\..\\etc\\passwd").is_err());
}

#[test]
fn path_encoded_traversal() {
    assert!(validate_cloud_path("%2e%2e/etc/passwd").is_err());
    assert!(validate_cloud_path("foo/%2e./bar").is_err());
    assert!(validate_cloud_path("foo/.%2e/bar").is_err());
}

#[test]
fn path_encoded_separators() {
    assert!(validate_cloud_path("foo%2fbar").is_err());
    assert!(validate_cloud_path("foo%5cbar").is_err());
}

#[test]
fn path_encoded_null() {
    assert!(validate_cloud_path("foo%00bar").is_err());
}

#[test]
fn validated_path_newtype() {
    assert!(ValidatedPath::new("valid/path.aet".to_string()).is_ok());
    assert!(ValidatedPath::new("../traversal".to_string()).is_err());
    let vp = ValidatedPath::new("test/path.aet".to_string()).unwrap();
    assert_eq!(vp.as_str(), "test/path.aet");
}

// Cloudreader tests.

#[test]
fn cloud_reader_rejects_invalid_path() {
    let backend = MockBackend { data: vec![0; 10] };
    assert!(CloudReader::new(backend, "../traversal".to_string()).is_err());
}

#[test]
fn cloud_reader_seek_and_read() {
    let mut reader = mock_reader((0..100u8).collect());

    // Read first 10 bytes
    let mut buf = [0u8; 10];
    read_exact(&mut reader, &mut buf);
    assert_eq!(buf, [0, 1, 2, 3, 4, 5, 6, 7, 8, 9]);

    // Seek to position 50
    reader.seek(SeekPosition::Start(50)).unwrap();
    read_exact(&mut reader, &mut buf);
    assert_eq!(buf, [50, 51, 52, 53, 54, 55, 56, 57, 58, 59]);

    // Seek from end
    reader.seek(SeekPosition::End(-5)).unwrap();
    let mut small_buf = [0u8; 5];
    read_exact(&mut reader, &mut small_buf);
    assert_eq!(small_buf, [95, 96, 97, 98, 99]);
}

#[test]
fn cloud_reader_seek_past_end_clamps() {

    let mut reader = mock_reader((0..10u8).collect());

    // Seek way past end - should clamp to total_size
    let pos = reader.seek(SeekPosition::Start(9999)).unwrap();
    assert_eq!(pos, 10); // clamped to total_size

    // Read should return 0 (EOF)
    let mut buf = [0u8; 1];
    let n = reader.read(&mut buf).unwrap();
    assert_eq!(n, 0);
}

#[test]
fn cloud_reader_seek_before_start_errors() {

    let mut reader = mock_reader((0..10u8).collect());
    let result = reader.seek(SeekPosition::Current(-1));
    assert!(result.is_err());
}

#[test]
fn cloud_reader_zero_size_object() {

    let mut reader = mock_reader(vec![]);
    let mut buf = [0u8; 1];
    let n = reader.read(&mut buf).unwrap();
    assert_eq!(n, 0);
}

#[test]
fn cloud_reader_buffered_sequential_reads() {

    let mut reader = mock_reader((0..=255).cycle().take(1024).collect());

    // Many small reads should be served from the prefetch buffer
    // without calling read_range for each one.
    let mut total = Vec::new();
    let mut buf = [0u8; 7]; // intentionally odd size
    loop {
        let n = reader.read(&mut buf).unwrap();
        if n == 0 {
            break;
        }
        total.extend_from_slice(&buf[..n]);
    }
    let expected: Vec<u8> = (0..=255).cycle().take(1024).collect();
    assert_eq!(total, expected);
}

#[test]
fn cloud_reader_refresh_size() {
    let mut reader = mock_reader((0..10u8).collect());
    assert_eq!(reader.total_size(), 10);
    // refresh_size re-queries (same backend, same answer here)
    reader.refresh_size().unwrap();
    assert_eq!(reader.total_size(), 10);
}

// Overlong/fullwidth/multi-encoding path tests.

#[test]
fn path_double_encoded_traversal() {
    assert!(validate_cloud_path("%252e%252e/etc/passwd").is_err());
}

#[test]
fn path_triple_encoded_blocked_by_percent25() {
    assert!(validate_cloud_path("%25252e/foo").is_err());
}

#[test]
fn path_overlong_utf8_dot() {
    assert!(validate_cloud_path("%c0%ae%c0%ae/etc/passwd").is_err());
}

#[test]
fn path_overlong_utf8_slash() {
    assert!(validate_cloud_path("foo%c0%afbar").is_err());
}

#[test]
fn path_unicode_fullwidth_period() {
    assert!(validate_cloud_path("foo\u{FF0E}\u{FF0E}/bar").is_err());
}

#[test]
fn path_unicode_fullwidth_slash() {
    assert!(validate_cloud_path("foo\u{FF0F}bar").is_err());
}

#[test]
fn path_unicode_fullwidth_backslash() {
    assert!(validate_cloud_path("foo\u{FF3C}bar").is_err());
}

// Parse_cloud_url key traversal & bucket validation.

#[test]
fn parse_url_key_literal_traversal() {
    assert!(parse_cloud_url("s3://bucket/foo/../secret").is_err());
    assert!(parse_cloud_url("s3://bucket/../etc/passwd").is_err());
}

#[test]
fn parse_url_bucket_too_short() {
    assert!(parse_cloud_url("s3://ab/key.aet").is_err());
}

#[test]
fn parse_url_bucket_too_long() {
    let long_bucket = "a".repeat(64);
    assert!(parse_cloud_url(&format!("s3://{long_bucket}/key.aet")).is_err());
}

#[test]
fn parse_url_bucket_invalid_chars() {
    assert!(parse_cloud_url("s3://BUCKET/key.aet").is_err());
    assert!(parse_cloud_url("s3://buck et/key.aet").is_err());
    assert!(parse_cloud_url("s3://buck@t/key.aet").is_err());
}

#[test]
fn parse_url_bucket_valid_special_chars() {
    // Dots, hyphens, underscores are allowed
    assert!(parse_cloud_url("s3://my-bucket.v1_data/key.aet").is_ok());
}

#[test]
fn parse_url_overlong_utf8() {
    assert!(parse_cloud_url("s3://bucket/%c0%ae%c0%ae/foo").is_err());
}

#[test]
fn parse_url_fullwidth_chars() {
    assert!(parse_cloud_url("s3://bucket/foo\u{FF0E}\u{FF0E}/bar").is_err());
}

#[test]
fn parse_url_multiply_encoded() {
    assert!(parse_cloud_url("s3://bucket/foo%2525bar").is_err());
}

/// A backend whose object grows, and disappears after the second question.
struct GrowingBackend {
    asked: AtomicU64,
}

impl StorageBackend for GrowingBackend {
    fn read_range(&self, _path: &ValidatedPath, _offset: u64, length: u64) -> Result<Vec<u8>> {
        Ok(vec![7; length as usize])
    }
    fn write(&self, _path: &ValidatedPath, _data: &[u8]) -> Result<()> {
        Ok(())
    }
    fn delete(&self, _path: &ValidatedPath) -> Result<()> {
        Ok(())
    }
    fn size(&self, _path: &ValidatedPath) -> Result<u64> {
        let asked = self.asked.fetch_add(1, Ordering::SeqCst) + 1;
        if asked > 2 {
            return Err(AetherError::CloudStorage("gone".into()));
        }
        Ok(10 * asked)
    }
    fn object_exists(&self, _path: &ValidatedPath) -> Result<bool> {
        Ok(true)
    }
}

#[test]
fn refreshed_size_is_that_of_the_backend() {
    let backend = GrowingBackend {
        asked: AtomicU64::new(0),
    };
    let mut reader = CloudReader::new(backend, "a/b".to_string()).unwrap();
    assert_eq!(reader.total_size(), 10);
    reader.refresh_size().unwrap();
    assert_eq!(reader.total_size(), 20);
    assert!(matches!(
        reader.refresh_size(),
        Err(AetherError::CloudStorage(text)) if text == "gone"
    ));
    assert_eq!(reader.total_size(), 20);
}

/// A backend that notes down what it is asked for, and fails where it is told to.
struct NotingBackend {
    data: Vec<u8>,
    asked: Arc<Mutex<Vec<(String, u64, u64)>>>,
    fails_at: u64,
}

impl StorageBackend for NotingBackend {
    fn read_range(&self, path: &ValidatedPath, offset: u64, length: u64) -> Result<Vec<u8>> {
        self.asked
            .lock()
            .unwrap()
            .push((path.as_str().to_string(), offset, length));
        if offset == self.fails_at {
            return Err(AetherError::CloudStorage("no answer".into()));
        }
        Ok(self.data[offset as usize..(offset + length) as usize].to_vec())
    }
    fn write(&self, _path: &ValidatedPath, _data: &[u8]) -> Result<()> {
        Ok(())
    }
    fn delete(&self, _path: &ValidatedPath) -> Result<()> {
        Ok(())
    }
    fn size(&self, path: &ValidatedPath) -> Result<u64> {
        if path.as_str() == "missing" {
            return Err(AetherError::CloudStorage("no such object".into()));
        }
        Ok(self.data.len() as u64)
    }
    fn object_exists(&self, _path: &ValidatedPath) -> Result<bool> {
        Ok(true)
    }
}

#[test]
fn reads_ask_for_the_planned_range() {
    let data: Vec<u8> = (0..600_000u32).map(|i| (i * 7 % 251) as u8).collect();
    let asked = Arc::new(Mutex::new(Vec::new()));
    let backend = NotingBackend {
        data: data.clone(),
        asked: asked.clone(),
        fails_at: 200_000,
    };
    let mut reader = CloudReader::new(backend, "a/b".to_string()).unwrap();
    assert_eq!(reader.total_size(), 600_000);
    let mut buf = [0u8; 10];

    // A miss asks once, from the position on; a hit asks nothing.
    assert_eq!(reader.seek(SeekPosition::Start(100_000)).unwrap(), 100_000);
    assert_eq!(reader.read(&mut buf).unwrap(), 10);
    assert_eq!(buf[..], data[100_000..100_010]);
    assert_eq!(reader.read(&mut buf).unwrap(), 10);
    assert_eq!(buf[..], data[100_010..100_020]);
    assert_eq!(*asked.lock().unwrap(), [("a/b".to_string(), 100_000, 262_144)]);

    // Near the end no more is asked for than there is, and the rest of the buffer stays.
    assert_eq!(reader.seek(SeekPosition::End(-4)).unwrap(), 599_996);
    buf = [9; 10];
    assert_eq!(reader.read(&mut buf).unwrap(), 4);
    assert_eq!(buf[..4], data[599_996..]);
    assert_eq!(buf[4..], [9; 6]);
    assert_eq!(asked.lock().unwrap()[1], ("a/b".to_string(), 599_996, 4));
    assert_eq!(reader.read(&mut buf).unwrap(), 0);
    assert_eq!(asked.lock().unwrap().len(), 2);

    // An error of the backend comes through, and moves nothing.
    assert_eq!(reader.seek(SeekPosition::Start(200_000)).unwrap(), 200_000);
    let error = reader.read(&mut buf).unwrap_err().message();
    assert!(error.ends_with("no answer"), "{error}");
    assert_eq!(buf[4..], [9; 6]);
    assert_eq!(reader.seek(SeekPosition::Current(0)).unwrap(), 200_000);
}

#[test]
fn readers_pass_on_that_the_size_is_unknown() {
    let backend = NotingBackend {
        data: vec![1],
        asked: Arc::new(Mutex::new(Vec::new())),
        fails_at: 0,
    };
    assert!(matches!(
        CloudReader::new(backend, "missing".to_string()),
        Err(AetherError::CloudStorage(text)) if text == "no such object"
    ));
}

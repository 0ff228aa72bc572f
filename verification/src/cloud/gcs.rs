//! Google Cloud Storage backend.

use super::{StorageBackend, ValidatedPath};
use crate::error::{AetherError, ErrorModel, Result};
use crate::strings::{chars_of, is_digit, is_lower};
use vstd::prelude::*;
use vstd::string::*;
use vstd::utf8::encode_utf8;

verus! {

/// A character of a project ID.
pub open spec fn project_char(c: char) -> bool {
    is_lower(c) || is_digit(c) || c == '-'
}

/// Why `id` is refused as a project ID, if it is: IDs have 6 to 30 bytes, consist of
/// lower-case letters, digits and hyphens, start with a letter and do not end with a
/// hyphen.
pub open spec fn project_id_fault(id: Seq<char>) -> Option<Seq<char>> {
    if !(6 <= encode_utf8(id).len() as usize <= 30) {
        Some("GCP project ID must be 6-30 characters"@)
    } else if id.len() == 0 || !is_lower(id[0]) {
        Some("GCP project ID must start with a lowercase letter"@)
    } else if id.last() == '-' {
        Some("GCP project ID must not end with a hyphen"@)
    } else if !(forall|i: int| 0 <= i < id.len() ==> project_char(#[trigger] id[i])) {
        Some("GCP project ID must contain only lowercase letters, digits, and hyphens"@)
    } else {
        None
    }
}

/// Google Cloud Storage backend configuration. The service itself is not integrated:
/// every operation returns an error.
pub struct GcsBackend {
    project_id: Option<String>,
}

impl View for GcsBackend {
    type V = Option<Seq<char>>;

    closed spec fn view(&self) -> Option<Seq<char>> {
        match self.project_id {
            Some(id) => Some(id@),
            None => None,
        }
    }
}

impl GcsBackend {
    /// Creates a backend, for a project with a valid ID where one is given.
    pub fn new(project_id: Option<String>) -> (r: Result<GcsBackend>)
        ensures
            match (r, project_id) {
                (Ok(backend), Some(id)) => project_id_fault(id@) is None && backend@ == Some(id@),
                (Ok(backend), None) => backend@ is None,
                (Err(e), Some(id)) => project_id_fault(id@) matches Some(text) && e@
                    == ErrorModel::CloudStorage(text),
                (Err(_), None) => false,
            },
    {
        if let Some(id) = &project_id {
            match GcsBackend::validate_project_id(id.as_str()) {
                Ok(()) => {},
                Err(e) => {
                    return Err(e);
                },
            }
        }
        Ok(GcsBackend { project_id })
    }

    fn validate_project_id(id: &str) -> (r: Result<()>)
        ensures
            match r {
                Ok(()) => project_id_fault(id@) is None,
                Err(e) => project_id_fault(id@) matches Some(text) && e@
                    == ErrorModel::CloudStorage(text),
            },
    {
        if id.len() < 6 || id.len() > 30 {
            return Err(
                AetherError::CloudStorage("GCP project ID must be 6-30 characters".to_string()),
            );
        }
        let chars = chars_of(id);
        if chars.len() == 0 || !('a' <= chars[0] && chars[0] <= 'z') {
            return Err(
                AetherError::CloudStorage(
                    "GCP project ID must start with a lowercase letter".to_string(),
                ),
            );
        }
        if chars[chars.len() - 1] == '-' {
            return Err(
                AetherError::CloudStorage("GCP project ID must not end with a hyphen".to_string()),
            );
        }
        let mut i: usize = 0;
        while i < chars.len()
            invariant
                i <= chars@.len(),
                chars@ == id@,
                chars@.len() > 0,
                is_lower(id@[0]),
                id@.last() != '-',
                6 <= encode_utf8(id@).len() as usize <= 30,
                forall|k: int| 0 <= k < i ==> project_char(#[trigger] chars@[k]),
            decreases chars@.len() - i,
        {
            let c: char = chars[i];
            let fine = ('a' <= c && c <= 'z') || ('0' <= c && c <= '9') || c == '-';
            if !fine {
                assert(!project_char(id@[i as int]));
                return Err(
                    AetherError::CloudStorage(
                        "GCP project ID must contain only lowercase letters, digits, and hyphens".to_string(),
                    ),
                );
            }
            i = i + 1;
        }
        Ok(())
    }
}

/// The error of every operation: the service is not integrated.
pub open spec fn unavailable() -> ErrorModel {
    ErrorModel::CloudStorage(
        "GCS backend not yet implemented — requires 'cloud-gcs' feature"@,
    )
}

fn no_service() -> (e: AetherError)
    ensures
        e@ == unavailable(),
{
    AetherError::CloudStorage(
        "GCS backend not yet implemented — requires 'cloud-gcs' feature".to_string(),
    )
}

impl StorageBackend for GcsBackend {
    fn read_range(&self, _path: &ValidatedPath, _offset: u64, _length: u64) -> (r: Result<Vec<u8>>)
        ensures
            r matches Err(e) && e@ == unavailable(),
    {
        Err(no_service())
    }

    fn write(&self, _path: &ValidatedPath, _data: &[u8]) -> (r: Result<()>)
        ensures
            r matches Err(e) && e@ == unavailable(),
    {
        Err(no_service())
    }

    fn delete(&self, _path: &ValidatedPath) -> (r: Result<()>)
        ensures
            r matches Err(e) && e@ == unavailable(),
    {
        Err(no_service())
    }

    fn size(&self, _path: &ValidatedPath) -> (r: Result<u64>)
        ensures
            r matches Err(e) && e@ == unavailable(),
    {
        Err(no_service())
    }

    fn object_exists(&self, _path: &ValidatedPath) -> (r: Result<bool>)
        ensures
            r matches Err(e) && e@ == unavailable(),
    {
        Err(no_service())
    }
}

/// Which projects [`GcsBackend::new`] takes: none, and IDs of 6 to 30 small letters, digits
/// and hyphens that start with a letter and do not end with a hyphen.
pub proof fn projects_that_are_taken(project_id: Option<String>, r: Result<GcsBackend>)
    requires
        call_ensures(GcsBackend::new, (project_id,), r),
        project_id is Some ==> encode_utf8(project_id->0@).len() <= usize::MAX,
    ensures
        project_id is None ==> r is Ok && r->Ok_0@ is None,
        project_id is Some ==> {
            let id = project_id->0@;
            &&& r is Ok <==> 6 <= encode_utf8(id).len() <= 30 && id.len() > 0 && 'a' <= id[0] <= 'z'
                && id[id.len() - 1] != '-' && forall|i: int|
                0 <= i < id.len() ==> 'a' <= #[trigger] id[i] <= 'z' || '0' <= id[i] <= '9' || id[i]
                    == '-'
            &&& r is Ok ==> r->Ok_0@ == Some(id)
        },
{
}

} // verus!

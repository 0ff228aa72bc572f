//! Azure Blob Storage backend.

use super::{StorageBackend, ValidatedPath};
use crate::error::{AetherError, ErrorModel, Result};
use crate::strings::{chars_of, is_digit, is_lower};
use vstd::prelude::*;
use vstd::string::*;
use vstd::utf8::encode_utf8;

verus! {

/// Why `account` is refused as a storage account name, if it is: names have 3 to 24
/// bytes and consist of lower-case letters and digits.
pub open spec fn account_fault(account: Seq<char>) -> Option<Seq<char>> {
    if !(3 <= encode_utf8(account).len() as usize <= 24) {
        Some("Azure account name must be 3-24 characters"@)
    } else if !(forall|i: int|
        0 <= i < account.len() ==> is_lower(#[trigger] account[i]) || is_digit(account[i])) {
        Some("Azure account name must contain only lowercase letters and digits"@)
    } else {
        None
    }
}

/// Azure Blob Storage backend configuration. The service itself is not integrated: every
/// operation returns an error.
pub struct AzureBackend {
    account: String,
}

impl View for AzureBackend {
    type V = Seq<char>;

    closed spec fn view(&self) -> Seq<char> {
        self.account@
    }
}

impl AzureBackend {
    /// Creates a backend for a storage account with a valid name.
    pub fn new(account: &str) -> (r: Result<AzureBackend>)
        ensures
            match r {
                Ok(backend) => account_fault(account@) is None && backend@ == account@,
                Err(e) => account_fault(account@) matches Some(text) && e@
                    == ErrorModel::CloudStorage(text),
            },
    {
        match AzureBackend::validate_account_name(account) {
            Ok(()) => Ok(AzureBackend { account: account.to_string() }),
            Err(e) => Err(e),
        }
    }

    fn validate_account_name(account: &str) -> (r: Result<()>)
        ensures
            match r {
                Ok(()) => account_fault(account@) is None,
                Err(e) => account_fault(account@) matches Some(text) && e@
                    == ErrorModel::CloudStorage(text),
            },
    {
        if account.len() < 3 || account.len() > 24 {
            return Err(
                AetherError::CloudStorage("Azure account name must be 3-24 characters".to_string()),
            );
        }
        let chars = chars_of(account);
        let mut i: usize = 0;
        while i < chars.len()
            invariant
                i <= chars@.len(),
                chars@ == account@,
                3 <= encode_utf8(account@).len() as usize <= 24,
                forall|k: int|
                    0 <= k < i ==> is_lower(#[trigger] chars@[k]) || is_digit(chars@[k]),
            decreases chars@.len() - i,
        {
            let c: char = chars[i];
            let fine = ('a' <= c && c <= 'z') || ('0' <= c && c <= '9');
            if !fine {
                assert(!(is_lower(account@[i as int]) || is_digit(account@[i as int])));
                return Err(
                    AetherError::CloudStorage(
                        "Azure account name must contain only lowercase letters and digits".to_string(),
                    ),
                );
            }
            i = i + 1;
        }
        Ok(())
    }
}

/// The error of every operation: the service is not integrated.
pub open spec fn unavailable() -> ErrorModel {
    ErrorModel::CloudStorage(
        "Azure backend not yet implemented — requires 'cloud-azure' feature"@,
    )
}

fn no_service() -> (e: AetherError)
    ensures
        e@ == unavailable(),
{
    AetherError::CloudStorage(
        "Azure backend not yet implemented — requires 'cloud-azure' feature".to_string(),
    )
}

impl StorageBackend for AzureBackend {
    fn read_range(&self, _path: &ValidatedPath, _offset: u64, _length: u64) -> (r: Result<Vec<u8>>)
        ensures
            r matches Err(e) && e@ == unavailable(),
    {
        Err(no_service())
    }

    fn write(&self, _path: &ValidatedPath, _data: &[u8]) -> (r: Result<()>)
        ensures
            r matches Err(e) && e@ == unavailable(),
    {
        Err(no_service())
    }

    fn delete(&self, _path: &ValidatedPath) -> (r: Result<()>)
        ensures
            r matches Err(e) && e@ == unavailable(),
    {
        Err(no_service())
    }

    fn size(&self, _path: &ValidatedPath) -> (r: Result<u64>)
        ensures
            r matches Err(e) && e@ == unavailable(),
    {
        Err(no_service())
    }

    fn object_exists(&self, _path: &ValidatedPath) -> (r: Result<bool>)
        ensures
            r matches Err(e) && e@ == unavailable(),
    {
        Err(no_service())
    }
}

/// Which accounts [`AzureBackend::new`] takes: names of 3 to 24 small letters and digits.
pub proof fn accounts_that_are_taken(account: &str, r: Result<AzureBackend>)
    requires
        call_ensures(AzureBackend::new, (account,), r),
        encode_utf8(account@).len() <= usize::MAX,
    ensures
        r is Ok <==> 3 <= encode_utf8(account@).len() <= 24 && forall|i: int|
            0 <= i < account@.len() ==> 'a' <= #[trigger] account@[i] <= 'z' || '0' <= account@[i]
                <= '9',
        r is Ok ==> r->Ok_0@ == account@,
{
}

} // verus!

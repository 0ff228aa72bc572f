//! Encryption support for archives.
//!
//! Authenticated encryption for archive blocks using either AES-256-GCM or
//! ChaCha20-Poly1305. Each compressed block is encrypted individually, with a nonce
//! derived from the master nonce and the block's number. The key comes from the password
//! by Argon2id.

use crate::bytes::{
    be_bytes, is_rest_of, le_bytes, lemma_be_bytes_len, lemma_pow256_values, push_all,
    push_le, read_le, ByteReader,
};
use crate::error::{eof_model, same_bytes, AetherError, ErrorModel, Result};
pub use crate::format::{
    MAX_ARGON2_M_COST, MAX_ARGON2_P_COST, MAX_ARGON2_T_COST, MIN_ARGON2_M_COST,
    MIN_ARGON2_P_COST, MIN_ARGON2_T_COST,
};
use crate::format::ENCRYPTED_METADATA_BLOCK_ID;
use crate::hashing::{blake3_keyed_hash, blake3_keyed_of};
use crate::header::{lemma_field, number_at};
use crate::text::{append_decimal, decimal, text_around_numbers, text_with_number};
use aes_gcm::aead::generic_array::GenericArray;
use aes_gcm::aead::{Aead, KeyInit, Payload};
use subtle::ConstantTimeEq;
use vstd::prelude::*;
use vstd::slice::slice_subrange;
use vstd::string::*;

verus! {

/// Cipher algorithm identifier stored in the encryption header.
#[derive(Debug, Clone, Copy, PartialEq, Eq, Structural)]
pub enum CipherId {
    /// AES-256-GCM (hardware-accelerated on x86_64).
    Aes256Gcm,
    /// ChaCha20-Poly1305 (constant-time, preferred for ARM and embedded).
    ChaCha20Poly1305,
}

impl CipherId {
    /// The number stored for the cipher.
    pub open spec fn number(self) -> u8 {
        match self {
            CipherId::Aes256Gcm => 0,
            CipherId::ChaCha20Poly1305 => 1,
        }
    }

    /// The cipher with the stored number `v`, if there is one.
    pub open spec fn of_number(v: u8) -> Option<CipherId> {
        if v == 0 {
            Some(CipherId::Aes256Gcm)
        } else if v == 1 {
            Some(CipherId::ChaCha20Poly1305)
        } else {
            None
        }
    }

    /// The number stored in the encryption header for this cipher.
    pub fn to_u8(self) -> (v: u8)
        ensures
            v == self.number(),
    {
        match self {
            CipherId::Aes256Gcm => 0,
            CipherId::ChaCha20Poly1305 => 1,
        }
    }

    /// The cipher with the given number.
    pub fn from_u8(v: u8) -> (r: Result<CipherId>)
        ensures
            match r {
                Ok(c) => CipherId::of_number(v) == Some(c),
                Err(e) => CipherId::of_number(v) is None && e@ == ErrorModel::Decryption(
                    "Unknown cipher ID: "@ + decimal(v as nat),
                ),
            },
    {
        if v == 0 {
            Ok(CipherId::Aes256Gcm)
        } else if v == 1 {
            Ok(CipherId::ChaCha20Poly1305)
        } else {
            Err(AetherError::Decryption(text_with_number("Unknown cipher ID: ", v as u64)))
        }
    }
}

/// A cipher and its stored number belong to each other.
pub proof fn cipher_numbers_round_trip(c: CipherId, v: u8)
    ensures
        CipherId::of_number(c.number()) == Some(c),
        CipherId::of_number(v) matches Some(d) ==> d.number() == v,
{
}

/// Encryption header version.
pub const HEADER_VERSION: u8 = 1;

/// Size of the encryption header that follows the archive header.
pub const ENCRYPTION_HEADER_SIZE: usize = 90;

/// Nonce size of both ciphers (96 bits).
pub const NONCE_SIZE: usize = 12;

/// Authentication tag size (128 bits).
pub const TAG_SIZE: usize = 16;

/// Derived key size (256 bits).
pub const KEY_SIZE: usize = 32;

/// Salt size for Argon2id key derivation.
pub const SALT_SIZE: usize = 32;

/// Minimum password length for new encrypted archives, in bytes.
pub const MIN_PASSWORD_LEN: usize = 8;

/// Maximum plaintext size for a single block (1 GiB).
pub const MAX_BLOCK_PLAINTEXT_SIZE: usize = 1_073_741_824;

/// Default Argon2id memory cost in KiB (64 MiB).
pub const DEFAULT_ARGON2_M_COST: u32 = 65_536;

/// Default Argon2id iteration count.
pub const DEFAULT_ARGON2_T_COST: u32 = 3;

/// Default Argon2id parallelism.
pub const DEFAULT_ARGON2_P_COST: u32 = 4;

/// Domain separation text `AetherArch-password-verification-v1` of the verification tag.
pub const VERIFICATION_DOMAIN: [u8; 35] = [
    65, 101, 116, 104, 101, 114, 65, 114, 99, 104, 45, 112, 97, 115, 115, 119, 111, 114, 100, 45,
    118, 101, 114, 105, 102, 105, 99, 97, 116, 105, 111, 110, 45, 118, 49,
];

/// Domain separation text `AetherArch-verification-key-v1` of the verification sub-key.
pub const VERIFICATION_KEY_DOMAIN: [u8; 30] = [
    65, 101, 116, 104, 101, 114, 65, 114, 99, 104, 45, 118, 101, 114, 105, 102, 105, 99, 97, 116,
    105, 111, 110, 45, 107, 101, 121, 45, 118, 49,
];

/// Domain separation text `AetherArch-block-nonce-v1` of the nonces of blocks.
pub const NONCE_DOMAIN: [u8; 25] = [
    65, 101, 116, 104, 101, 114, 65, 114, 99, 104, 45, 98, 108, 111, 99, 107, 45, 110, 111, 110,
    99, 101, 45, 118, 49,
];

// Key derivation.

/// What is wrong with Argon2id parameters, if anything: below the minimum they allow
/// brute force, above the maximum they exhaust resources.
pub open spec fn argon2_fault(m_cost: u32, t_cost: u32, p_cost: u32) -> Option<Seq<char>> {
    if m_cost < MIN_ARGON2_M_COST {
        Some(cost_text("Argon2 m_cost "@, m_cost, " below minimum of "@, MIN_ARGON2_M_COST, " KiB"@))
    } else if m_cost > MAX_ARGON2_M_COST {
        Some(
            cost_text(
                "Argon2 m_cost "@,
                m_cost,
                " exceeds safety limit of "@,
                MAX_ARGON2_M_COST,
                " KiB"@,
            ),
        )
    } else if t_cost < MIN_ARGON2_T_COST {
        Some(cost_text("Argon2 t_cost "@, t_cost, " below minimum of "@, MIN_ARGON2_T_COST, ""@))
    } else if t_cost > MAX_ARGON2_T_COST {
        Some(
            cost_text(
                "Argon2 t_cost "@,
                t_cost,
                " exceeds safety limit of "@,
                MAX_ARGON2_T_COST,
                ""@,
            ),
        )
    } else if p_cost < MIN_ARGON2_P_COST {
        Some(cost_text("Argon2 p_cost "@, p_cost, " below minimum of "@, MIN_ARGON2_P_COST, ""@))
    } else if p_cost > MAX_ARGON2_P_COST {
        Some(
            cost_text(
                "Argon2 p_cost "@,
                p_cost,
                " exceeds safety limit of "@,
                MAX_ARGON2_P_COST,
                ""@,
            ),
        )
    } else {
        None
    }
}

/// The text of a parameter beyond a bound.
pub open spec fn cost_text(
    name: Seq<char>,
    cost: u32,
    relation: Seq<char>,
    bound: u32,
    unit: Seq<char>,
) -> Seq<char> {
    name + decimal(cost as nat) + relation + decimal(bound as nat) + unit
}

/// The error for a parameter beyond a bound.
fn cost_error(name: &str, cost: u32, relation: &str, bound: u32, unit: &str) -> (r: Result<()>)
    ensures
        r matches Err(e) && e@ == ErrorModel::Encryption(
            cost_text(name@, cost, relation@, bound, unit@),
        ),
{
    Err(
        AetherError::Encryption(
            text_around_numbers(name, cost as u64, relation, bound as u64, unit),
        ),
    )
}

/// Checks Argon2id parameters against the safety bounds.
pub fn validate_argon2_params(m_cost: u32, t_cost: u32, p_cost: u32) -> (r: Result<()>)
    ensures
        match (r, argon2_fault(m_cost, t_cost, p_cost)) {
            (Ok(()), None) => true,
            (Err(e), Some(text)) => e@ == ErrorModel::Encryption(text),
            _ => false,
        },
{
    if m_cost < MIN_ARGON2_M_COST {
        return cost_error("Argon2 m_cost ", m_cost, " below minimum of ", MIN_ARGON2_M_COST, " KiB");
    }
    if m_cost > MAX_ARGON2_M_COST {
        return cost_error(
            "Argon2 m_cost ",
            m_cost,
            " exceeds safety limit of ",
            MAX_ARGON2_M_COST,
            " KiB",
        );
    }
    if t_cost < MIN_ARGON2_T_COST {
        return cost_error("Argon2 t_cost ", t_cost, " below minimum of ", MIN_ARGON2_T_COST, "");
    }
    if t_cost > MAX_ARGON2_T_COST {
        return cost_error(
            "Argon2 t_cost ",
            t_cost,
            " exceeds safety limit of ",
            MAX_ARGON2_T_COST,
            "",
        );
    }
    if p_cost < MIN_ARGON2_P_COST {
        return cost_error("Argon2 p_cost ", p_cost, " below minimum of ", MIN_ARGON2_P_COST, "");
    }
    if p_cost > MAX_ARGON2_P_COST {
        return cost_error(
            "Argon2 p_cost ",
            p_cost,
            " exceeds safety limit of ",
            MAX_ARGON2_P_COST,
            "",
        );
    }
    Ok(())
}

/// Checks that a password meets the minimum for new encrypted archives: 8 bytes. Opening
/// an archive does not ask for it.
pub fn validate_encryption_password(password: &[u8]) -> (r: Result<()>)
    ensures
        match r {
            Ok(()) => password@.len() >= MIN_PASSWORD_LEN,
            Err(e) => password@.len() < MIN_PASSWORD_LEN && e@ == ErrorModel::Encryption(
                if password@.len() == 0 {
                    "Password cannot be empty"@
                } else {
                    "Password too short ("@ + decimal(password@.len()) + " bytes, minimum "@
                        + decimal(MIN_PASSWORD_LEN as nat) + ")"@
                },
            ),
        },
{
    if password.len() == 0 {
        return Err(AetherError::Encryption("Password cannot be empty".to_string()));
    }
    if password.len() < MIN_PASSWORD_LEN {
        return Err(
            AetherError::Encryption(
                text_around_numbers(
                    "Password too short (",
                    password.len() as u64,
                    " bytes, minimum ",
                    MIN_PASSWORD_LEN as u64,
                    ")",
                ),
            ),
        );
    }
    Ok(())
}

/// A derived encryption key. It has no `Clone`, so that no copies are made by accident,
/// and is erased when dropped.
pub struct DerivedKey {
    key: [u8; 32],
}

/// Overwrites the bytes with zeros by `zeroize::Zeroize::zeroize`.
#[verifier::external_body]
fn erase(bytes: &mut [u8])
    ensures
        final(bytes)@.len() == old(bytes)@.len(),
        forall|i: int| 0 <= i < final(bytes)@.len() ==> final(bytes)@[i] == 0,
    opens_invariants none
    no_unwind
{
    zeroize::Zeroize::zeroize(bytes)
}

impl Drop for DerivedKey {
    fn drop(&mut self)
        opens_invariants none
        no_unwind
    {
        erase(&mut self.key);
    }
}

impl View for DerivedKey {
    type V = Seq<u8>;

    closed spec fn view(&self) -> Seq<u8> {
        self.key@
    }
}

impl DerivedKey {
    /// The key itself.
    pub fn as_bytes(&self) -> (key: &[u8; 32])
        ensures
            key@ == self@,
    {
        &self.key
    }

    /// A description that does not show the key.
    pub fn debug_text(&self) -> (s: String)
        ensures
            s@ == "DerivedKey([REDACTED])"@,
    {
        "DerivedKey([REDACTED])".to_string()
    }
}

/// The key that Argon2id, version 0x13, makes of a password and a salt.
pub uninterp spec fn argon2id_key(
    password: Seq<u8>,
    salt: Seq<u8>,
    m_cost: u32,
    t_cost: u32,
    p_cost: u32,
) -> Seq<u8>;

/// Derives 32 bytes by `argon2::Argon2::hash_password_into` with Argon2id in version 0x13
/// and the parameters that `argon2::Params::new` takes. Those within the bounds here are
/// accepted, so the one error left is that the password has 4 GiB or more.
#[verifier::external_body]
fn argon2id(password: &[u8], salt: &[u8; 32], m_cost: u32, t_cost: u32, p_cost: u32) -> (r:
    std::result::Result<[u8; 32], String>)
    requires
        1 <= p_cost <= 16,
        t_cost >= 1,
        128 <= m_cost <= MAX_ARGON2_M_COST,
    ensures
        match r {
            Ok(key) => password@.len() <= 0xFFFF_FFFF && key@ == argon2id_key(
                password@,
                salt@,
                m_cost,
                t_cost,
                p_cost,
            ),
            Err(text) => password@.len() > 0xFFFF_FFFF && text@ == "password is too long"@,
        },
{
    let params = argon2::Params::new(m_cost, t_cost, p_cost, Some(32)).map_err(|e| e.to_string())?;
    let hasher = argon2::Argon2::new(argon2::Algorithm::Argon2id, argon2::Version::V0x13, params);
    let mut key = [0u8; 32];
    hasher.hash_password_into(password, salt, &mut key).map_err(|e| e.to_string())?;
    Ok(key)
}

/// Derives an encryption key from a password using Argon2id.
///
/// The length of the password is not checked here: see [`validate_encryption_password`].
pub fn derive_key(
    password: &[u8],
    salt: &[u8; 32],
    m_cost: u32,
    t_cost: u32,
    p_cost: u32,
) -> (r: Result<DerivedKey>)
    ensures
        match argon2_fault(m_cost, t_cost, p_cost) {
            Some(text) => r matches Err(e) && e@ == ErrorModel::Encryption(text),
            None => match r {
                Ok(key) => password@.len() <= 0xFFFF_FFFF && key@ == argon2id_key(
                    password@,
                    salt@,
                    m_cost,
                    t_cost,
                    p_cost,
                ),
                Err(e) => password@.len() > 0xFFFF_FFFF && e@ == ErrorModel::Encryption(
                    "Key derivation failed: "@ + "password is too long"@,
                ),
            },
        },
{
    match validate_argon2_params(m_cost, t_cost, p_cost) {
        Ok(()) => {},
        Err(e) => {
            return Err(e);
        },
    }
    match argon2id(password, salt, m_cost, t_cost, p_cost) {
        Ok(key) => Ok(DerivedKey { key }),
        Err(text) => {
            let mut message = String::from_str("Key derivation failed: ");
            message.append(text.as_str());
            Err(AetherError::Encryption(message))
        },
    }
}

// Password verification.

/// The verification tag of a key: a hash under a sub-key, which is itself a hash under
/// the key, so that the tag tells nothing about the key.
pub open spec fn verification_tag_of(key: Seq<u8>) -> Seq<u8> {
    blake3_keyed_of(
        blake3_keyed_of(key, VERIFICATION_KEY_DOMAIN@)@,
        VERIFICATION_DOMAIN@,
    )@
}

/// Computes the password verification tag of a derived key.
pub fn compute_verification_tag(key: &DerivedKey) -> (tag: [u8; 32])
    ensures
        tag@ == verification_tag_of(key@),
{
    let verification_key = blake3_keyed_hash(key.as_bytes(), VERIFICATION_KEY_DOMAIN.as_slice());
    blake3_keyed_hash(&verification_key, VERIFICATION_DOMAIN.as_slice())
}

/// Compares in a time that does not depend on the contents, by
/// `subtle::ConstantTimeEq::ct_eq` on slices: equal lengths and equal bytes.
#[verifier::external_body]
fn same_in_constant_time(a: &[u8], b: &[u8]) -> (r: bool)
    ensures
        r == (a@ == b@),
{
    bool::from(a.ct_eq(b))
}

// Nonces.

/// The nonce of a block: the first 12 bytes of a hash of its number under the master
/// nonce, padded to a key.
pub open spec fn block_nonce(master_nonce: Seq<u8>, block_id: u32) -> Seq<u8> {
    blake3_keyed_of(
        master_nonce + Seq::new(20, |i: int| 0u8),
        NONCE_DOMAIN@ + be_bytes(block_id as nat, 4),
    )@.take(12)
}

/// The four bytes of `n`, the most significant first.
fn be_four(n: u32) -> (b: [u8; 4])
    ensures
        b@ == be_bytes(n as nat, 4),
{
    proof {
        reveal_with_fuel(be_bytes, 5);
        lemma_be_bytes_len(n as nat, 4);
    }
    let b: [u8; 4] = [
        (n / 0x100_0000) as u8,
        (n / 0x1_0000 % 256) as u8,
        (n / 256 % 256) as u8,
        (n % 256) as u8,
    ];
    assert(b@ =~= be_bytes(n as nat, 4));
    b
}

/// The first 12 bytes of `s`.
fn twelve_of(s: &[u8]) -> (a: [u8; 12])
    requires
        s@.len() >= 12,
    ensures
        a@ == s@.take(12),
{
    let a: [u8; 12] = [
        s[0],
        s[1],
        s[2],
        s[3],
        s[4],
        s[5],
        s[6],
        s[7],
        s[8],
        s[9],
        s[10],
        s[11],
    ];
    assert(a@ =~= s@.take(12));
    a
}

/// Derives the nonce of a block from the master nonce and the number of the block.
pub fn derive_block_nonce(master_nonce: &[u8; 12], block_id: u32) -> (nonce: [u8; 12])
    ensures
        nonce@ == block_nonce(master_nonce@, block_id),
{
    let mut key: [u8; 32] = [0;32];
    let mut i: usize = 0;
    while i < 12
        invariant
            i <= 12,
            forall|k: int| 0 <= k < i ==> key@[k] == master_nonce@[k],
            forall|k: int| i <= k < 32 ==> key@[k] == 0,
        decreases 12 - i,
    {
        key[i] = master_nonce[i];
        i = i + 1;
    }
    let mut input: Vec<u8> = Vec::new();
    push_all(&mut input, NONCE_DOMAIN.as_slice());
    push_all(&mut input, be_four(block_id).as_slice());
    proof {
        assert(key@ =~= master_nonce@ + Seq::new(20, |i: int| 0u8));
        assert(input@ =~= NONCE_DOMAIN@ + be_bytes(block_id as nat, 4));
    }
    let hash = blake3_keyed_hash(&key, input.as_slice());
    twelve_of(hash.as_slice())
}

// Encryption header.

/// Encryption metadata stored in the archive right after its header. It is erased when
/// dropped.
pub struct EncryptionHeader {
    /// Header format version (currently [`HEADER_VERSION`]).
    pub version: u8,
    /// Which cipher algorithm to use.
    pub cipher_id: CipherId,
    /// Random salt for Argon2id key derivation.
    pub salt: [u8; 32],
    /// Argon2id memory cost in KiB.
    pub m_cost: u32,
    /// Argon2id iteration count.
    pub t_cost: u32,
    /// Argon2id parallelism lanes.
    pub p_cost: u32,
    /// Master nonce, from which the nonces of blocks are derived.
    pub master_nonce: [u8; 12],
    /// Password verification tag.
    pub verification_tag: [u8; 32],
}

/// The value of an [`EncryptionHeader`].
pub struct EncryptionHeaderModel {
    pub version: u8,
    pub cipher_id: CipherId,
    pub salt: Seq<u8>,
    pub m_cost: u32,
    pub t_cost: u32,
    pub p_cost: u32,
    pub master_nonce: Seq<u8>,
    pub verification_tag: Seq<u8>,
}

impl View for EncryptionHeader {
    type V = EncryptionHeaderModel;

    open spec fn view(&self) -> EncryptionHeaderModel {
        EncryptionHeaderModel {
            version: self.version,
            cipher_id: self.cipher_id,
            salt: self.salt@,
            m_cost: self.m_cost,
            t_cost: self.t_cost,
            p_cost: self.p_cost,
            master_nonce: self.master_nonce@,
            verification_tag: self.verification_tag@,
        }
    }
}

impl Drop for EncryptionHeader {
    fn drop(&mut self)
        opens_invariants none
        no_unwind
    {
        erase(&mut self.salt);
        erase(&mut self.master_nonce);
        erase(&mut self.verification_tag);
    }
}

impl Clone for EncryptionHeader {
    fn clone(&self) -> (r: EncryptionHeader)
        ensures
            r@ == self@,
    {
        EncryptionHeader {
            version: self.version,
            cipher_id: self.cipher_id,
            salt: self.salt,
            m_cost: self.m_cost,
            t_cost: self.t_cost,
            p_cost: self.p_cost,
            master_nonce: self.master_nonce,
            verification_tag: self.verification_tag,
        }
    }
}

/// The name of a cipher.
pub open spec fn cipher_text(c: CipherId) -> Seq<char> {
    match c {
        CipherId::Aes256Gcm => "Aes256Gcm"@,
        CipherId::ChaCha20Poly1305 => "ChaCha20Poly1305"@,
    }
}

fn cipher_name(c: CipherId) -> (s: &'static str)
    ensures
        s@ == cipher_text(c),
{
    match c {
        CipherId::Aes256Gcm => "Aes256Gcm",
        CipherId::ChaCha20Poly1305 => "ChaCha20Poly1305",
    }
}

impl EncryptionHeaderModel {
    /// The header as stored.
    pub open spec fn bytes(self) -> Seq<u8> {
        seq![self.version, self.cipher_id.number()] + self.salt + le_bytes(self.m_cost as nat, 4)
            + le_bytes(self.t_cost as nat, 4) + le_bytes(self.p_cost as nat, 4)
            + self.master_nonce + self.verification_tag
    }

    /// What reading a header from `s` gives.
    pub open spec fn read_outcome(s: Seq<u8>) -> std::result::Result<
        EncryptionHeaderModel,
        ErrorModel,
    > {
        let m_cost = number_at(s, 34, 4) as u32;
        let t_cost = number_at(s, 38, 4) as u32;
        let p_cost = number_at(s, 42, 4) as u32;
        if s.len() < 1 {
            Err(eof_model())
        } else if s[0] != HEADER_VERSION {
            Err(
                ErrorModel::Decryption(
                    "Unsupported encryption header version "@ + decimal(s[0] as nat)
                        + " (expected "@ + decimal(HEADER_VERSION as nat) + ")"@,
                ),
            )
        } else if s.len() < 2 {
            Err(eof_model())
        } else {
            match CipherId::of_number(s[1]) {
                None => Err(
                    ErrorModel::Decryption("Unknown cipher ID: "@ + decimal(s[1] as nat)),
                ),
                Some(cipher_id) => if s.len() < 90 {
                    Err(eof_model())
                } else {
                    match argon2_fault(m_cost, t_cost, p_cost) {
                        Some(text) => Err(ErrorModel::Encryption(text)),
                        None => Ok(
                            EncryptionHeaderModel {
                                version: HEADER_VERSION,
                                cipher_id,
                                salt: s.subrange(2, 34),
                                m_cost,
                                t_cost,
                                p_cost,
                                master_nonce: s.subrange(46, 58),
                                verification_tag: s.subrange(58, 90),
                            },
                        ),
                    }
                },
            }
        }
    }

    /// A description that does not show the salt, the nonce and the tag.
    pub open spec fn debug_text(self) -> Seq<char> {
        "EncryptionHeader { version: "@ + decimal(self.version as nat) + ", cipher_id: "@
            + cipher_text(self.cipher_id) + ", salt: \"[REDACTED]\", m_cost: "@ + decimal(
            self.m_cost as nat,
        ) + ", t_cost: "@ + decimal(self.t_cost as nat) + ", p_cost: "@ + decimal(
            self.p_cost as nat,
        ) + ", master_nonce: \"[REDACTED]\", verification_tag: \"[REDACTED]\" }"@
    }
}

/// The 32 bytes of `s` from `from` on.
fn thirty_two_of(s: &[u8], from: usize) -> (a: [u8; 32])
    requires
        from + 32 <= s@.len(),
    ensures
        a@ == s@.subrange(from as int, from + 32),
{
    let mut a: [u8; 32] = [0;32];
    let mut i: usize = 0;
    assert(s.len() == s@.len());
    while i < 32
        invariant
            i <= 32,
            from + 32 <= s@.len() <= usize::MAX,
            forall|k: int| 0 <= k < i ==> a@[k] == s@[from + k],
        decreases 32 - i,
    {
        a[i] = s[from + i];
        i = i + 1;
    }
    assert(a@ =~= s@.subrange(from as int, from + 32));
    a
}

impl EncryptionHeader {
    /// Appends the header: 90 bytes.
    pub fn write_to(&self, w: &mut Vec<u8>) -> (r: Result<()>)
        ensures
            r is Ok,
            final(w)@ == old(w)@ + self@.bytes(),
    {
        w.push(self.version);
        w.push(self.cipher_id.to_u8());
        push_all(w, self.salt.as_slice());
        push_le(w, self.m_cost as u64, 4);
        push_le(w, self.t_cost as u64, 4);
        push_le(w, self.p_cost as u64, 4);
        push_all(w, self.master_nonce.as_slice());
        push_all(w, self.verification_tag.as_slice());
        assert(w@ =~= old(w)@ + self@.bytes());
        Ok(())
    }

    /// Reads a header, checking its version and the Argon2id parameters before any key
    /// derivation is attempted.
    pub fn read_from(r: &mut ByteReader) -> (result: Result<EncryptionHeader>)
        ensures
            match (result, EncryptionHeaderModel::read_outcome(old(r)@)) {
                (Ok(h), Ok(m)) => h@ == m && final(r)@ == old(r)@.skip(90),
                (Err(e), Err(m)) => e@ == m,
                _ => false,
            },
            is_rest_of(final(r)@, old(r)@),
    {
        let ghost s = r@;
        proof {
            lemma_pow256_values();
            assert(s.skip(0) =~= s);
        }
        let version: u8 = match r.take_u8() {
            Ok(v) => v,
            Err(e) => {
                return Err(e);
            },
        };
        if version != HEADER_VERSION {
            return Err(
                AetherError::Decryption(
                    text_around_numbers(
                        "Unsupported encryption header version ",
                        version as u64,
                        " (expected ",
                        HEADER_VERSION as u64,
                        ")",
                    ),
                ),
            );
        }
        let cipher: u8 = match r.take_u8() {
            Ok(v) => v,
            Err(e) => {
                return Err(e);
            },
        };
        assert(s.skip(1).skip(1) =~= s.skip(2));
        let cipher_id = match CipherId::from_u8(cipher) {
            Ok(c) => c,
            Err(e) => {
                return Err(e);
            },
        };
        let rest = match r.take_bytes(88) {
            Ok(v) => v,
            Err(e) => {
                return Err(e);
            },
        };
        proof {
            assert(s.skip(2).skip(88) =~= s.skip(90));
            assert(rest@.subrange(0, 32) =~= s.subrange(2, 34));
            assert(rest@.subrange(32, 36) =~= s.subrange(34, 38));
            assert(rest@.subrange(36, 40) =~= s.subrange(38, 42));
            assert(rest@.subrange(40, 44) =~= s.subrange(42, 46));
            assert(rest@.subrange(44, 88).take(12) =~= s.subrange(46, 58));
            assert(rest@.subrange(56, 88) =~= s.subrange(58, 90));
        }
        let m_cost: u32 = read_le(rest, 32, 4) as u32;
        let t_cost: u32 = read_le(rest, 36, 4) as u32;
        let p_cost: u32 = read_le(rest, 40, 4) as u32;
        match validate_argon2_params(m_cost, t_cost, p_cost) {
            Ok(()) => {},
            Err(e) => {
                return Err(e);
            },
        }
        Ok(
            EncryptionHeader {
                version,
                cipher_id,
                salt: thirty_two_of(rest, 0),
                m_cost,
                t_cost,
                p_cost,
                master_nonce: twelve_of(slice_subrange(rest, 44, 88)),
                verification_tag: thirty_two_of(rest, 56),
            },
        )
    }

    /// Checks a derived key against the verification tag, before any block is decrypted.
    /// The comparison takes constant time.
    pub fn verify_password(&self, key: &DerivedKey) -> (r: Result<()>)
        ensures
            match r {
                Ok(()) => self@.verification_tag == verification_tag_of(key@),
                Err(e) => self@.verification_tag != verification_tag_of(key@) && e@
                    == ErrorModel::PasswordVerificationFailed,
            },
    {
        let expected = compute_verification_tag(key);
        if !same_in_constant_time(self.verification_tag.as_slice(), expected.as_slice()) {
            return Err(AetherError::PasswordVerificationFailed);
        }
        Ok(())
    }

    /// A description that does not show the salt, the nonce and the tag.
    pub fn debug_text(&self) -> (s: String)
        ensures
            s@ == self@.debug_text(),
    {
        let mut s = String::from_str("EncryptionHeader { version: ");
        append_decimal(&mut s, self.version as u64);
        s.append(", cipher_id: ");
        s.append(cipher_name(self.cipher_id));
        s.append(", salt: \"[REDACTED]\", m_cost: ");
        append_decimal(&mut s, self.m_cost as u64);
        s.append(", t_cost: ");
        append_decimal(&mut s, self.t_cost as u64);
        s.append(", p_cost: ");
        append_decimal(&mut s, self.p_cost as u64);
        s.append(", master_nonce: \"[REDACTED]\", verification_tag: \"[REDACTED]\" }");
        s
    }
}

/// A header of the current version with accepted parameters is read back from the 90
/// bytes written for it, whatever follows them.
pub proof fn encryption_header_round_trips(h: EncryptionHeaderModel, tail: Seq<u8>)
    requires
        h.version == HEADER_VERSION,
        h.salt.len() == 32,
        h.master_nonce.len() == 12,
        h.verification_tag.len() == 32,
        argon2_fault(h.m_cost, h.t_cost, h.p_cost) is None,
    ensures
        h.bytes().len() == ENCRYPTION_HEADER_SIZE,
        EncryptionHeaderModel::read_outcome(h.bytes() + tail) == Ok::<
            EncryptionHeaderModel,
            ErrorModel,
        >(h),
{
    lemma_field(h.m_cost as nat, 4);
    lemma_field(h.t_cost as nat, 4);
    lemma_field(h.p_cost as nat, 4);
    let s = h.bytes() + tail;
    assert(s[0] == h.version);
    assert(s[1] == h.cipher_id.number());
    assert(s.subrange(2, 34) =~= h.salt);
    assert(s.subrange(34, 38) =~= le_bytes(h.m_cost as nat, 4));
    assert(s.subrange(38, 42) =~= le_bytes(h.t_cost as nat, 4));
    assert(s.subrange(42, 46) =~= le_bytes(h.p_cost as nat, 4));
    assert(s.subrange(46, 58) =~= h.master_nonce);
    assert(s.subrange(58, 90) =~= h.verification_tag);
}

// Block encryption.

/// What is authenticated along with a block: its cipher and its number, so that blocks
/// cannot change places or ciphers.
pub open spec fn block_aad(cipher_id: CipherId, block_id: u32) -> Seq<u8> {
    seq![cipher_id.number()] + be_bytes(block_id as nat, 4)
}

fn build_block_aad(cipher_id: CipherId, block_id: u32) -> (aad: [u8; 5])
    ensures
        aad@ == block_aad(cipher_id, block_id),
{
    let b = be_four(block_id);
    let aad: [u8; 5] = [cipher_id.to_u8(), b[0], b[1], b[2], b[3]];
    assert(aad@ =~= block_aad(cipher_id, block_id));
    aad
}

/// The text of a block that is too large.
pub open spec fn plaintext_size_text(n: nat) -> Seq<char> {
    "Block plaintext size "@ + decimal(n) + " exceeds maximum of "@ + decimal(
        MAX_BLOCK_PLAINTEXT_SIZE as nat,
    ) + " bytes"@
}

fn validate_plaintext_size(len: usize) -> (r: Result<()>)
    ensures
        match r {
            Ok(()) => len <= MAX_BLOCK_PLAINTEXT_SIZE,
            Err(e) => len > MAX_BLOCK_PLAINTEXT_SIZE && e@ == ErrorModel::Encryption(
                plaintext_size_text(len as nat),
            ),
        },
{
    if len > MAX_BLOCK_PLAINTEXT_SIZE {
        return Err(
            AetherError::Encryption(
                text_around_numbers(
                    "Block plaintext size ",
                    len as u64,
                    " exceeds maximum of ",
                    MAX_BLOCK_PLAINTEXT_SIZE as u64,
                    " bytes",
                ),
            ),
        );
    }
    Ok(())
}

/// The AES-256-GCM ciphertext of `plaintext`, with the tag behind it.
pub uninterp spec fn aes_gcm_sealed(
    key: Seq<u8>,
    nonce: Seq<u8>,
    aad: Seq<u8>,
    plaintext: Seq<u8>,
) -> Seq<u8>;

/// The plaintext of an AES-256-GCM ciphertext with its tag, where the tag is right.
pub uninterp spec fn aes_gcm_opened(
    key: Seq<u8>,
    nonce: Seq<u8>,
    aad: Seq<u8>,
    sealed: Seq<u8>,
) -> Option<Seq<u8>>;

/// The ChaCha20-Poly1305 ciphertext of `plaintext`, with the tag behind it.
pub uninterp spec fn chacha_sealed(
    key: Seq<u8>,
    nonce: Seq<u8>,
    aad: Seq<u8>,
    plaintext: Seq<u8>,
) -> Seq<u8>;

/// The plaintext of a ChaCha20-Poly1305 ciphertext with its tag, where the tag is right.
pub uninterp spec fn chacha_opened(
    key: Seq<u8>,
    nonce: Seq<u8>,
    aad: Seq<u8>,
    sealed: Seq<u8>,
) -> Option<Seq<u8>>;

/// Encrypts by `aes_gcm::Aes256Gcm`, through `aead::Aead::encrypt`, which fails only
/// beyond 64 GiB. The result is the ciphertext and a tag of 16 bytes; decrypting it under
/// the same key, nonce and associated data gives the plaintext.
#[verifier::external_body]
fn seal_aes_gcm(key: &[u8; 32], nonce: &[u8; 12], plaintext: &[u8], aad: &[u8]) -> (r:
    std::result::Result<Vec<u8>, String>)
    requires
        plaintext@.len() <= MAX_BLOCK_PLAINTEXT_SIZE,
        aad@.len() <= MAX_BLOCK_PLAINTEXT_SIZE,
    ensures
        match r {
            Ok(sealed) => sealed@ == aes_gcm_sealed(key@, nonce@, aad@, plaintext@) && sealed@.len()
                == plaintext@.len() + 16 && aes_gcm_opened(key@, nonce@, aad@, sealed@) == Some(
                plaintext@,
            ),
            Err(_) => false,
        },
{
    let cipher = aes_gcm::Aes256Gcm::new(GenericArray::from_slice(key));
    cipher
        .encrypt(GenericArray::from_slice(nonce), Payload { msg: plaintext, aad })
        .map_err(|e| e.to_string())
}

/// Decrypts by `aes_gcm::Aes256Gcm`, through `aead::Aead::decrypt`.
#[verifier::external_body]
fn open_aes_gcm(key: &[u8; 32], nonce: &[u8; 12], sealed: &[u8], aad: &[u8]) -> (r: Option<
    Vec<u8>,
>)
    ensures
        match r {
            Some(plaintext) => aes_gcm_opened(key@, nonce@, aad@, sealed@) == Some(plaintext@),
            None => aes_gcm_opened(key@, nonce@, aad@, sealed@) is None,
        },
{
    let cipher = aes_gcm::Aes256Gcm::new(GenericArray::from_slice(key));
    cipher.decrypt(GenericArray::from_slice(nonce), Payload { msg: sealed, aad }).ok()
}

/// Encrypts by `chacha20poly1305::ChaCha20Poly1305`, through `aead::Aead::encrypt`, which
/// fails only near 256 GiB. The result is the ciphertext and a tag of 16 bytes; decrypting
/// it under the same key, nonce and associated data gives the plaintext.
#[verifier::external_body]
fn seal_chacha(key: &[u8; 32], nonce: &[u8; 12], plaintext: &[u8], aad: &[u8]) -> (r:
    std::result::Result<Vec<u8>, String>)
    requires
        plaintext@.len() <= MAX_BLOCK_PLAINTEXT_SIZE,
        aad@.len() <= MAX_BLOCK_PLAINTEXT_SIZE,
    ensures
        match r {
            Ok(sealed) => sealed@ == chacha_sealed(key@, nonce@, aad@, plaintext@) && sealed@.len()
                == plaintext@.len() + 16 && chacha_opened(key@, nonce@, aad@, sealed@) == Some(
                plaintext@,
            ),
            Err(_) => false,
        },
{
    let cipher = chacha20poly1305::ChaCha20Poly1305::new(GenericArray::from_slice(key));
    cipher
        .encrypt(GenericArray::from_slice(nonce), Payload { msg: plaintext, aad })
        .map_err(|e| e.to_string())
}

/// Decrypts by `chacha20poly1305::ChaCha20Poly1305`, through `aead::Aead::decrypt`.
#[verifier::external_body]
fn open_chacha(key: &[u8; 32], nonce: &[u8; 12], sealed: &[u8], aad: &[u8]) -> (r: Option<
    Vec<u8>,
>)
    ensures
        match r {
            Some(plaintext) => chacha_opened(key@, nonce@, aad@, sealed@) == Some(plaintext@),
            None => chacha_opened(key@, nonce@, aad@, sealed@) is None,
        },
{
    let cipher = chacha20poly1305::ChaCha20Poly1305::new(GenericArray::from_slice(key));
    cipher.decrypt(GenericArray::from_slice(nonce), Payload { msg: sealed, aad }).ok()
}

/// The ciphertext of `plaintext` under a cipher, with the tag behind it.
pub open spec fn sealed_by(
    cipher_id: CipherId,
    key: Seq<u8>,
    nonce: Seq<u8>,
    aad: Seq<u8>,
    plaintext: Seq<u8>,
) -> Seq<u8> {
    match cipher_id {
        CipherId::Aes256Gcm => aes_gcm_sealed(key, nonce, aad, plaintext),
        CipherId::ChaCha20Poly1305 => chacha_sealed(key, nonce, aad, plaintext),
    }
}

/// The plaintext of a ciphertext under a cipher, where the tag is right.
pub open spec fn opened_by(
    cipher_id: CipherId,
    key: Seq<u8>,
    nonce: Seq<u8>,
    aad: Seq<u8>,
    sealed: Seq<u8>,
) -> Option<Seq<u8>> {
    match cipher_id {
        CipherId::Aes256Gcm => aes_gcm_opened(key, nonce, aad, sealed),
        CipherId::ChaCha20Poly1305 => chacha_opened(key, nonce, aad, sealed),
    }
}

/// The text of a block whose tag is wrong.
pub open spec fn forged_text(cipher_id: CipherId) -> Seq<char> {
    match cipher_id {
        CipherId::Aes256Gcm =>
            "AES-GCM authentication failed: wrong password or corrupted/tampered data"@,
        CipherId::ChaCha20Poly1305 =>
            "ChaCha20-Poly1305 authentication failed: wrong password or corrupted/tampered data"@,
    }
}

/// What encrypting a block gives: its nonce, then the ciphertext with the tag.
pub open spec fn encrypt_outcome(
    cipher_id: CipherId,
    key: Seq<u8>,
    master_nonce: Seq<u8>,
    block_id: u32,
    plaintext: Seq<u8>,
) -> std::result::Result<Seq<u8>, ErrorModel> {
    let nonce = block_nonce(master_nonce, block_id);
    if plaintext.len() > MAX_BLOCK_PLAINTEXT_SIZE {
        Err(ErrorModel::Encryption(plaintext_size_text(plaintext.len())))
    } else {
        Ok(nonce + sealed_by(cipher_id, key, nonce, block_aad(cipher_id, block_id), plaintext))
    }
}

/// What decrypting a block gives, where `opened` is what its ciphertext opens to: the
/// stored nonce must be that of the block, and the tag right.
pub open spec fn decrypt_outcome_for(
    cipher_id: CipherId,
    master_nonce: Seq<u8>,
    block_id: u32,
    encrypted: Seq<u8>,
    opened: Option<Seq<u8>>,
) -> std::result::Result<Seq<u8>, ErrorModel> {
    if encrypted.len() < NONCE_SIZE + TAG_SIZE {
        Err(ErrorModel::Decryption("Encrypted block too small (missing nonce or tag)"@))
    } else if encrypted.take(12) != block_nonce(master_nonce, block_id) {
        Err(ErrorModel::NonceMismatch { block_id })
    } else {
        match opened {
            Some(plaintext) => Ok(plaintext),
            None => Err(ErrorModel::Decryption(forged_text(cipher_id))),
        }
    }
}

/// What decrypting a block gives.
pub open spec fn decrypt_outcome(
    cipher_id: CipherId,
    key: Seq<u8>,
    master_nonce: Seq<u8>,
    block_id: u32,
    encrypted: Seq<u8>,
) -> std::result::Result<Seq<u8>, ErrorModel> {
    let aad = block_aad(cipher_id, block_id);
    decrypt_outcome_for(
        cipher_id,
        master_nonce,
        block_id,
        encrypted,
        opened_by(cipher_id, key, encrypted.take(12), aad, encrypted.skip(12)),
    )
}

/// Encrypts a block payload using the specified cipher. The result holds the nonce, the
/// ciphertext and the tag, and decrypts to the payload.
pub fn encrypt_block(
    cipher_id: CipherId,
    key: &[u8; 32],
    master_nonce: &[u8; 12],
    block_id: u32,
    plaintext: &[u8],
) -> (r: Result<Vec<u8>>)
    ensures
        same_bytes(r, encrypt_outcome(cipher_id, key@, master_nonce@, block_id, plaintext@)),
        r matches Ok(encrypted) ==> encrypted@.len() == plaintext@.len() + 28 && decrypt_outcome(
            cipher_id,
            key@,
            master_nonce@,
            block_id,
            encrypted@,
        ) == Ok::<Seq<u8>, ErrorModel>(plaintext@),
{
    match validate_plaintext_size(plaintext.len()) {
        Ok(()) => {},
        Err(e) => {
            return Err(e);
        },
    }
    let nonce = derive_block_nonce(master_nonce, block_id);
    let aad = build_block_aad(cipher_id, block_id);
    let sealed = match cipher_id {
        CipherId::Aes256Gcm => match seal_aes_gcm(key, &nonce, plaintext, aad.as_slice()) {
            Ok(v) => v,
            Err(text) => {
                return Err(prefixed_error("AES-GCM encrypt failed: ", text.as_str()));
            },
        },
        CipherId::ChaCha20Poly1305 => match seal_chacha(key, &nonce, plaintext, aad.as_slice()) {
            Ok(v) => v,
            Err(text) => {
                return Err(prefixed_error("ChaCha20 encrypt failed: ", text.as_str()));
            },
        },
    };
    let mut out: Vec<u8> = Vec::new();
    push_all(&mut out, nonce.as_slice());
    push_all(&mut out, sealed.as_slice());
    proof {
        assert(out@ =~= nonce@ + sealed@);
        assert(out@.take(12) =~= nonce@);
        assert(out@.skip(12) =~= sealed@);
    }
    Ok(out)
}

fn prefixed_error(prefix: &str, text: &str) -> (e: AetherError)
    ensures
        e@ == ErrorModel::Encryption(prefix@ + text@),
{
    let mut message = String::from_str(prefix);
    message.append(text);
    AetherError::Encryption(message)
}

/// Takes over what the ciphertext of a block opened to.
pub fn accept_opened(cipher_id: CipherId, opened: Option<Vec<u8>>) -> (r: Result<Vec<u8>>)
    ensures
        match opened {
            Some(plaintext) => r matches Ok(v) && v@ == plaintext@,
            None => r matches Err(e) && e@ == ErrorModel::Decryption(forged_text(cipher_id)),
        },
{
    match opened {
        Some(plaintext) => Ok(plaintext),
        None => Err(
            AetherError::Decryption(
                match cipher_id {
                    CipherId::Aes256Gcm =>
                        "AES-GCM authentication failed: wrong password or corrupted/tampered data".to_string(),
                    CipherId::ChaCha20Poly1305 =>
                        "ChaCha20-Poly1305 authentication failed: wrong password or corrupted/tampered data".to_string(),
                },
            ),
        ),
    }
}

/// Decrypts a block payload using the specified cipher. The stored nonce is held against
/// the one that belongs to the block, in constant time, before anything is decrypted.
pub fn decrypt_block(
    cipher_id: CipherId,
    key: &[u8; 32],
    master_nonce: &[u8; 12],
    block_id: u32,
    encrypted: &[u8],
) -> (r: Result<Vec<u8>>)
    ensures
        same_bytes(r, decrypt_outcome(cipher_id, key@, master_nonce@, block_id, encrypted@)),
{
    if encrypted.len() < NONCE_SIZE + TAG_SIZE {
        return Err(
            AetherError::Decryption(
                "Encrypted block too small (missing nonce or tag)".to_string(),
            ),
        );
    }
    let stored_nonce = twelve_of(encrypted);
    let expected_nonce = derive_block_nonce(master_nonce, block_id);
    if !same_in_constant_time(stored_nonce.as_slice(), expected_nonce.as_slice()) {
        return Err(AetherError::NonceMismatch { block_id });
    }
    let sealed = slice_subrange(encrypted, 12, encrypted.len());
    assert(sealed@ =~= encrypted@.skip(12));
    let aad = build_block_aad(cipher_id, block_id);
    let opened = match cipher_id {
        CipherId::Aes256Gcm => open_aes_gcm(key, &stored_nonce, sealed, aad.as_slice()),
        CipherId::ChaCha20Poly1305 => open_chacha(key, &stored_nonce, sealed, aad.as_slice()),
    };
    accept_opened(cipher_id, opened)
}

// Cryptor.

/// A cipher with its key and master nonce, for many blocks. Key and nonce are erased when
/// dropped.
pub struct BlockCryptor {
    cipher_id: CipherId,
    key: [u8; 32],
    master_nonce: [u8; 12],
}

/// The value of a [`BlockCryptor`].
pub struct CryptorModel {
    pub cipher_id: CipherId,
    pub key: Seq<u8>,
    pub master_nonce: Seq<u8>,
}

impl View for BlockCryptor {
    type V = CryptorModel;

    closed spec fn view(&self) -> CryptorModel {
        CryptorModel {
            cipher_id: self.cipher_id,
            key: self.key@,
            master_nonce: self.master_nonce@,
        }
    }
}

impl Drop for BlockCryptor {
    fn drop(&mut self)
        opens_invariants none
        no_unwind
    {
        erase(&mut self.key);
        erase(&mut self.master_nonce);
    }
}

impl CryptorModel {
    /// What encrypting a block gives.
    pub open spec fn encrypted(self, block_id: u32, plaintext: Seq<u8>) -> std::result::Result<
        Seq<u8>,
        ErrorModel,
    > {
        encrypt_outcome(self.cipher_id, self.key, self.master_nonce, block_id, plaintext)
    }

    /// What decrypting a block gives.
    pub open spec fn decrypted(self, block_id: u32, encrypted: Seq<u8>) -> std::result::Result<
        Seq<u8>,
        ErrorModel,
    > {
        decrypt_outcome(self.cipher_id, self.key, self.master_nonce, block_id, encrypted)
    }
}

impl BlockCryptor {
    /// Creates a cryptor with the given cipher, key, and master nonce.
    pub fn new(cipher_id: CipherId, key: &[u8; 32], master_nonce: [u8; 12]) -> (c: BlockCryptor)
        ensures
            c@ == (CryptorModel { cipher_id, key: key@, master_nonce: master_nonce@ }),
    {
        BlockCryptor { cipher_id, key: *key, master_nonce }
    }

    /// Encrypts a block payload, as [`encrypt_block`] does.
    pub fn encrypt(&self, block_id: u32, plaintext: &[u8]) -> (r: Result<Vec<u8>>)
        ensures
            same_bytes(r, self@.encrypted(block_id, plaintext@)),
            r matches Ok(encrypted) ==> encrypted@.len() == plaintext@.len() + 28
                && self@.decrypted(block_id, encrypted@) == Ok::<Seq<u8>, ErrorModel>(plaintext@),
    {
        encrypt_block(self.cipher_id, &self.key, &self.master_nonce, block_id, plaintext)
    }

    /// Decrypts a block payload, as [`decrypt_block`] does.
    pub fn decrypt(&self, block_id: u32, encrypted: &[u8]) -> (r: Result<Vec<u8>>)
        ensures
            same_bytes(r, self@.decrypted(block_id, encrypted@)),
    {
        decrypt_block(self.cipher_id, &self.key, &self.master_nonce, block_id, encrypted)
    }

    /// The cipher algorithm this cryptor uses.
    pub fn cipher_id(&self) -> (c: CipherId)
        ensures
            c == self@.cipher_id,
    {
        self.cipher_id
    }

    /// The master nonce this cryptor derives the nonces of blocks from.
    pub fn master_nonce(&self) -> (nonce: &[u8; 12])
        ensures
            nonce@ == self@.master_nonce,
    {
        &self.master_nonce
    }
}

/// Encrypts serialized metadata under a reserved block number, whose nonce belongs to no
/// block.
pub fn encrypt_metadata(cryptor: &BlockCryptor, plaintext: &[u8]) -> (r: Result<Vec<u8>>)
    ensures
        same_bytes(r, cryptor@.encrypted(ENCRYPTED_METADATA_BLOCK_ID, plaintext@)),
        r matches Ok(encrypted) ==> cryptor@.decrypted(ENCRYPTED_METADATA_BLOCK_ID, encrypted@)
            == Ok::<Seq<u8>, ErrorModel>(plaintext@),
{
    cryptor.encrypt(ENCRYPTED_METADATA_BLOCK_ID, plaintext)
}

/// Decrypts serialized metadata.
pub fn decrypt_metadata(cryptor: &BlockCryptor, encrypted: &[u8]) -> (r: Result<Vec<u8>>)
    ensures
        same_bytes(r, cryptor@.decrypted(ENCRYPTED_METADATA_BLOCK_ID, encrypted@)),
{
    cryptor.decrypt(ENCRYPTED_METADATA_BLOCK_ID, encrypted)
}

// Randomness.

/// Draws `N` random bytes of the operating system, by `getrandom::getrandom`; gives none
/// where that fails. Nothing is said of the bytes, nor of when it fails.
#[verifier::external_body]
fn draw_random<const N: usize>() -> (drawn: Option<[u8; N]>) {
    let mut bytes = [0u8; N];
    getrandom::getrandom(&mut bytes).ok().map(|_| bytes)
}

/// `drawn` is what the operating system may give when `N` random bytes are drawn.
pub closed spec fn may_draw<const N: usize>(drawn: Option<[u8; N]>) -> bool {
    call_ensures(draw_random::<N>, (), drawn)
}

/// `r` holds the bytes that were drawn, or the error that there were none.
pub open spec fn holds_drawn<const N: usize>(r: Result<[u8; N]>, drawn: Option<[u8; N]>) -> bool {
    match drawn {
        Some(bytes) => r == Ok::<[u8; N], AetherError>(bytes),
        None => r matches Err(e) && e@ == ErrorModel::Encryption(
            "OS random number generator failed"@,
        ),
    }
}

/// Takes over bytes that were drawn.
pub fn accept_drawn<const N: usize>(drawn: Option<[u8; N]>) -> (r: Result<[u8; N]>)
    ensures
        holds_drawn(r, drawn),
{
    match drawn {
        Some(bytes) => Ok(bytes),
        None => Err(AetherError::Encryption("OS random number generator failed".to_string())),
    }
}

/// Generates a random salt for key derivation. Fails where the operating system has no
/// random numbers: bytes that are not random would silently be insecure.
pub fn generate_salt() -> (r: Result<[u8; 32]>)
    ensures
        exists|drawn: Option<[u8; 32]>| #[trigger] may_draw(drawn) && holds_drawn(r, drawn),
{
    let drawn = draw_random::<32>();
    assert(may_draw(drawn));
    accept_drawn(drawn)
}

/// Generates a random master nonce. Fails where the operating system has no random
/// numbers.
pub fn generate_nonce() -> (r: Result<[u8; 12]>)
    ensures
        exists|drawn: Option<[u8; 12]>| #[trigger] may_draw(drawn) && holds_drawn(r, drawn),
{
    let drawn = draw_random::<12>();
    assert(may_draw(drawn));
    accept_drawn(drawn)
}

// Laws.

/// A block whose stored nonce is not the one derived for it is refused, whatever the key
/// and the rest of the block are.
pub proof fn foreign_nonce_is_refused(
    cipher_id: CipherId,
    key: Seq<u8>,
    master_nonce: Seq<u8>,
    block_id: u32,
    encrypted: Seq<u8>,
)
    requires
        encrypted.len() >= NONCE_SIZE + TAG_SIZE,
        encrypted.take(12) != block_nonce(master_nonce, block_id),
    ensures
        decrypt_outcome(cipher_id, key, master_nonce, block_id, encrypted) == Err::<
            Seq<u8>,
            ErrorModel,
        >(ErrorModel::NonceMismatch { block_id }),
{
}

/// Every block number has its own associated data, and so has every cipher.
pub proof fn aad_binds_block_and_cipher(a: CipherId, b: CipherId, i: u32, j: u32)
    ensures
        block_aad(a, i) == block_aad(b, j) <==> a == b && i == j,
{
    let x = block_aad(a, i);
    let y = block_aad(b, j);
    crate::bytes::lemma_pow256_values();
    lemma_be_bytes_len(i as nat, 4);
    lemma_be_bytes_len(j as nat, 4);
    if x == y {
        assert(x[0] == y[0]);
        assert(x.skip(1) =~= be_bytes(i as nat, 4));
        assert(y.skip(1) =~= be_bytes(j as nat, 4));
        crate::bytes::lemma_be_round_trip(i as nat, 4);
        crate::bytes::lemma_be_round_trip(j as nat, 4);
    }
}

/// Which parameters of the key derivation are accepted: 16 MiB to 1 GiB of memory, 2 to 16
/// passes, 1 to 16 lanes.
pub proof fn accepted_costs(m_cost: u32, t_cost: u32, p_cost: u32, r: Result<()>)
    requires
        call_ensures(validate_argon2_params, (m_cost, t_cost, p_cost), r),
    ensures
        r is Ok <==> 16_384 <= m_cost <= 1_048_576 && 2 <= t_cost <= 16 && 1 <= p_cost <= 16,
        argon2_fault(m_cost, t_cost, p_cost) is None <==> r is Ok,
{
}

/// What [`validate_encryption_password`] asks for: eight bytes.
pub proof fn accepted_passwords(password: &[u8], r: Result<()>)
    requires
        call_ensures(validate_encryption_password, (password,), r),
    ensures
        r is Ok <==> password@.len() >= 8,
{
}

/// What [`derive_key`], [`compute_verification_tag`] and
/// [`EncryptionHeader::verify_password`] do, one after the other: a key is that of the
/// password, the salt and all costs; the tag made of it is what it is verified by, and a key
/// is accepted exactly where its tag is the stored one.
pub proof fn derived_keys_are_verified(
    password: &[u8],
    salt: &[u8; 32],
    m_cost: u32,
    t_cost: u32,
    p_cost: u32,
    key: DerivedKey,
    tag: [u8; 32],
    header: EncryptionHeader,
    r: Result<()>,
)
    requires
        call_ensures(
            derive_key,
            (password, salt, m_cost, t_cost, p_cost),
            Ok::<DerivedKey, AetherError>(key),
        ),
        call_ensures(compute_verification_tag, (&key,), tag),
        call_ensures(EncryptionHeader::verify_password, (&header, &key), r),
    ensures
        key@ == argon2id_key(password@, salt@, m_cost, t_cost, p_cost),
        tag@ == blake3_keyed_of(
            blake3_keyed_of(key@, VERIFICATION_KEY_DOMAIN@)@,
            VERIFICATION_DOMAIN@,
        )@,
        r is Ok <==> header.verification_tag@ == tag@,
        r is Err ==> r->Err_0@ == ErrorModel::PasswordVerificationFailed,
{
}

/// The texts that keep the uses of hashes apart.
pub proof fn domains_are_texts(i: int)
    ensures
        VERIFICATION_DOMAIN@.len() == "AetherArch-password-verification-v1"@.len(),
        VERIFICATION_KEY_DOMAIN@.len() == "AetherArch-verification-key-v1"@.len(),
        NONCE_DOMAIN@.len() == "AetherArch-block-nonce-v1"@.len(),
        0 <= i < 35 ==> VERIFICATION_DOMAIN@[i] as char == "AetherArch-password-verification-v1"@[i],
        0 <= i < 30 ==> VERIFICATION_KEY_DOMAIN@[i] as char == "AetherArch-verification-key-v1"@[i],
        0 <= i < 25 ==> NONCE_DOMAIN@[i] as char == "AetherArch-block-nonce-v1"@[i],
{
    reveal_strlit("AetherArch-password-verification-v1");
    reveal_strlit("AetherArch-verification-key-v1");
    reveal_strlit("AetherArch-block-nonce-v1");
}

/// What [`derive_block_nonce`] gives: 12 bytes of the hash of the number of the block, highest
/// byte first, under the master nonce, filled up with zeros to a key.
pub proof fn nonces_are_hashes_of_numbers(
    master_nonce: &[u8; 12],
    block_id: u32,
    nonce: [u8; 12],
    key: Seq<u8>,
    input: Seq<u8>,
)
    requires
        call_ensures(derive_block_nonce, (master_nonce, block_id), nonce),
        key.len() == 32,
        key.take(12) == master_nonce@,
        forall|i: int| 12 <= i < 32 ==> #[trigger] key[i] == 0,
        input.len() == 29,
        input.take(25) == NONCE_DOMAIN@,
        16_777_216 * input[25] + 65_536 * input[26] + 256 * input[27] + input[28] == block_id,
    ensures
        nonce@ == blake3_keyed_of(key, input)@.take(12),
{
    assert(key =~= master_nonce@ + Seq::new(20, |i: int| 0u8)) by {
        assert(key.take(12) =~= master_nonce@);
        assert forall|i: int| 0 <= i < 12 implies key[i] == master_nonce@[i] by {
            assert(key.take(12)[i] == key[i]);
        }
    }
    lemma_be_bytes_len(block_id as nat, 4);
    let four = be_bytes(block_id as nat, 4);
    let n = block_id as nat;
    reveal_with_fuel(be_bytes, 5);
    assert(four[3] == n % 256 && four[2] == n / 256 % 256 && four[1] == n / 256 / 256 % 256
        && four[0] == n / 256 / 256 / 256 % 256);
    assert(input =~= NONCE_DOMAIN@ + four) by {
        assert forall|i: int| 0 <= i < 25 implies input[i] == NONCE_DOMAIN@[i] by {
            assert(input.take(25)[i] == input[i]);
        }
        assert(input[28] == four[3] && input[27] == four[2] && input[26] == four[1] && input[25]
            == four[0]);
    }
}

/// What [`encrypt_block`] gives: the nonce of the block, then the block sealed by the cipher
/// under the key and that nonce, bound to the cipher and the number of the block; that is 28
/// bytes more than the block. It fails exactly above 1 GiB.
pub proof fn blocks_are_sealed_under_the_key(
    cipher_id: CipherId,
    key: &[u8; 32],
    master_nonce: &[u8; 12],
    block_id: u32,
    plaintext: &[u8],
    r: Result<Vec<u8>>,
    nonce: [u8; 12],
)
    requires
        call_ensures(encrypt_block, (cipher_id, key, master_nonce, block_id, plaintext), r),
        call_ensures(derive_block_nonce, (master_nonce, block_id), nonce),
    ensures
        r is Ok <==> plaintext@.len() <= 1_073_741_824,
        r is Ok ==> {
            let v = r->Ok_0@;
            let aad = v.take(0).push(
                if cipher_id == CipherId::Aes256Gcm {
                    0u8
                } else {
                    1u8
                },
            ) + be_bytes(block_id as nat, 4);
            &&& v.len() == plaintext@.len() + 28
            &&& v.take(12) == nonce@
            &&& cipher_id == CipherId::Aes256Gcm ==> v.skip(12) == aes_gcm_sealed(
                key@,
                nonce@,
                aad,
                plaintext@,
            )
            &&& cipher_id == CipherId::ChaCha20Poly1305 ==> v.skip(12) == chacha_sealed(
                key@,
                nonce@,
                aad,
                plaintext@,
            )
        },
{
    if r is Ok {
        let v = r->Ok_0@;
        let sealed = sealed_by(
            cipher_id,
            key@,
            nonce@,
            block_aad(cipher_id, block_id),
            plaintext@,
        );
        assert(v == nonce@ + sealed);
        assert(v.take(12) =~= nonce@);
        assert(v.skip(12) =~= sealed);
        let aad = v.take(0).push(
            if cipher_id == CipherId::Aes256Gcm {
                0u8
            } else {
                1u8
            },
        ) + be_bytes(block_id as nat, 4);
        assert(aad =~= block_aad(cipher_id, block_id));
    }
}

/// What [`decrypt_block`] gives: what the ciphertext opens to under the key, only where the
/// nonce in front is that of the block; nothing for less than 28 bytes.
pub proof fn blocks_are_opened_under_the_key(
    cipher_id: CipherId,
    key: &[u8; 32],
    master_nonce: &[u8; 12],
    block_id: u32,
    encrypted: &[u8],
    r: Result<Vec<u8>>,
    nonce: [u8; 12],
)
    requires
        call_ensures(decrypt_block, (cipher_id, key, master_nonce, block_id, encrypted), r),
        call_ensures(derive_block_nonce, (master_nonce, block_id), nonce),
    ensures
        encrypted@.len() < 28 ==> r is Err,
        encrypted@.len() >= 28 && encrypted@.take(12) != nonce@ ==> r is Err && r->Err_0@ == (
        ErrorModel::NonceMismatch { block_id }),
        encrypted@.len() >= 28 && encrypted@.take(12) == nonce@ ==> {
            let aad = seq![
                if cipher_id == CipherId::Aes256Gcm {
                    0u8
                } else {
                    1u8
                },
            ] + be_bytes(block_id as nat, 4);
            let opened = if cipher_id == CipherId::Aes256Gcm {
                aes_gcm_opened(key@, nonce@, aad, encrypted@.skip(12))
            } else {
                chacha_opened(key@, nonce@, aad, encrypted@.skip(12))
            };
            &&& r is Ok <==> opened is Some
            &&& r is Ok ==> r->Ok_0@ == opened->0
        },
{
    let aad = seq![
        if cipher_id == CipherId::Aes256Gcm {
            0u8
        } else {
            1u8
        },
    ] + be_bytes(block_id as nat, 4);
    assert(aad =~= block_aad(cipher_id, block_id));
}

/// What is encrypted is decrypted again: by [`decrypt_block`] what [`encrypt_block`] gave, by
/// a cryptor what a cryptor with the same cipher, key and master nonce gave, under the same
/// number.
pub proof fn encrypted_blocks_are_decrypted(
    cipher_id: CipherId,
    key: &[u8; 32],
    master_nonce: &[u8; 12],
    block_id: u32,
    plaintext: &[u8],
    encrypted: Vec<u8>,
    given: &[u8],
    r: Result<Vec<u8>>,
)
    requires
        call_ensures(
            encrypt_block,
            (cipher_id, key, master_nonce, block_id, plaintext),
            Ok::<Vec<u8>, AetherError>(encrypted),
        ),
        given@ == encrypted@,
        call_ensures(decrypt_block, (cipher_id, key, master_nonce, block_id, given), r),
    ensures
        r is Ok && r->Ok_0@ == plaintext@,
{
}

/// What a [`BlockCryptor`] does is what the functions do with its cipher, key and master
/// nonce; metadata goes under a number of its own.
pub proof fn cryptors_use_their_key(
    cipher_id: CipherId,
    key: &[u8; 32],
    master_nonce: [u8; 12],
    c: BlockCryptor,
    block_id: u32,
    plaintext: &[u8],
    by_cryptor: Result<Vec<u8>>,
    by_function: Result<Vec<u8>>,
    opened_by_cryptor: Result<Vec<u8>>,
    opened_by_function: Result<Vec<u8>>,
)
    requires
        call_ensures(BlockCryptor::new, (cipher_id, key, master_nonce), c),
    ensures
        (call_ensures(BlockCryptor::encrypt, (&c, block_id, plaintext), by_cryptor) && call_ensures(
            encrypt_block,
            (cipher_id, key, &master_nonce, block_id, plaintext),
            by_function,
        )) ==> (by_cryptor is Ok <==> by_function is Ok) && (by_cryptor is Ok
            ==> by_cryptor->Ok_0@ == by_function->Ok_0@),
        (call_ensures(BlockCryptor::decrypt, (&c, block_id, plaintext), opened_by_cryptor)
            && call_ensures(
            decrypt_block,
            (cipher_id, key, &master_nonce, block_id, plaintext),
            opened_by_function,
        )) ==> (opened_by_cryptor is Ok <==> opened_by_function is Ok) && (opened_by_cryptor is Ok
            ==> opened_by_cryptor->Ok_0@ == opened_by_function->Ok_0@),
        (call_ensures(encrypt_metadata, (&c, plaintext), by_cryptor) && call_ensures(
            encrypt_block,
            (cipher_id, key, &master_nonce, 0xFFFF_FFFF, plaintext),
            by_function,
        )) ==> (by_cryptor is Ok <==> by_function is Ok) && (by_cryptor is Ok
            ==> by_cryptor->Ok_0@ == by_function->Ok_0@),
        (call_ensures(decrypt_metadata, (&c, plaintext), opened_by_cryptor) && call_ensures(
            decrypt_block,
            (cipher_id, key, &master_nonce, 0xFFFF_FFFF, plaintext),
            opened_by_function,
        )) ==> (opened_by_cryptor is Ok <==> opened_by_function is Ok) && (opened_by_cryptor is Ok
            ==> opened_by_cryptor->Ok_0@ == opened_by_function->Ok_0@),
{
}

/// Where the fields of an encryption header stand, in 90 bytes: the version, the cipher, the
/// salt, the three costs, the master nonce and the verification tag.
pub proof fn encryption_header_layout(h: EncryptionHeaderModel)
    requires
        h.salt.len() == 32,
        h.master_nonce.len() == 12,
        h.verification_tag.len() == 32,
    ensures
        ({
            let s = h.bytes();
            &&& s.len() == 90
            &&& s[0] == h.version
            &&& s[1] == if h.cipher_id == CipherId::Aes256Gcm {
                0int
            } else {
                1
            }
            &&& s.subrange(2, 34) == h.salt
            &&& number_at(s, 34, 4) == h.m_cost
            &&& number_at(s, 38, 4) == h.t_cost
            &&& number_at(s, 42, 4) == h.p_cost
            &&& s.subrange(46, 58) == h.master_nonce
            &&& s.subrange(58, 90) == h.verification_tag
        }),
{
    lemma_field(h.m_cost as nat, 4);
    lemma_field(h.t_cost as nat, 4);
    lemma_field(h.p_cost as nat, 4);
    let s = h.bytes();
    assert(s.subrange(2, 34) =~= h.salt);
    assert(s.subrange(34, 38) =~= le_bytes(h.m_cost as nat, 4));
    assert(s.subrange(38, 42) =~= le_bytes(h.t_cost as nat, 4));
    assert(s.subrange(42, 46) =~= le_bytes(h.p_cost as nat, 4));
    assert(s.subrange(46, 58) =~= h.master_nonce);
    assert(s.subrange(58, 90) =~= h.verification_tag);
}

/// What [`EncryptionHeader::write_to`] and [`EncryptionHeader::read_from`] do, one after the
/// other.
pub proof fn encryption_headers_are_read_back(
    h: EncryptionHeader,
    w: &mut Vec<u8>,
    written: Result<()>,
    r: &mut ByteReader<'_>,
    result: Result<EncryptionHeader>,
    tail: Seq<u8>,
)
    requires
        call_ensures(EncryptionHeader::write_to, (&h, w), written),
        h.version == 1,
        argon2_fault(h.m_cost, h.t_cost, h.p_cost) is None,
    ensures
        written is Ok,
        final(w)@ == old(w)@ + h@.bytes(),
        (old(r)@ == h@.bytes() + tail && call_ensures(EncryptionHeader::read_from, (r,), result))
            ==> (result is Ok && result->Ok_0@ == h@ && final(r)@ == tail),
{
    encryption_header_round_trips(h@, tail);
    assert((h@.bytes() + tail).skip(90) =~= tail);
}

/// What [`generate_salt`] and [`generate_nonce`] give are the bytes that were drawn, or an
/// error where none were.
pub proof fn drawn_bytes_are_given(salt: Result<[u8; 32]>, nonce: Result<[u8; 12]>)
    requires
        call_ensures(generate_salt, (), salt),
        call_ensures(generate_nonce, (), nonce),
    ensures
        exists|drawn: Option<[u8; 32]>| #[trigger]
            may_draw(drawn) && (drawn is Some <==> salt is Ok) && (salt is Ok ==> drawn == Some(
                salt->Ok_0,
            )),
        exists|drawn: Option<[u8; 12]>| #[trigger]
            may_draw(drawn) && (drawn is Some <==> nonce is Ok) && (nonce is Ok ==> drawn == Some(
                nonce->Ok_0,
            )),
{
    let a = choose|drawn: Option<[u8; 32]>| #[trigger] may_draw(drawn) && holds_drawn(salt, drawn);
    let b = choose|drawn: Option<[u8; 12]>| #[trigger] may_draw(drawn) && holds_drawn(nonce, drawn);
    assert(may_draw(a) && may_draw(b));
}

/// What [`EncryptionHeader::read_from`] accepts: the version 1, a known cipher, and costs
/// within their bounds; the header holds what stands there.
pub proof fn accepted_encryption_headers_are_checked(
    r: &mut ByteReader<'_>,
    result: Result<EncryptionHeader>,
)
    requires
        call_ensures(EncryptionHeader::read_from, (r,), result),
        result is Ok,
    ensures
        ({
            let s = old(r)@;
            let h = result->Ok_0;
            &&& s.len() >= 90
            &&& s[0] == 1 && h.version == 1
            &&& s[1] == 0 && h.cipher_id == CipherId::Aes256Gcm || s[1] == 1 && h.cipher_id
                == CipherId::ChaCha20Poly1305
            &&& h.salt@ == s.subrange(2, 34)
            &&& h.m_cost == number_at(s, 34, 4) && 16_384 <= h.m_cost <= 1_048_576
            &&& h.t_cost == number_at(s, 38, 4) && 2 <= h.t_cost <= 16
            &&& h.p_cost == number_at(s, 42, 4) && 1 <= h.p_cost <= 16
            &&& h.master_nonce@ == s.subrange(46, 58)
            &&& h.verification_tag@ == s.subrange(58, 90)
            &&& final(r)@ == s.skip(90)
        }),
{
    let s = old(r)@;
    crate::header::lemma_number_at(s, 34, 4);
    crate::header::lemma_number_at(s, 38, 4);
    crate::header::lemma_number_at(s, 42, 4);
}

/// What [`accept_opened`] and [`accept_drawn`] make of an answer: what there is, as it is, and
/// an error where there is nothing.
pub proof fn answers_are_taken_over(
    cipher_id: CipherId,
    opened: Option<Vec<u8>>,
    r: Result<Vec<u8>>,
    drawn: Option<[u8; 32]>,
    d: Result<[u8; 32]>,
)
    requires
        call_ensures(accept_opened, (cipher_id, opened), r),
        call_ensures(accept_drawn::<32>, (drawn,), d),
    ensures
        r is Ok <==> opened is Some,
        r is Ok ==> r->Ok_0@ == opened->0@,
        r is Err ==> r->Err_0@ is Decryption,
        d is Ok <==> drawn is Some,
        d is Ok ==> d->Ok_0 == drawn->0,
{
}

} // verus!

use aes_gcm::aead::{Aead, KeyInit};
use aes_gcm::{Aes256Gcm, Key, Nonce};
use rand::RngCore;
use sha2::{Digest, Sha256};
use vstd::prelude::*;
use vstd::slice::{slice_subrange, slice_to_vec};
use vstd::utf8::encode_utf8;

use crate::error::VaultError;

verus! {

/// Length of the random nonce that starts every blob.
pub const NONCE_LEN: usize = 12;

/// Length of a derived key.
pub const KEY_LEN: usize = 32;

/// Length of the authentication tag that ends the sealed payload.
pub const TAG_LEN: usize = 16;

/// Longest plaintext, in bytes, that AES-256-GCM will seal.
pub const PLAINTEXT_MAX: u64 = 68719476736;

// ---------------------------------------------------------------------------
// Hex text
// ---------------------------------------------------------------------------

/// Value of a hex digit in either case, or -1 for any other character.
pub open spec fn hex_value(c: char) -> int {
    let u = c as u32;
    if 48 <= u <= 57 {
        u - 48
    } else if 97 <= u <= 102 {
        u - 87
    } else if 65 <= u <= 70 {
        u - 55
    } else {
        -1
    }
}

pub open spec fn is_lower_hex_digit(c: char) -> bool {
    let u = c as u32;
    (48 <= u <= 57) || (97 <= u <= 102)
}

/// `text` is the lower-case hex spelling of `bytes`, high digit first.
pub open spec fn hex_encodes(bytes: Seq<u8>, text: Seq<char>) -> bool {
    &&& text.len() == 2 * bytes.len()
    &&& forall|i: int|
        0 <= i < bytes.len() ==> {
            &&& is_lower_hex_digit(#[trigger] text[2 * i])
            &&& is_lower_hex_digit(text[2 * i + 1])
            &&& hex_value(text[2 * i]) == bytes[i] / 16
            &&& hex_value(text[2 * i + 1]) == bytes[i] % 16
        }
}

/// Text that decodes: an even number of hex digits, in any case.
pub open spec fn is_hex_text(text: Seq<char>) -> bool {
    &&& text.len() % 2 == 0
    &&& forall|i: int| 0 <= i < text.len() ==> hex_value(#[trigger] text[i]) >= 0
}

/// The bytes that hex text spells, two digits per byte.
pub open spec fn hex_decoded(text: Seq<char>) -> Seq<u8> {
    Seq::new(
        (text.len() / 2) as nat,
        |i: int| (hex_value(text[2 * i]) * 16 + hex_value(text[2 * i + 1])) as u8,
    )
}

/// Relies on hex::encode: two lower-case digits for each byte, high digit first.
#[verifier::external_body]
fn hex_encode(bytes: &[u8]) -> (r: String)
    ensures
        hex_encodes(bytes@, r@),
{
    hex::encode(bytes)
}

/// Relies on hex::decode: it accepts an even number of hex digits of either
/// case and nothing else, and reads each pair as one byte.
#[verifier::external_body]
fn hex_decode(text: &str) -> (r: Option<Vec<u8>>)
    ensures
        r is Some <==> is_hex_text(text@),
        r matches Some(b) ==> b@ == hex_decoded(text@),
{
    hex::decode(text).ok()
}

/// Hex spelling decodes back to the bytes it spells.
pub proof fn lemma_hex_round_trip(bytes: Seq<u8>, text: Seq<char>)
    requires
        hex_encodes(bytes, text),
    ensures
        is_hex_text(text),
        hex_decoded(text) == bytes,
{
    assert forall|j: int| 0 <= j < text.len() implies hex_value(#[trigger] text[j]) >= 0 by {
        let i = j / 2;
        assert(0 <= i < bytes.len());
        assert(j == 2 * i || j == 2 * i + 1);
        assert(is_lower_hex_digit(text[2 * i]));
    }
    assert forall|i: int| 0 <= i < bytes.len() implies hex_decoded(text)[i] == bytes[i] by {
        assert(is_lower_hex_digit(text[2 * i]));
    }
    assert(hex_decoded(text) =~= bytes);
}

// ---------------------------------------------------------------------------
// Outside primitives
// ---------------------------------------------------------------------------

/// The SHA-256 digest of a byte sequence.
pub uninterp spec fn sha256_of(data: Seq<u8>) -> Seq<u8>;

/// AES-256-GCM sealing with empty associated data: ciphertext then tag.
pub uninterp spec fn aes_gcm_seal(key: Seq<u8>, nonce: Seq<u8>, plain: Seq<u8>) -> Seq<u8>;

/// AES-256-GCM opening with empty associated data: the plaintext when the tag
/// verifies, `None` otherwise.
pub uninterp spec fn aes_gcm_open(key: Seq<u8>, nonce: Seq<u8>, sealed: Seq<u8>) -> Option<Seq<u8>>;

/// Relies on sha2's `Sha256::digest`: a 32-byte digest that depends on the input alone.
#[verifier::external_body]
fn sha256_digest(data: &[u8]) -> (r: Vec<u8>)
    ensures
        r@ == sha256_of(data@),
        r@.len() == KEY_LEN,
{
    Sha256::digest(data).to_vec()
}

/// Relies on rand's `OsRng::try_fill_bytes`: `len` bytes from the operating
/// system's secure generator, or nothing when the generator reports an
/// error. Nothing is promised of the values.
#[verifier::external_body]
fn random_bytes(len: usize) -> (r: Option<Vec<u8>>)
    ensures
        r matches Some(b) ==> b@.len() == len,
{
    let mut bytes = vec![0u8; len];
    match rand::rngs::OsRng.try_fill_bytes(&mut bytes) {
        Ok(()) => Some(bytes),
        Err(_) => None,
    }
}

/// Relies on aes_gcm's `Aes256Gcm::encrypt` with empty associated data: it
/// fails only on a plaintext longer than `P_MAX` (2^36 bytes); otherwise it
/// returns the ciphertext (as long as the plaintext) followed by the 16-byte
/// tag, which `decrypt` under the same key and nonce opens to the plaintext.
#[verifier::external_body]
fn aes_seal(key: &[u8], nonce: &[u8], plain: &[u8]) -> (r: Option<Vec<u8>>)
    requires
        key@.len() == KEY_LEN,
        nonce@.len() == NONCE_LEN,
    ensures
        r is Some <==> plain@.len() <= PLAINTEXT_MAX,
        r matches Some(c) ==> c@ == aes_gcm_seal(key@, nonce@, plain@),
        r matches Some(c) ==> c@.len() == plain@.len() + TAG_LEN,
        r matches Some(c) ==> aes_gcm_open(key@, nonce@, c@) == Some(plain@),
{
    let cipher = Aes256Gcm::new(Key::<Aes256Gcm>::from_slice(key));
    cipher.encrypt(Nonce::from_slice(nonce), plain).ok()
}

/// Relies on aes_gcm's `Aes256Gcm::decrypt` with empty associated data: the
/// plaintext when the tag verifies, an error otherwise. Input shorter than
/// the 16-byte tag is refused; the plaintext is the input less the tag.
#[verifier::external_body]
fn aes_open(key: &[u8], nonce: &[u8], sealed: &[u8]) -> (r: Option<Vec<u8>>)
    requires
        key@.len() == KEY_LEN,
        nonce@.len() == NONCE_LEN,
    ensures
        r matches Some(p) ==> aes_gcm_open(key@, nonce@, sealed@) == Some(p@),
        r is None ==> aes_gcm_open(key@, nonce@, sealed@) is None,
        sealed@.len() < TAG_LEN ==> r is None,
        r matches Some(p) ==> p@.len() + TAG_LEN == sealed@.len(),
{
    let cipher = Aes256Gcm::new(Key::<Aes256Gcm>::from_slice(key));
    cipher.decrypt(Nonce::from_slice(nonce), sealed).ok()
}

// ---------------------------------------------------------------------------
// The cipher engine
// ---------------------------------------------------------------------------

/// The key derived from a password: the SHA-256 digest of its UTF-8 bytes,
/// with no salt and no iteration.
pub open spec fn derived_key(password: Seq<char>) -> Seq<u8> {
    sha256_of(encode_utf8(password))
}

/// `blob` seals `plain` under `key` with `nonce`: it is the hex spelling of
/// the nonce followed by the cipher's output, which opens to `plain`.
pub open spec fn seals_with(key: Seq<u8>, nonce: Seq<u8>, plain: Seq<u8>, blob: Seq<char>) -> bool {
    &&& nonce.len() == NONCE_LEN
    &&& aes_gcm_seal(key, nonce, plain).len() == plain.len() + TAG_LEN
    &&& hex_encodes(nonce + aes_gcm_seal(key, nonce, plain), blob)
    &&& aes_gcm_open(key, nonce, aes_gcm_seal(key, nonce, plain)) == Some(plain)
}

/// `blob` is one of the blobs that encrypting `plain` under `key` can give:
/// the nonce is chosen at random by each call.
pub open spec fn is_sealed_blob(key: Seq<u8>, plain: Seq<u8>, blob: Seq<char>) -> bool {
    exists|nonce: Seq<u8>| #[trigger] seals_with(key, nonce, plain, blob)
}

/// What decrypting `blob` under `key` gives.
pub open spec fn decrypt_outcome(key: Seq<u8>, blob: Seq<char>) -> Result<Seq<u8>, VaultError> {
    if !is_hex_text(blob) {
        Err(VaultError::MalformedBlob)
    } else {
        let data = hex_decoded(blob);
        if data.len() < NONCE_LEN {
            Err(VaultError::MalformedBlob)
        } else {
            match aes_gcm_open(key, data.take(NONCE_LEN as int), data.skip(NONCE_LEN as int)) {
                None => Err(VaultError::Authentication),
                Some(plain) => Ok(plain),
            }
        }
    }
}

/// Decrypting what was encrypted under the key of the same password gives
/// the original bytes back.
pub proof fn lemma_encrypt_decrypt_round_trip(password: Seq<char>, bytes: Seq<u8>, blob: Seq<char>)
    requires
        is_sealed_blob(derived_key(password), bytes, blob),
    ensures
        decrypt_outcome(derived_key(password), blob) == Ok::<Seq<u8>, VaultError>(bytes),
{
    let key = derived_key(password);
    let nonce = choose|nonce: Seq<u8>| #[trigger] seals_with(key, nonce, bytes, blob);
    let sealed = aes_gcm_seal(key, nonce, bytes);
    lemma_hex_round_trip(nonce + sealed, blob);
    let data = hex_decoded(blob);
    assert(data.take(NONCE_LEN as int) =~= nonce);
    assert(data.skip(NONCE_LEN as int) =~= sealed);
}

/// A blob that decodes to fewer bytes than a nonce is malformed, whatever the key.
pub proof fn lemma_short_blob_malformed(key: Seq<u8>, blob: Seq<char>)
    requires
        is_hex_text(blob) ==> hex_decoded(blob).len() < NONCE_LEN,
    ensures
        decrypt_outcome(key, blob) == Err::<Seq<u8>, VaultError>(VaultError::MalformedBlob),
{
}

/// The cipher engine: holds the key derived from a password.
pub struct SecretsCrypto {
    key: Vec<u8>,
}

impl View for SecretsCrypto {
    type V = Seq<u8>;

    /// The key.
    closed spec fn view(&self) -> Seq<u8> {
        self.key@
    }
}

impl SecretsCrypto {
    pub closed spec fn wf(&self) -> bool {
        self.key@.len() == KEY_LEN
    }

    /// An engine whose key is derived from `password`.
    pub fn new(password: &str) -> (r: Self)
        ensures
            r.wf(),
            r@ == derived_key(password@),
    {
        let key = Self::derive_key(password);
        SecretsCrypto { key }
    }

    fn derive_key(password: &str) -> (r: Vec<u8>)
        ensures
            r@ == derived_key(password@),
            r@.len() == KEY_LEN,
    {
        sha256_digest(password.as_bytes())
    }

    /// Seals `data` under `nonce` and returns the hex blob: the nonce, then
    /// the ciphertext and its tag. Fails only when `data` is longer than the
    /// cipher allows. A nonce must never be used twice under one key.
    pub fn seal_with_nonce(&self, nonce: &[u8], data: &[u8]) -> (r: Result<String, VaultError>)
        requires
            self.wf(),
            nonce@.len() == NONCE_LEN,
        ensures
            r is Ok <==> data@.len() <= PLAINTEXT_MAX,
            r matches Ok(blob) ==> seals_with(self@, nonce@, data@, blob@),
            r matches Err(e) ==> e == VaultError::Encryption,
    {
        let sealed = match aes_seal(self.key.as_slice(), nonce, data) {
            Some(c) => c,
            None => return Err(VaultError::Encryption),
        };
        let mut framed = slice_to_vec(nonce);
        framed.extend_from_slice(sealed.as_slice());
        let blob = hex_encode(framed.as_slice());
        assert(framed@ =~= nonce@ + sealed@);
        Ok(blob)
    }

    /// Seals `data` under a fresh nonce drawn from the operating system's
    /// generator. Fails with `Encryption` when `data` is longer than the
    /// cipher allows or when the generator yields no nonce.
    pub fn encrypt(&self, data: &[u8]) -> (r: Result<String, VaultError>)
        requires
            self.wf(),
        ensures
            data@.len() > PLAINTEXT_MAX ==> r is Err,
            r matches Ok(blob) ==> is_sealed_blob(self@, data@, blob@),
            r matches Ok(blob) ==> blob@.len() == 2 * (NONCE_LEN + data@.len() + TAG_LEN),
            r matches Err(e) ==> e == VaultError::Encryption,
    {
        let nonce = match random_bytes(NONCE_LEN) {
            Some(n) => n,
            None => return Err(VaultError::Encryption),
        };
        let r = self.seal_with_nonce(nonce.as_slice(), data);
        assert(r matches Ok(blob) ==> seals_with(self@, nonce@, data@, blob@));
        r
    }

    /// Opens a hex blob made by `encrypt` under the same key.
    pub fn decrypt(&self, encrypted_data: &str) -> (r: Result<Vec<u8>, VaultError>)
        requires
            self.wf(),
        ensures
            match r {
                Ok(b) => decrypt_outcome(self@, encrypted_data@) == Ok::<Seq<u8>, VaultError>(b@),
                Err(e) => decrypt_outcome(self@, encrypted_data@) == Err::<Seq<u8>, VaultError>(e),
            },
    {
        let data = match hex_decode(encrypted_data) {
            Some(d) => d,
            None => return Err(VaultError::MalformedBlob),
        };
        if data.len() < NONCE_LEN {
            return Err(VaultError::MalformedBlob);
        }
        let nonce = slice_subrange(data.as_slice(), 0, NONCE_LEN);
        let sealed = slice_subrange(data.as_slice(), NONCE_LEN, data.len());
        assert(nonce@ =~= data@.take(NONCE_LEN as int));
        assert(sealed@ =~= data@.skip(NONCE_LEN as int));
        match aes_open(self.key.as_slice(), nonce, sealed) {
            Some(plain) => Ok(plain),
            None => Err(VaultError::Authentication),
        }
    }
}

} // verus!

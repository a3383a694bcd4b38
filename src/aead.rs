//! The ChaCha20-Poly1305 calls the envelope relies on, with what they promise.
use vstd::prelude::*;

use chacha20poly1305::aead::generic_array::GenericArray;
use chacha20poly1305::aead::{Aead, AeadCore, KeyInit, OsRng, Payload};
use chacha20poly1305::ChaCha20Poly1305;

verus! {

#[verifier::external_type_specification]
#[verifier::external_body]
pub struct ExAeadError(chacha20poly1305::Error);

/// The ChaCha20-Poly1305 ciphertext, tag appended, of `msg` under `key`,
/// `nonce` and associated data `aad`.
pub uninterp spec fn sealed(key: Seq<u8>, nonce: Seq<u8>, aad: Seq<u8>, msg: Seq<u8>) -> Seq<u8>;

/// The plaintext that ChaCha20-Poly1305 authenticates and recovers from `ct`
/// under `key`, `nonce` and `aad`, if any.
pub uninterp spec fn opened(key: Seq<u8>, nonce: Seq<u8>, aad: Seq<u8>, ct: Seq<u8>) -> Option<Seq<u8>>;

/// Messages short enough for one ChaCha20 block counter.
pub open spec fn sealable(msg: Seq<u8>) -> bool {
    msg.len() / 64 < 0xffff_ffff
}

/// When `ct` is what sealing some message produced, `ok` holds and the
/// opened plaintext is that message.
pub open spec fn opens_sealed(key: Seq<u8>, nonce: Seq<u8>, aad: Seq<u8>, ct: Seq<u8>, ok: bool) -> bool {
    forall|m: Seq<u8>|
        sealable(m) && #[trigger] sealed(key, nonce, aad, m) == ct ==> ok && opened(key, nonce, aad, ct)
            == Some(m)
}

/// Relies on `KeyInit::generate_key` for `ChaCha20Poly1305` with the OS random
/// number generator: 32 random bytes.
#[verifier::external_body]
pub fn generate_key() -> (r: [u8; 32]) {
    ChaCha20Poly1305::generate_key(&mut OsRng).into()
}

/// Relies on `AeadCore::generate_nonce` for `ChaCha20Poly1305` with the OS
/// random number generator: 12 random bytes.
#[verifier::external_body]
pub fn generate_nonce() -> (r: [u8; 12]) {
    ChaCha20Poly1305::generate_nonce(&mut OsRng).into()
}

/// Relies on `Aead::encrypt` for `ChaCha20Poly1305`: it refuses a message of
/// `u32::MAX` blocks of 64 bytes or more; otherwise it returns the ciphertext
/// followed by the 16-byte tag.
#[verifier::external_body]
pub(crate) fn seal(key: &[u8; 32], nonce: &[u8; 12], aad: &[u8], msg: &[u8]) -> (r: Result<
    Vec<u8>,
    chacha20poly1305::Error,
>)
    ensures
        r is Ok <==> sealable(msg@),
        r matches Ok(c) ==> c@ == sealed(key@, nonce@, aad@, msg@) && c@.len() == msg@.len() + 16,
{
    let cipher = ChaCha20Poly1305::new(GenericArray::from_slice(key));
    cipher.encrypt(GenericArray::from_slice(nonce), Payload { msg, aad })
}

/// Relies on `Aead::decrypt` for `ChaCha20Poly1305`: it returns the plaintext
/// only when the tag authenticates the ciphertext under the key, nonce and
/// associated data, so what a sealing produced opens to its message.
#[verifier::external_body]
pub(crate) fn open(key: &[u8], nonce: &[u8], aad: &[u8], ct: &[u8]) -> (r: Result<
    Vec<u8>,
    chacha20poly1305::Error,
>)
    requires
        key@.len() == 32,
        nonce@.len() == 12,
    ensures
        match r {
            Ok(p) => opened(key@, nonce@, aad@, ct@) == Some(p@),
            Err(_) => opened(key@, nonce@, aad@, ct@) is None,
        },
        opens_sealed(key@, nonce@, aad@, ct@, r matches Ok(p) && p@ == opened(key@, nonce@, aad@, ct@)->Some_0),
{
    let cipher = ChaCha20Poly1305::new(GenericArray::from_slice(key));
    cipher.decrypt(GenericArray::from_slice(nonce), Payload { msg: ct, aad })
}

} // verus!

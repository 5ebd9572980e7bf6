//! Plain data carried across the interface of the string-level operations.
use vstd::prelude::*;

verus! {

/// The result of key generation: both keys, base64-encoded.
pub struct KeygenResponse {
    pub public_key: String,
    pub secret_key: String,
}

/// A request to encrypt `message` under `public_key`.
pub struct EncryptRequest {
    pub public_key: String,
    pub message: String,
}

/// The encrypted message, base64-encoded.
pub struct EncryptResponse {
    pub ciphertext: String,
}

/// A request to decrypt `ciphertext` under `secret_key`.
pub struct DecryptRequest {
    pub secret_key: String,
    pub ciphertext: String,
}

/// The decrypted message.
pub struct DecryptResponse {
    pub message: String,
}

} // verus!

//! RSA key pairs for node identities, from `openssl`.

use openssl::error::ErrorStack;
use openssl::pkey::Private;
use openssl::rsa::Rsa;
use openssl::symm::Cipher;
use vstd::prelude::*;
use vstd::utf8::encode_utf8;

verus! {

#[verifier::external_type_specification]
#[verifier::external_body]
#[verifier::reject_recursive_types(T)]
pub struct ExRsa<T>(Rsa<T>);

#[verifier::external_type_specification]
#[verifier::external_body]
pub struct ExPrivate(Private);

#[verifier::external_type_specification]
#[verifier::external_body]
pub struct ExErrorStack(ErrorStack);

#[verifier::external_type_specification]
#[verifier::external_body]
pub struct ExCipher(Cipher);

/// How many bits the RSA modulus of a node key has.
pub const KEY_BITS: u32 = 2048;

/// OpenSSL's numeric identifier of AES-128 in CBC mode (`NID_aes_128_cbc`).
pub const AES_128_CBC_NID: u32 = 419;

/// The number of bits of the modulus of an RSA key.
pub uninterp spec fn rsa_bits_of(key: Rsa<Private>) -> nat;

/// The PEM-encoded public half of an RSA key, as `Rsa::public_key_to_pem`
/// writes it.
pub uninterp spec fn public_pem_of(key: Rsa<Private>) -> Seq<u8>;

/// The number of bits of the modulus of the RSA key a public-key PEM holds.
pub uninterp spec fn pem_rsa_bits(pem: Seq<u8>) -> nat;

/// What an encrypted private-key PEM opens to under a passphrase: the
/// public-key PEM of the key inside, or nothing when it does not open.
pub uninterp spec fn unlocked_public_pem(pem: Seq<u8>, passphrase: Seq<u8>) -> Option<Seq<u8>>;

/// OpenSSL's numeric identifier of a cipher (`Cipher::nid`).
pub uninterp spec fn cipher_nid(cipher: Cipher) -> nat;

/// The numeric identifier of the cipher an encrypted private-key PEM names
/// in its header.
pub uninterp spec fn pem_cipher_nid(pem: Seq<u8>) -> nat;

/// `Rsa::generate`: a fresh random RSA key whose modulus has `bits` bits
/// (public exponent 65537), or the error stack of OpenSSL. Which key comes
/// back is chance; only its size is stated.
#[verifier::external_body]
fn rsa_generate(bits: u32) -> (r: Result<Rsa<Private>, ErrorStack>)
    ensures
        r matches Ok(k) ==> rsa_bits_of(k) == bits,
{
    Rsa::generate(bits)
}

/// `Cipher::aes_128_cbc`: the AES-128 cipher in CBC mode, the cipher whose
/// identifier is `NID_aes_128_cbc`.
#[verifier::external_body]
fn aes_128_cbc() -> (c: Cipher)
    ensures
        cipher_nid(c) == AES_128_CBC_NID,
{
    Cipher::aes_128_cbc()
}

/// `Rsa::private_key_to_pem_passphrase`: the private key as a PEM-encoded
/// PKCS#1 structure encrypted with `cipher` under `passphrase`, or the error
/// stack of OpenSSL. The bytes carry a random initialisation vector, so they
/// are not named; what is stated is that the PEM names `cipher` and opens
/// under `passphrase` to the same key (as `private_key_from_pem_passphrase`
/// reads it back). OpenSSL takes the passphrase's length as a C `int`, and
/// the crate asserts that it fits, hence the `requires`.
#[verifier::external_body]
fn private_key_pem(rsa: &Rsa<Private>, cipher: Cipher, passphrase: &[u8]) -> (r: Result<Vec<u8>, ErrorStack>)
    requires
        passphrase@.len() <= i32::MAX,
    ensures
        r matches Ok(p) ==> unlocked_public_pem(p@, passphrase@) == Some(public_pem_of(*rsa))
            && pem_cipher_nid(p@) == cipher_nid(cipher),
{
    rsa.private_key_to_pem_passphrase(cipher, passphrase)
}

/// `Rsa::public_key_to_pem`: the public half of the key as a PEM-encoded
/// SubjectPublicKeyInfo structure (a function of the key), which holds a
/// modulus of the key's size; or the error stack of OpenSSL.
#[verifier::external_body]
fn public_key_pem(rsa: &Rsa<Private>) -> (r: Result<Vec<u8>, ErrorStack>)
    ensures
        r matches Ok(p) ==> p@ == public_pem_of(*rsa) && pem_rsa_bits(p@) == rsa_bits_of(*rsa),
{
    rsa.public_key_to_pem()
}

/// A key pair made for a node under `passphrase`: the private key PEM
/// `private` is encrypted with AES-128-CBC and opens under the passphrase's
/// UTF-8 bytes to the key whose public PEM is `public`, a key of `KEY_BITS`
/// bits.
pub open spec fn is_key_pair_for(private: Seq<u8>, public: Seq<u8>, passphrase: Seq<char>) -> bool {
    &&& unlocked_public_pem(private, encode_utf8(passphrase)) == Some(public)
    &&& pem_cipher_nid(private) == AES_128_CBC_NID
    &&& pem_rsa_bits(public) == KEY_BITS
}

/// A new RSA key pair of `KEY_BITS` bits for a node: the private key as PEM
/// encrypted with AES-128-CBC under `passphrase`, and the public key as PEM.
/// Both are present, or, when OpenSSL fails at any step, neither is.
pub fn key_gen(passphrase: String) -> (pair: (Option<Vec<u8>>, Option<Vec<u8>>))
    requires
        encode_utf8(passphrase@).len() <= i32::MAX,
    ensures
        pair.0 is Some <==> pair.1 is Some,
        pair matches (Some(k), Some(p)) ==> is_key_pair_for(k@, p@, passphrase@),
{
    let rsa = match rsa_generate(KEY_BITS) {
        Ok(rsa) => rsa,
        Err(_) => return (None, None),
    };
    let pkey = match private_key_pem(&rsa, aes_128_cbc(), passphrase.as_str().as_bytes()) {
        Ok(pem) => pem,
        Err(_) => return (None, None),
    };
    match public_key_pem(&rsa) {
        Ok(pub_key) => (Some(pkey), Some(pub_key)),
        Err(_) => (None, None),
    }
}

} // verus!

//! Signature engine: stateless hash-based post-quantum signatures
//! (SLH-DSA, the standardized form of SPHINCS+), used to bind a block's
//! proof-of-work to its signer and to sign transaction payloads.

use vstd::prelude::*;
use rand::RngExt;
use slh_dsa::signature::Keypair as SignatureKeypair;

verus! {

/// The byte length of every signature the scheme produces.
pub const SIGNATURE_BYTES: usize = 17088;

/// Whether `sig` is a valid signature on `msg` under verifying key `pk`.
/// Verification is a fixed function of these three byte strings alone.
pub uninterp spec fn sig_verifies(msg: Seq<u8>, sig: Seq<u8>, pk: Seq<u8>) -> bool;

/// The verifying key determined by a serialized signing key.
pub uninterp spec fn public_of(sk: Seq<u8>) -> Seq<u8>;

/// Whether a byte string parses as a well-formed signing key: one whose
/// stored public root is the true root determined by its seeds, as key
/// generation produces it.
pub uninterp spec fn secret_wf(sk: Seq<u8>) -> bool;

/// Relies on slh_dsa::SigningKey::slh_keygen_internal and verifying_key:
/// a freshly generated signing key parses back, and its verifying key is a
/// function of the signing key alone. The seeds are drawn from the process
/// RNG, so nothing else is promised of the keys themselves.
#[verifier::external_body]
fn keygen_bytes() -> (r: (Vec<u8>, Vec<u8>))
    ensures
        secret_wf(r.1@),
        r.0@ == public_of(r.1@),
{
    let mut seed = [0u8; 48];
    let mut rng = rand::rng();
    rng.fill(&mut seed[..]);
    let sk = slh_dsa::SigningKey::<slh_dsa::Shake128f>::slh_keygen_internal(
        &seed[0..16],
        &seed[16..32],
        &seed[32..48],
    );
    let vk = sk.verifying_key();
    (vk.to_vec(), sk.to_vec())
}

/// Relies on slh_dsa deterministic signing (FIPS 205): signing with a
/// well-formed key succeeds with a signature of the scheme's fixed length,
/// and a signature produced by a well-formed key (one whose stored root is
/// the true hypertree root of its seeds) verifies under the key's verifying
/// key. A 64-byte string with a wrong root still parses and signs, so the
/// verification clause holds only under `secret_wf`.
#[verifier::external_body]
fn sign_bytes(sk: &Vec<u8>, msg: &Vec<u8>) -> (r: Option<Vec<u8>>)
    ensures
        secret_wf(sk@) ==> r is Some,
        r matches Some(s) ==> s@.len() == SIGNATURE_BYTES,
        secret_wf(sk@) ==> (r matches Some(s) ==> sig_verifies(msg@, s@, public_of(sk@))),
{
    match slh_dsa::SigningKey::<slh_dsa::Shake128f>::try_from(sk.as_slice()) {
        Ok(k) => Some(slh_dsa::signature::Signer::sign(&k, msg.as_slice()).to_vec()),
        Err(_) => None,
    }
}

/// Relies on slh_dsa::VerifyingKey::verify: deterministic verification of a
/// signature on a message under a verifying key; malformed keys or
/// signatures never verify.
#[verifier::external_body]
fn verify_bytes(msg: &Vec<u8>, sig: &Vec<u8>, pk: &Vec<u8>) -> (r: bool)
    ensures
        r == sig_verifies(msg@, sig@, pk@),
{
    let k = match slh_dsa::VerifyingKey::<slh_dsa::Shake128f>::try_from(pk.as_slice()) {
        Ok(k) => k,
        Err(_) => {
            return false;
        },
    };
    let s = match slh_dsa::Signature::<slh_dsa::Shake128f>::try_from(sig.as_slice()) {
        Ok(s) => s,
        Err(_) => {
            return false;
        },
    };
    slh_dsa::signature::Verifier::verify(&k, msg.as_slice(), &s).is_ok()
}

/// A signing/verifying key pair. The secret half never leaves the value.
pub struct Keypair {
    /// The serialized verifying key, safe to publish.
    pub public: Vec<u8>,
    secret: Vec<u8>,
}

impl Keypair {
    /// The keypair is coherent: the secret parses, and `public` is its
    /// verifying key.
    pub closed spec fn wf(self) -> bool {
        secret_wf(self.secret@) && self.public@ == public_of(self.secret@)
    }

    /// The published verifying key, as a byte string.
    pub closed spec fn public_view(self) -> Seq<u8> {
        self.public@
    }

    /// The published verifying key.
    pub fn public_key(&self) -> (r: &Vec<u8>)
        ensures
            r@ == self.public_view(),
    {
        &self.public
    }

    /// Generates a fresh keypair.
    pub fn new() -> (r: Keypair)
        ensures
            r.wf(),
    {
        let (public, secret) = keygen_bytes();
        Keypair { public, secret }
    }

    /// Signs a message. Every signature this returns has the scheme's
    /// fixed length and verifies under `self.public`.
    pub fn sign(&self, message: &Vec<u8>) -> (sig: Vec<u8>)
        requires
            self.wf(),
        ensures
            sig@.len() == SIGNATURE_BYTES,
            sig_verifies(message@, sig@, self.public_view()),
    {
        match sign_bytes(&self.secret, message) {
            Some(s) => s,
            None => {
                proof {
                    assert(false);
                }
                Vec::new()
            },
        }
    }

    /// Verifies a signature on a message under a verifying key. Pure and
    /// deterministic.
    pub fn verify(message: &Vec<u8>, signature: &Vec<u8>, public_key: &Vec<u8>) -> (r: bool)
        ensures
            r == sig_verifies(message@, signature@, public_key@),
    {
        verify_bytes(message, signature, public_key)
    }
}

} // verus!

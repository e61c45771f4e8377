use vstd::prelude::*;
use crate::types::{PrivateKey, PublicKey};

verus! {

// ---------------------------------------------------------------------------
// Names for what the outside cryptographic functions return. Each is a pure
// function of its arguments; the wrappers below relate the real calls to them.
// ---------------------------------------------------------------------------

pub uninterp spec fn sha256_of(data: Seq<u8>) -> Seq<u8>;

pub uninterp spec fn base_mul_of(scalar: Seq<u8>) -> Option<Seq<u8>>;

pub uninterp spec fn point_add_of(a: Seq<u8>, b: Seq<u8>) -> Option<Seq<u8>>;

pub uninterp spec fn point_mul_of(point: Seq<u8>, scalar: Seq<u8>) -> Option<Seq<u8>>;

pub uninterp spec fn scalar_add_of(a: Seq<u8>, b: Seq<u8>) -> Option<Seq<u8>>;

pub uninterp spec fn scalar_mul_of(a: Seq<u8>, b: Seq<u8>) -> Option<Seq<u8>>;

pub open spec fn opt32_view(o: Option<[u8; 32]>) -> Option<Seq<u8>> {
    match o {
        Some(a) => Some(a@),
        None => None,
    }
}

pub open spec fn opt33_view(o: Option<[u8; 33]>) -> Option<Seq<u8>> {
    match o {
        Some(a) => Some(a@),
        None => None,
    }
}

// ---------------------------------------------------------------------------
// Trusted wrappers around the outside calls.
// ---------------------------------------------------------------------------

/// Relies on bitcoin_hashes' sha256 (re-exported by secp256k1): a 32-byte
/// digest that depends on the input bytes alone.
#[verifier::external_body]
pub(crate) fn sha256(data: &Vec<u8>) -> (r: [u8; 32])
    ensures
        r@ == sha256_of(data@),
{
    let h = <secp256k1::hashes::sha256::Hash as secp256k1::hashes::Hash>::hash(data.as_slice());
    secp256k1::hashes::Hash::to_byte_array(h)
}

/// Relies on secp256k1's SecretKey::from_slice and PublicKey::from_secret_key:
/// multiplies the base point by the scalar; fails exactly when the scalar is
/// not a valid secret key (zero or not below the curve order).
#[verifier::external_body]
pub(crate) fn base_mul(scalar: &[u8; 32]) -> (r: Option<[u8; 33]>)
    ensures
        opt33_view(r) == base_mul_of(scalar@),
{
    let secp = secp256k1::Secp256k1::new();
    match secp256k1::SecretKey::from_slice(scalar) {
        Ok(sk) => Some(secp256k1::PublicKey::from_secret_key(&secp, &sk).serialize()),
        Err(_) => None,
    }
}

/// Relies on secp256k1's PublicKey::combine: adds two curve points; fails when
/// an argument is not a valid point or the sum is the point at infinity.
#[verifier::external_body]
pub(crate) fn point_add(a: &[u8; 33], b: &[u8; 33]) -> (r: Option<[u8; 33]>)
    ensures
        opt33_view(r) == point_add_of(a@, b@),
{
    let pa = match secp256k1::PublicKey::from_slice(a) {
        Ok(p) => p,
        Err(_) => return None,
    };
    let pb = match secp256k1::PublicKey::from_slice(b) {
        Ok(p) => p,
        Err(_) => return None,
    };
    match pa.combine(&pb) {
        Ok(p) => Some(p.serialize()),
        Err(_) => None,
    }
}

/// Relies on secp256k1's PublicKey::mul_tweak: multiplies a curve point by a
/// scalar; fails when the point or scalar is invalid or the result would be
/// the point at infinity.
#[verifier::external_body]
pub(crate) fn point_mul(point: &[u8; 33], scalar: &[u8; 32]) -> (r: Option<[u8; 33]>)
    ensures
        opt33_view(r) == point_mul_of(point@, scalar@),
{
    let secp = secp256k1::Secp256k1::new();
    let p = match secp256k1::PublicKey::from_slice(point) {
        Ok(p) => p,
        Err(_) => return None,
    };
    let t = match secp256k1::Scalar::from_be_bytes(*scalar) {
        Ok(t) => t,
        Err(_) => return None,
    };
    match p.mul_tweak(&secp, &t) {
        Ok(q) => Some(q.serialize()),
        Err(_) => None,
    }
}

/// Relies on secp256k1's SecretKey::add_tweak: adds two scalars modulo the
/// curve order; fails when an argument or the sum is not a valid secret key.
#[verifier::external_body]
pub(crate) fn scalar_add(a: &[u8; 32], b: &[u8; 32]) -> (r: Option<[u8; 32]>)
    ensures
        opt32_view(r) == scalar_add_of(a@, b@),
{
    let sa = match secp256k1::SecretKey::from_slice(a) {
        Ok(s) => s,
        Err(_) => return None,
    };
    let t = match secp256k1::Scalar::from_be_bytes(*b) {
        Ok(t) => t,
        Err(_) => return None,
    };
    match sa.add_tweak(&t) {
        Ok(s) => Some(s.secret_bytes()),
        Err(_) => None,
    }
}

/// Relies on secp256k1's SecretKey::mul_tweak: multiplies two scalars modulo
/// the curve order; fails when an argument or the product is not a valid
/// secret key.
#[verifier::external_body]
pub(crate) fn scalar_mul(a: &[u8; 32], b: &[u8; 32]) -> (r: Option<[u8; 32]>)
    ensures
        opt32_view(r) == scalar_mul_of(a@, b@),
{
    let sa = match secp256k1::SecretKey::from_slice(a) {
        Ok(s) => s,
        Err(_) => return None,
    };
    let t = match secp256k1::Scalar::from_be_bytes(*b) {
        Ok(t) => t,
        Err(_) => return None,
    };
    match sa.mul_tweak(&t) {
        Ok(s) => Some(s.secret_bytes()),
        Err(_) => None,
    }
}

/// Relies on secp256k1's SecretKey::new with rand's thread-local generator:
/// draws until the bytes form a valid secret key, so the result is always in
/// range and the base point can be multiplied by it.
#[verifier::external_body]
pub(crate) fn gen_scalar() -> (r: [u8; 32])
    ensures
        base_mul_of(r@) is Some,
{
    secp256k1::SecretKey::new(&mut rand::rng()).secret_bytes()
}

// ---------------------------------------------------------------------------
// Verified compositions.
// ---------------------------------------------------------------------------

/// The challenge scalar of the signing scheme: the digest of the nonce point
/// followed by the message.
pub open spec fn challenge_of(nonce_point: Seq<u8>, message: Seq<u8>) -> Seq<u8> {
    sha256_of(nonce_point + message)
}

/// The verification equation for one signer: the response scalar times the
/// base point equals the signer's nonce point plus the challenge times the
/// signer's public key.
pub open spec fn eq_holds(pk: Seq<u8>, nonce_point: Seq<u8>, e: Seq<u8>, s: Seq<u8>) -> bool {
    &&& base_mul_of(s) is Some
    &&& point_mul_of(pk, e) is Some
    &&& point_add_of(nonce_point, point_mul_of(pk, e)->0) == base_mul_of(s)
}

/// A full signature is valid when the equation holds for the challenge
/// derived from its own nonce point and the message.
pub open spec fn sig_valid(pk: Seq<u8>, message: Seq<u8>, nonce_point: Seq<u8>, s: Seq<u8>) -> bool {
    eq_holds(pk, nonce_point, challenge_of(nonce_point, message), s)
}

/// A signature: the signer's (or the session's aggregate) nonce point and the
/// response scalar.
#[derive(Clone, Copy, Debug)]
pub struct SchnorrSignature {
    pub nonce_point: [u8; 33],
    pub response: [u8; 32],
}

pub fn concat_bytes(a: &[u8; 33], b: &[u8; 32]) -> (r: Vec<u8>)
    ensures
        r@ == a@ + b@,
{
    let mut v: Vec<u8> = Vec::new();
    let mut i: usize = 0;
    while i < 33
        invariant
            i <= 33,
            v@ == a@.take(i as int),
        decreases 33 - i,
    {
        v.push(a[i]);
        proof {
            assert(v@ =~= a@.take(i + 1));
        }
        i += 1;
    }
    proof {
        assert(v@ =~= a@);
    }
    let mut j: usize = 0;
    while j < 32
        invariant
            j <= 32,
            v@ == a@ + b@.take(j as int),
        decreases 32 - j,
    {
        v.push(b[j]);
        proof {
            assert(v@ =~= a@ + b@.take(j + 1));
        }
        j += 1;
    }
    proof {
        assert(v@ =~= a@ + b@);
    }
    v
}

/// The challenge scalar for a nonce point and a 32-byte message.
pub fn challenge(nonce_point: &[u8; 33], message: &[u8; 32]) -> (r: [u8; 32])
    ensures
        r@ == challenge_of(nonce_point@, message@),
{
    let buf = concat_bytes(nonce_point, message);
    sha256(&buf)
}

/// Checks the per-signer verification equation for a given challenge.
pub fn check_equation(pk: &[u8; 33], nonce_point: &[u8; 33], e: &[u8; 32], s: &[u8; 32]) -> (r: bool)
    ensures
        r == eq_holds(pk@, nonce_point@, e@, s@),
{
    let lhs = match base_mul(s) {
        Some(p) => p,
        None => {
            return false;
        },
    };
    let ep = match point_mul(pk, e) {
        Some(p) => p,
        None => {
            return false;
        },
    };
    match point_add(nonce_point, &ep) {
        Some(rhs) => crate::types::bytes33_eq(&rhs, &lhs),
        None => false,
    }
}

/// Checks the verification equation for a public key, message, nonce point
/// and response scalar.
pub fn check_sig_equation(pk: &[u8; 33], message: &[u8; 32], nonce_point: &[u8; 33], s: &[u8; 32]) -> (r: bool)
    ensures
        r == sig_valid(pk@, message@, nonce_point@, s@),
{
    let e = challenge(nonce_point, message);
    check_equation(pk, nonce_point, &e, s)
}

/// Checks a signature against a public key and message.
pub fn verify_signature(pk: &PublicKey, message: &[u8; 32], sig: &SchnorrSignature) -> (r: bool)
    ensures
        r == sig_valid(pk.bytes@, message@, sig.nonce_point@, sig.response@),
{
    check_sig_equation(&pk.bytes, message, &sig.nonce_point, &sig.response)
}

/// Draws a fresh key pair. The public part is the base point times the secret
/// part; the secret part is never serialized by the core.
pub fn generate_keypair() -> (r: (PrivateKey, PublicKey))
    ensures
        base_mul_of(r.0.bytes@) == Some(r.1.bytes@),
{
    let sk = gen_scalar();
    let pk = match base_mul(&sk) {
        Some(p) => p,
        None => {
            proof {
                assert(false);
            }
            unreached()
        },
    };
    (PrivateKey { bytes: sk }, PublicKey { bytes: pk })
}

/// Signs a 32-byte message with one key: draws a nonce, commits to its point,
/// and responds with nonce plus challenge times the secret key.
pub fn schnorr_sign(private_key: &PrivateKey, message: &[u8; 32]) -> (r: Result<SchnorrSignature, crate::WalletError>)
    ensures
        r matches Ok(sig) ==> sig_valid(
            base_mul_of(private_key.bytes@)->0,
            message@,
            sig.nonce_point@,
            sig.response@,
        ) && base_mul_of(private_key.bytes@) is Some,
        r matches Err(e) ==> e == crate::WalletError::InvalidInput,
{
    let pk = match base_mul(&private_key.bytes) {
        Some(p) => p,
        None => {
            return Err(crate::WalletError::InvalidInput);
        },
    };
    let k = gen_scalar();
    let nonce_point = match base_mul(&k) {
        Some(p) => p,
        None => {
            proof {
                assert(false);
            }
            unreached()
        },
    };
    let e = challenge(&nonce_point, message);
    let ex = match scalar_mul(&private_key.bytes, &e) {
        Some(s) => s,
        None => {
            return Err(crate::WalletError::InvalidInput);
        },
    };
    let s = match scalar_add(&k, &ex) {
        Some(s) => s,
        None => {
            return Err(crate::WalletError::InvalidInput);
        },
    };
    // The response is only returned when it satisfies the equation, so the
    // contract does not rest on the algebra of the curve.
    if check_sig_equation(&pk, message, &nonce_point, &s) {
        Ok(SchnorrSignature { nonce_point, response: s })
    } else {
        Err(crate::WalletError::InvalidInput)
    }
}


/// Left-to-right combination of curve points, as aggregate keys and nonces
/// are built.
pub open spec fn combine_points_of(pts: Seq<Seq<u8>>) -> Option<Seq<u8>>
    decreases pts.len(),
{
    if pts.len() == 0 {
        None
    } else if pts.len() == 1 {
        Some(pts[0])
    } else {
        match combine_points_of(pts.drop_last()) {
            Some(acc) => point_add_of(acc, pts.last()),
            None => None,
        }
    }
}

/// Left-to-right combination of response scalars, as the aggregate signature
/// is built.
pub open spec fn combine_scalars_of(ss: Seq<Seq<u8>>) -> Option<Seq<u8>>
    decreases ss.len(),
{
    if ss.len() == 0 {
        None
    } else if ss.len() == 1 {
        Some(ss[0])
    } else {
        match combine_scalars_of(ss.drop_last()) {
            Some(acc) => scalar_add_of(acc, ss.last()),
            None => None,
        }
    }
}

/// Combines a set of public keys into one aggregate key, the key a complete
/// session's signature verifies against.
pub fn aggregate_public_keys(keys: &Vec<PublicKey>) -> (r: Option<PublicKey>)
    requires
        keys@.len() >= 1,
    ensures
        (match r {
            Some(p) => combine_points_of(crate::types::keys_view(keys@)) == Some(p.bytes@),
            None => combine_points_of(crate::types::keys_view(keys@)) is None,
        }),
{
    let ghost views = crate::types::keys_view(keys@);
    let mut acc = keys[0].bytes;
    proof {
        assert(views.take(1).len() == 1);
        assert(views.take(1)[0] == views[0]);
        assert(combine_points_of(views.take(1)) == Some(acc@));
    }
    let mut i: usize = 1;
    while i < keys.len()
        invariant
            1 <= i <= keys@.len(),
            views == crate::types::keys_view(keys@),
            combine_points_of(views.take(i as int)) == Some(acc@),
        decreases keys@.len() - i,
    {
        let next = keys[i].bytes;
        let combined = match point_add(&acc, &next) {
            Some(p) => p,
            None => {
                proof {
                    let t = views.take(i + 1);
                    assert(t.drop_last() =~= views.take(i as int));
                    assert(t.last() == views[i as int]);
                    assert(combine_points_of(t) == point_add_of(acc@, next@));
                    lemma_combine_points_prefix_none(views, i + 1);
                }
                return None;
            },
        };
        proof {
            let t = views.take(i + 1);
            assert(t.drop_last() =~= views.take(i as int));
            assert(t.last() == views[i as int]);
            assert(combine_points_of(t) == point_add_of(acc@, next@));
        }
        acc = combined;
        i += 1;
    }
    proof {
        assert(views.take(views.len() as int) =~= views);
    }
    Some(PublicKey { bytes: acc })
}

/// Once a prefix combination fails, the whole combination fails.
pub proof fn lemma_combine_points_prefix_none(views: Seq<Seq<u8>>, k: int)
    requires
        1 <= k <= views.len(),
        combine_points_of(views.take(k)) is None,
    ensures
        combine_points_of(views) is None,
    decreases views.len() - k,
{
    if k == views.len() {
        assert(views.take(k) =~= views);
    } else {
        let t1 = views.take(k + 1);
        assert(t1.drop_last() =~= views.take(k));
        assert(t1.len() >= 2);
        assert(combine_points_of(t1) is None);
        lemma_combine_points_prefix_none(views, k + 1);
    }
}

} // verus!

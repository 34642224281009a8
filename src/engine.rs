use vstd::prelude::*;
use vstd::utf8::{decode_utf8, encode_utf8};
use crate::claims::{
    deserialize_payload, header_bytes, header_json, payload_json, payload_of,
    serialize_payload, Payload,
};
use crate::codec::{
    b64url, copy_range, decode_segment, encode_segment, lemma_ascii_valid_utf8,
    lemma_b64url_alphabet, lemma_dot_pair_unique, segment_bytes, split_token, token_parts,
    utf8_text,
};
use crate::keystore::{public_key_of, Keystore};
use crate::msg::{ContractError, PubKeyResponse, ValidateResponse};

verus! {

broadcast use vstd::utf8::encode_utf8_decode_utf8;

/// The SHA-256 digest of a byte string.
pub uninterp spec fn sha256_of(data: Seq<u8>) -> Seq<u8>;

/// Relies on secret_toolkit_crypto's `sha_256`: the SHA-256 digest of the data.
#[verifier::external_body]
fn sha_256(data: &[u8]) -> (r: [u8; 32])
    ensures
        r@ == sha256_of(data@),
{
    secret_toolkit_crypto::sha_256(data)
}

pub open spec fn nanos_per_second() -> int {
    1_000_000_000
}

/// The instant (nanoseconds) at which a token issued at `now` stops being valid.
pub open spec fn expires_at(now: u64, expiry_seconds: u64) -> int {
    now as int + expiry_seconds as int * nanos_per_second()
}

/// The wire form of a token: its three segments encoded and joined by dots.
pub open spec fn token_bytes(header: Seq<u8>, payload: Seq<u8>, signature: Seq<u8>) -> Seq<u8> {
    b64url(header) + seq![46u8] + b64url(payload) + seq![46u8] + b64url(signature)
}

/// What validation of the token bytes `t` at `now` hands to signature
/// verification: the message that must have been signed (decoded header
/// followed by decoded payload) and the decoded signature. `None` where the
/// token is malformed, its payload is no canonical payload, or it has expired.
pub open spec fn inspect(t: Seq<u8>, now: u64) -> Option<(Seq<u8>, Seq<u8>)> {
    match token_parts(t) {
        None => None,
        Some((hs, ps, ss)) => match segment_bytes(ps) {
            None => None,
            Some(pb) => match payload_of(pb) {
                None => None,
                Some((_, exp)) => if now >= exp {
                    None
                } else {
                    match (segment_bytes(hs), segment_bytes(ss)) {
                        (Some(hb), Some(sb)) => Some((hb + pb, sb)),
                        _ => None,
                    }
                },
            },
        },
    }
}

/// Length of a compact secp256k1 signature.
pub open spec fn signature_len() -> nat {
    64
}

/// The public key as returned to callers: its encoded text.
pub open spec fn pubkey_text(secret: Seq<u8>) -> Seq<char> {
    decode_utf8(b64url(public_key_of(secret)))
}

/// What a token's signature must cover, and the key that signs it.
pub struct SigningRequest {
    pub header: Vec<u8>,
    pub payload: Vec<u8>,
    pub message: Vec<u8>,
    pub private_key: [u8; 32],
}

/// Where validation stands: decided, or waiting on a signature check of
/// `signature` over `message_hash` against `public_key`.
pub enum ValidationStep {
    Done(ValidateResponse),
    Verify { message_hash: [u8; 32], signature: Vec<u8>, public_key: [u8; 65] },
}

impl Keystore {
    /// Builds the header and payload of a token for `sender`, issued at `now`
    /// (nanoseconds), and the message to sign.
    pub fn try_provision(&self, sender: &str, now: u64) -> (r: Result<SigningRequest, ContractError>)
        requires
            self@.wf(),
        ensures
            self@.expiry is None ==> r matches Err(ContractError::PolicyNotFound),
            self@.expiry is Some && expires_at(now, self@.expiry->Some_0) > u64::MAX ==> r matches Err(
                ContractError::ProvisionError {  },
            ),
            self@.expiry is Some && expires_at(now, self@.expiry->Some_0) <= u64::MAX
                && self@.secret is None ==> r matches Err(
                ContractError::KeyNotFound,
            ),
            r matches Ok(req) ==> {
                &&& self@.expiry is Some && self@.secret is Some
                &&& req.header@ == header_json()
                &&& req.payload@ == payload_json(
                    encode_utf8(sender@),
                    expires_at(now, self@.expiry->Some_0) as u64,
                )
                &&& req.message@ == req.header@ + req.payload@
                &&& req.private_key@ == self@.secret->Some_0
            },
            self@.expiry is Some && expires_at(now, self@.expiry->Some_0) <= u64::MAX
                && self@.secret is Some ==> r is Ok,
    {
        let expiry = self.load_expiry()?;
        if expiry > (u64::MAX - now) / 1_000_000_000 {
            return Err(ContractError::ProvisionError {  });
        }
        let exp: u64 = now + expiry * 1_000_000_000;
        let header = header_bytes();
        let payload = serialize_payload(&Payload { address: sender.to_owned(), exp });
        let private_key = self.load_keypair()?;
        let mut message: Vec<u8> = Vec::new();
        message.extend_from_slice(header.as_slice());
        message.extend_from_slice(payload.as_slice());
        Ok(SigningRequest { header, payload, message, private_key })
    }
}

/// Assembles the token from a signing request and what the signer returned
/// (`None`: the signing provider failed).
pub fn finish_provision(req: &SigningRequest, signed: Option<Vec<u8>>) -> (r: Result<String, ContractError>)
    ensures
        signed is None ==> r matches Err(ContractError::SigningError),
        signed is Some ==> (r matches Ok(t) && encode_utf8(t@) == token_bytes(
            req.header@,
            req.payload@,
            signed->Some_0@,
        )),
{
    let signature = match signed {
        Some(s) => s,
        None => {
            return Err(ContractError::SigningError);
        },
    };
    let mut out = encode_segment(req.header.as_slice());
    out.push(46);
    let mut p = encode_segment(req.payload.as_slice());
    out.append(&mut p);
    out.push(46);
    let mut s = encode_segment(signature.as_slice());
    out.append(&mut s);
    proof {
        let t = token_bytes(req.header@, req.payload@, signature@);
        assert(out@ =~= t);
        lemma_b64url_alphabet(req.header@);
        lemma_b64url_alphabet(req.payload@);
        lemma_b64url_alphabet(signature@);
        let lh = b64url(req.header@).len() as int;
        let lp = b64url(req.payload@).len() as int;
        assert forall|i: int| 0 <= i < t.len() implies #[trigger] t[i] < 128 by {
            if i < lh {
                assert(t[i] == b64url(req.header@)[i]);
            } else if lh < i < lh + 1 + lp {
                assert(t[i] == b64url(req.payload@)[i - lh - 1]);
            } else if i > lh + 1 + lp {
                assert(t[i] == b64url(signature@)[i - lh - lp - 2]);
            }
        }
        lemma_ascii_valid_utf8(t);
    }
    match utf8_text(out) {
        Some(t) => Ok(t),
        None => Err(ContractError::ProvisionError {  }),
    }
}

/// Validates a token at `now` (nanoseconds) up to the signature check. A
/// malformed or expired token is answered `valid: false`; a well-formed,
/// unexpired one needs the key (else `KeyNotFound`), and is then answered
/// `valid: false` if its signature is no compact (64-byte) signature.
pub fn validate_jwt(ks: &Keystore, jwt: &str, now: u64) -> (r: Result<ValidationStep, ContractError>)
    requires
        ks@.wf(),
    ensures
        inspect(encode_utf8(jwt@), now) is None ==> (r matches Ok(ValidationStep::Done(v))
            && !v.valid),
        inspect(encode_utf8(jwt@), now) is Some && ks@.secret is None ==> r matches Err(
            ContractError::KeyNotFound,
        ),
        inspect(encode_utf8(jwt@), now) is Some && ks@.secret is Some
            && inspect(encode_utf8(jwt@), now)->Some_0.1.len() != signature_len() ==> (r matches Ok(
            ValidationStep::Done(v),
        ) && !v.valid),
        inspect(encode_utf8(jwt@), now) is Some && ks@.secret is Some
            && inspect(encode_utf8(jwt@), now)->Some_0.1.len() == signature_len() ==> (r matches Ok(
            ValidationStep::Verify { message_hash, signature, public_key },
        ) && message_hash@ == sha256_of(inspect(encode_utf8(jwt@), now)->Some_0.0)
            && signature@ == inspect(encode_utf8(jwt@), now)->Some_0.1 && public_key@
            == public_key_of(ks@.secret->Some_0)),
{
    let invalid = ValidationStep::Done(ValidateResponse { valid: false });
    let t = jwt.as_bytes();
    let (i, j) = match split_token(t) {
        Some(p) => p,
        None => {
            return Ok(invalid);
        },
    };
    assert(crate::codec::is_dot_pair(t@, i as int, j as int));
    let n = t.len();
    assert(j + 1 < n);
    let hs = copy_range(t, 0, i);
    let ps = copy_range(t, i + 1, j);
    let ss = copy_range(t, j + 1, n);
    proof {
        let (i2, j2) = choose|i2: int, j2: int| crate::codec::is_dot_pair(t@, i2, j2);
        lemma_dot_pair_unique(t@, i as int, j as int, i2, j2);
        assert(token_parts(t@) == Some((hs@, ps@, ss@)));
    }
    let mut pb = match decode_segment(ps.as_slice()) {
        Some(b) => b,
        None => {
            return Ok(invalid);
        },
    };
    let payload = match deserialize_payload(pb.as_slice()) {
        Some(p) => p,
        None => {
            return Ok(invalid);
        },
    };
    if now >= payload.exp {
        return Ok(invalid);
    }
    let mut message = match decode_segment(hs.as_slice()) {
        Some(b) => b,
        None => {
            return Ok(invalid);
        },
    };
    let ghost pv = pb@;
    message.append(&mut pb);
    let message_hash = sha_256(message.as_slice());
    let signature = match decode_segment(ss.as_slice()) {
        Some(b) => b,
        None => {
            return Ok(invalid);
        },
    };
    let public_key = match ks.public_key() {
        Ok(k) => k,
        Err(_) => {
            return Err(ContractError::KeyNotFound);
        },
    };
    if signature.len() != 64 {
        return Ok(invalid);
    }
    Ok(ValidationStep::Verify { message_hash, signature, public_key })
}

/// Turns the signature check's outcome into the answer (`None`: the
/// verification provider failed).
pub fn finish_validation(outcome: Option<bool>) -> (r: Result<ValidateResponse, ContractError>)
    ensures
        outcome is None ==> r matches Err(ContractError::VerificationError),
        outcome is Some ==> (r matches Ok(resp) && resp.valid == outcome->Some_0),
{
    match outcome {
        Some(v) => Ok(ValidateResponse { valid: v }),
        None => Err(ContractError::VerificationError),
    }
}

/// The public key, URL-safe base64 without padding.
pub fn get_public_key(ks: &Keystore) -> (r: Result<PubKeyResponse, ContractError>)
    requires
        ks@.wf(),
    ensures
        ks@.secret is None ==> r matches Err(ContractError::KeyNotFound),
        ks@.secret is Some ==> (r matches Ok(resp) && resp.pubkey@ == pubkey_text(
            ks@.secret->Some_0,
        )),
{
    let key = ks.public_key()?;
    let text = encode_segment(&key);
    proof {
        lemma_b64url_alphabet(key@);
        lemma_ascii_valid_utf8(text@);
    }
    match utf8_text(text) {
        Some(pubkey) => {
            assert(decode_utf8(encode_utf8(pubkey@)) == pubkey@);
            Ok(PubKeyResponse { pubkey })
        },
        None => Err(ContractError::KeyNotFound),
    }
}

} // verus!

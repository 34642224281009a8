use jwt_keeper::{
    decode_segment, deserialize_payload, encode_segment, finish_provision, finish_validation,
    header_bytes, serialize_header, serialize_payload, Header, split_token, validate_jwt, ContractError, Keystore, Payload,
    SigningRequest, ValidationStep,
};
use secret_cosmwasm_std::testing::{mock_env, MockApi};
use secret_cosmwasm_std::Api;

const SECOND: u64 = 1_000_000_000;
const HOUR: u64 = 3600 * SECOND;

fn seed() -> [u8; 32] {
    mock_env().block.random.unwrap().to_array().unwrap()
}

fn t0() -> u64 {
    mock_env().block.time.nanos()
}

fn setup(hours: u8) -> Keystore {
    let mut ks = Keystore::new();
    ks.initialize(Some(seed()), hours).unwrap();
    ks
}

fn sign(req: &SigningRequest) -> Option<Vec<u8>> {
    MockApi::default().secp256k1_sign(&req.message, &req.private_key).ok()
}

fn issue(ks: &Keystore, subject: &str, now: u64) -> String {
    let req = ks.try_provision(subject, now).unwrap();
    finish_provision(&req, sign(&req)).unwrap()
}

fn is_valid(ks: &Keystore, jwt: &str, now: u64) -> bool {
    match validate_jwt(ks, jwt, now).unwrap() {
        ValidationStep::Done(r) => r.valid,
        ValidationStep::Verify { message_hash, signature, public_key } => {
            let outcome = MockApi::default().secp256k1_verify(&message_hash, &signature, &public_key);
            finish_validation(outcome.ok()).unwrap().valid
        }
    }
}

#[test]
fn round_trip_valid_until_expiry() {
    let ks = setup(1);
    let jwt = issue(&ks, "secret1identity", t0());
    assert!(is_valid(&ks, &jwt, t0()));
    assert!(is_valid(&ks, &jwt, t0() + HOUR - 1));
    assert!(!is_valid(&ks, &jwt, t0() + HOUR));
    assert!(!is_valid(&ks, &jwt, t0() + 2 * HOUR));
}

#[test]
fn end_to_end_example() {
    let ks = setup(24);
    let jwt = issue(&ks, "alice", t0());
    assert!(is_valid(&ks, &jwt, t0() + 23 * HOUR + 59 * 60 * SECOND));
    assert!(!is_valid(&ks, &jwt, t0() + 24 * HOUR + 60 * SECOND));
}

#[test]
fn expiry_boundary_is_invalid() {
    let ks = setup(2);
    let jwt = issue(&ks, "bob", t0());
    assert!(!is_valid(&ks, &jwt, t0() + 2 * HOUR));
    assert!(is_valid(&ks, &jwt, t0() + 2 * HOUR - 1));
}

#[test]
fn tampered_payload_bytes_are_rejected() {
    let ks = setup(24);
    let jwt = issue(&ks, "carol", t0());
    let dot = jwt.find('.').unwrap();
    let second = dot + 1 + jwt[dot + 1..].find('.').unwrap();
    let seg: Vec<u8> = decode_segment(jwt[dot + 1..second].as_bytes()).unwrap();
    for k in 0..seg.len() {
        let mut bytes = seg.clone();
        bytes[k] ^= 0x01;
        let enc = String::from_utf8(encode_segment(&bytes)).unwrap();
        let forged = format!("{}.{}.{}", &jwt[..dot], enc, &jwt[second + 1..]);
        assert!(!is_valid(&ks, &forged, t0()));
    }
}

#[test]
fn tampered_signature_is_rejected() {
    let ks = setup(24);
    let jwt = issue(&ks, "dave", t0());
    let other = issue(&ks, "erin", t0());
    let sig_other = &other[other.rfind('.').unwrap() + 1..];
    let forged = format!("{}.{}", &jwt[..jwt.rfind('.').unwrap()], sig_other);
    assert!(!is_valid(&ks, &forged, t0()));
}

#[test]
fn malformed_tokens_are_invalid_not_errors() {
    let ks = setup(24);
    let jwt = issue(&ks, "frank", t0());
    let cases = vec![
        String::new(),
        "abc".to_string(),
        "a.b".to_string(),
        format!("{}.extra", jwt),
        format!("..{}", jwt),
        "a..b".to_string(),
        "!!!.???.***".to_string(),
        format!("{}=", jwt),
        "eyJ0eXAiOiJKV1QiLCJhbGciOiJIUzI1NiJ9.bm90IGpzb24.AAAA".to_string(),
        "é.ü.ö".to_string(),
    ];
    for c in cases {
        match validate_jwt(&ks, &c, t0()) {
            Ok(ValidationStep::Done(r)) => assert!(!r.valid),
            _ => panic!("expected a plain invalid answer for {:?}", c),
        }
    }
}

#[test]
fn short_signature_is_invalid() {
    let ks = setup(24);
    let jwt = issue(&ks, "gina", t0());
    let cut = jwt.rfind('.').unwrap();
    let forged = format!("{}.AAAA", &jwt[..cut]);
    assert!(matches!(validate_jwt(&ks, &forged, t0()), Ok(ValidationStep::Done(r)) if !r.valid));
}

#[test]
fn public_key_is_deterministic() {
    let ks = setup(24);
    let a = jwt_keeper::get_public_key(&ks).unwrap();
    let b = jwt_keeper::get_public_key(&ks).unwrap();
    assert_eq!(a, b);
    let raw = decode_segment(a.pubkey.as_bytes()).unwrap();
    assert_eq!(raw.len(), 65);
    assert_eq!(raw[0], 4);
    assert_eq!(raw, ks.public_key().unwrap().to_vec());
}

#[test]
fn second_initialize_fails_and_keeps_key() {
    let mut ks = setup(24);
    let before = jwt_keeper::get_public_key(&ks).unwrap();
    let mut other = [7u8; 32];
    other[0] = 1;
    assert_eq!(ks.initialize(Some(other), 1), Err(ContractError::AlreadyInitialized));
    assert_eq!(jwt_keeper::get_public_key(&ks).unwrap(), before);
    assert_eq!(ks.load_expiry().unwrap(), 24 * 3600);
}

#[test]
fn keygen_errors() {
    let mut ks = Keystore::new();
    assert!(matches!(ks.initialize(None, 1), Err(ContractError::KeygenError { .. })));
    assert!(matches!(ks.initialize(Some([0u8; 32]), 1), Err(ContractError::KeygenError { .. })));
    assert!(matches!(ks.initialize(Some([0xFFu8; 32]), 1), Err(ContractError::KeygenError { .. })));
    assert_eq!(ks.load_keypair(), Err(ContractError::KeyNotFound));
    assert_eq!(ks.load_expiry(), Err(ContractError::PolicyNotFound));
    assert!(ks.initialize(Some(seed()), 1).is_ok());
}

#[test]
fn missing_key_material_is_an_error() {
    let ks = Keystore::new();
    assert!(matches!(ks.try_provision("x", t0()), Err(ContractError::PolicyNotFound)));
    assert_eq!(jwt_keeper::get_public_key(&ks), Err(ContractError::KeyNotFound));
    let signed = setup(24);
    let jwt = issue(&signed, "x", t0());
    assert!(matches!(validate_jwt(&ks, &jwt, t0()), Err(ContractError::KeyNotFound)));
    let only_policy = Keystore::restore(None, Some(3600));
    assert!(matches!(only_policy.try_provision("x", t0()), Err(ContractError::KeyNotFound)));
}

#[test]
fn restore_drops_corrupt_key() {
    let ks = Keystore::restore(Some([0u8; 32]), Some(3600));
    assert_eq!(ks.load_keypair(), Err(ContractError::KeyNotFound));
    let ks = Keystore::restore(Some(seed()), Some(3600));
    assert_eq!(ks.load_keypair(), Ok(seed()));
    let mut ks = Keystore::restore(None, Some(3600));
    assert_eq!(ks.initialize(Some(seed()), 1), Err(ContractError::AlreadyInitialized));
}

#[test]
fn any_subject_is_issued_and_validated() {
    let ks = setup(24);
    for subject in ["a\"b", "a\\b", "a\nb", "tab\there", "\u{1}\u{1f}", "ünï\u{8}", ""] {
        let jwt = issue(&ks, subject, t0());
        assert!(is_valid(&ks, &jwt, t0()));
        let req = ks.try_provision(subject, t0()).unwrap();
        let p = deserialize_payload(&req.payload).unwrap();
        assert_eq!(p.address, subject);
        assert_eq!(p.exp, t0() + 24 * HOUR);
    }
}

#[test]
fn expiry_past_largest_instant_fails_provision() {
    let ks = setup(24);
    assert_eq!(ks.try_provision("a", u64::MAX - HOUR).err(), Some(ContractError::ProvisionError {}));
}

#[test]
fn missing_key_beats_short_signature() {
    let signed = setup(24);
    let jwt = issue(&signed, "x", t0());
    let cut = jwt.rfind('.').unwrap();
    let short = format!("{}.AAAA", &jwt[..cut]);
    let only_policy = Keystore::restore(None, Some(3600));
    assert!(matches!(validate_jwt(&only_policy, &short, t0()), Err(ContractError::KeyNotFound)));
    assert!(matches!(validate_jwt(&signed, &short, t0()), Ok(ValidationStep::Done(r)) if !r.valid));
}

#[test]
fn provider_faults_are_errors() {
    let ks = setup(24);
    let req = ks.try_provision("x", t0()).unwrap();
    assert_eq!(finish_provision(&req, None), Err(ContractError::SigningError));
    assert_eq!(finish_validation(None), Err(ContractError::VerificationError));
    assert_eq!(finish_validation(Some(false)).unwrap().valid, false);
}

#[test]
fn header_and_payload_bytes() {
    assert_eq!(header_bytes(), br#"{"typ":"JWT","alg":"HS256"}"#.to_vec());
    let h = Header { typ: "JWT".to_string(), alg: "HS256".to_string() };
    assert_eq!(serialize_header(&h), header_bytes());
    let odd = Header { typ: "J\"W\\T".to_string(), alg: "\u{7}\r".to_string() };
    assert_eq!(serialize_header(&odd), br#"{"typ":"J\"W\\T","alg":"\u0007\r"}"#.to_vec());
    let ctl = Payload { address: "q\"\u{1b}\t".to_string(), exp: 9 };
    let b = serialize_payload(&ctl);
    assert_eq!(b, br#"{"address":"q\"\u001B\t","exp":"9"}"#.to_vec());
    assert_eq!(deserialize_payload(&b), Some(ctl));
    assert_eq!(deserialize_payload(br#"{"address":"q\u001b","exp":"9"}"#), None);
    assert_eq!(deserialize_payload(br#"{"address":"q\/","exp":"9"}"#), None);
    assert_eq!(deserialize_payload(br#"{"address":"q\u0041","exp":"9"}"#), None);
    let p = Payload { address: "secret1xyz".to_string(), exp: 1_571_797_419_879_305_533 };
    let b = serialize_payload(&p);
    assert_eq!(b, br#"{"address":"secret1xyz","exp":"1571797419879305533"}"#.to_vec());
    assert_eq!(deserialize_payload(&b), Some(p));
    let zero = Payload { address: "é".to_string(), exp: 0 };
    let b = serialize_payload(&zero);
    assert_eq!(deserialize_payload(&b), Some(zero));
    assert_eq!(deserialize_payload(br#"{"address":"a","exp":"007"}"#), None);
    assert_eq!(deserialize_payload(br#"{"address":"a","exp":"18446744073709551616"}"#), None);
    assert_eq!(deserialize_payload(br#"{"exp":"1","address":"a"}"#), None);
    assert_eq!(deserialize_payload(b""), None);
}

#[test]
fn request_fields() {
    let ks = setup(1);
    let req = ks.try_provision("alice", 5).unwrap();
    assert_eq!(req.header, header_bytes());
    assert_eq!(req.payload, br#"{"address":"alice","exp":"3600000000005"}"#.to_vec());
    let mut m = req.header.clone();
    m.extend_from_slice(&req.payload);
    assert_eq!(req.message, m);
    assert_eq!(req.private_key, seed());
}

#[test]
fn segment_codec() {
    assert_eq!(encode_segment(b"hi"), b"aGk".to_vec());
    assert_eq!(encode_segment(&[0xfb, 0xff]), b"-_8".to_vec());
    assert_eq!(encode_segment(b""), b"".to_vec());
    assert_eq!(decode_segment(b"aGk"), Some(b"hi".to_vec()));
    assert_eq!(decode_segment(b"aGk="), None);
    assert_eq!(decode_segment(b"aGl"), None);
    assert_eq!(decode_segment(b"a"), None);
    assert_eq!(split_token(b"ab.c.d"), Some((2, 4)));
    assert_eq!(split_token(b"ab.c.d.e"), None);
    assert_eq!(split_token(b"ab..d"), None);
    assert_eq!(split_token(b".c.d"), None);
    assert_eq!(split_token(b"a.c."), None);
}

#[test]
fn token_text_shape() {
    let ks = setup(24);
    let req = ks.try_provision("alice", 0).unwrap();
    let jwt = finish_provision(&req, Some(vec![1u8, 2, 3])).unwrap();
    assert_eq!(
        jwt,
        "eyJ0eXAiOiJKV1QiLCJhbGciOiJIUzI1NiJ9.eyJhZGRyZXNzIjoiYWxpY2UiLCJleHAiOiI4NjQwMDAwMDAwMDAwMCJ9.AQID"
    );
}

#[test]
fn scalar_bounds_at_curve_order() {
    let order: [u8; 32] = [
        0xFF, 0xFF, 0xFF, 0xFF, 0xFF, 0xFF, 0xFF, 0xFF, 0xFF, 0xFF, 0xFF, 0xFF, 0xFF, 0xFF, 0xFF,
        0xFE, 0xBA, 0xAE, 0xDC, 0xE6, 0xAF, 0x48, 0xA0, 0x3B, 0xBF, 0xD2, 0x5E, 0x8C, 0xD0, 0x36,
        0x41, 0x41,
    ];
    let mut ks = Keystore::new();
    assert!(matches!(ks.initialize(Some(order), 1), Err(ContractError::KeygenError { .. })));
    let mut below = order;
    below[31] = 0x40;
    assert!(ks.initialize(Some(below), 1).is_ok());
    let mut one = [0u8; 32];
    one[31] = 1;
    let ks = Keystore::restore(Some(one), None);
    assert_eq!(ks.load_keypair(), Ok(one));
    assert_eq!(ks.load_expiry(), Err(ContractError::PolicyNotFound));
}

#[test]
fn verification_gets_digest_of_signed_message() {
    let ks = setup(24);
    let req = ks.try_provision("alice", t0()).unwrap();
    let jwt = finish_provision(&req, sign(&req)).unwrap();
    match validate_jwt(&ks, &jwt, t0()).unwrap() {
        ValidationStep::Verify { message_hash, signature, public_key } => {
            assert_eq!(message_hash, secret_toolkit_crypto::sha_256(&req.message));
            assert_ne!(message_hash.to_vec(), req.message[..32].to_vec());
            assert_eq!(signature, sign(&req).unwrap());
            assert_eq!(public_key, ks.public_key().unwrap());
        }
        ValidationStep::Done(_) => panic!("a fresh token must reach signature verification"),
    }
}

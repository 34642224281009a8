use jwt_keeper::{
    finish_provision, finish_validation, header_bytes, serialize_payload,
    validate_jwt, ContractError, InstantiateMsg, Keystore, Payload, PubKeyResponse, SigningRequest,
    ValidateResponse, ValidationStep,
};
use secret_cosmwasm_std::testing::{mock_env, MockApi};
use secret_cosmwasm_std::Api;


fn seed() -> [u8; 32] {
    mock_env().block.random.unwrap().to_array().unwrap()
}

fn block_time() -> u64 {
    mock_env().block.time.nanos()
}

fn execute_instantiate(ks: &mut Keystore) {
    let hours_until_token_expiration: u8 = 24;
    let init_msg: InstantiateMsg = InstantiateMsg { hours_until_token_expiration };
    ks.initialize(Some(seed()), init_msg.hours_until_token_expiration).unwrap();
}

fn sign(req: &SigningRequest) -> Option<Vec<u8>> {
    MockApi::default().secp256k1_sign(&req.message, &req.private_key).ok()
}

fn provision(ks: &Keystore, sender: &str, now: u64) -> String {
    let req = ks.try_provision(sender, now).unwrap();
    finish_provision(&req, sign(&req)).unwrap()
}

fn query_validate(ks: &Keystore, jwt: &str, now: u64) -> ValidateResponse {
    match validate_jwt(ks, jwt, now).unwrap() {
        ValidationStep::Done(r) => r,
        ValidationStep::Verify { message_hash, signature, public_key } => {
            let outcome = MockApi::default().secp256k1_verify(&message_hash, &signature, &public_key);
            finish_validation(outcome.ok()).unwrap()
        }
    }
}

#[test]
fn proper_initialization() {
    let mut ks = Keystore::new();
    execute_instantiate(&mut ks);
    assert_eq!(ks.load_expiry().unwrap(), 24 * 3600);
    assert_eq!(ks.load_keypair().unwrap(), seed());
}

#[test]
fn provision_success() {
    let mut ks = Keystore::new();
    execute_instantiate(&mut ks);
    let jwt = provision(&ks, "creator", block_time());
    let valid_response = query_validate(&ks, &jwt, block_time());
    assert_eq!(valid_response.valid, true);
}

#[test]
fn validate_bad_payload() {
    let mut ks = Keystore::new();
    execute_instantiate(&mut ks);
    let mut jwt = provision(&ks, "creator", block_time());
    let index = jwt.find('.').unwrap();
    jwt.replace_range(index + 2..index + 3, "X");
    let valid_response = query_validate(&ks, &jwt, block_time());
    assert_ne!(valid_response.valid, true);
}

#[test]
fn validate_expired_token() {
    let mut ks = Keystore::new();
    execute_instantiate(&mut ks);
    let now = block_time();
    let exp = now - 86400 * 1_000_000_000;
    let header = header_bytes();
    let payload = serialize_payload(&Payload { address: "creator".to_string(), exp });
    let mut message = header.clone();
    message.extend_from_slice(&payload);
    let req = SigningRequest { header, payload, message, private_key: ks.load_keypair().unwrap() };
    let jwt = finish_provision(&req, sign(&req)).unwrap();
    let valid_response = query_validate(&ks, &jwt, now);
    assert_ne!(valid_response.valid, true);
}

#[test]
fn get_public_key() {
    let mut ks = Keystore::new();
    execute_instantiate(&mut ks);
    let _pubkey_response: PubKeyResponse = jwt_keeper::get_public_key(&ks).unwrap();
}

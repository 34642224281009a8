//! Short-lived bearer tokens bound to an identity: a secp256k1 signing key
//! generated once at setup, canonical token encoding, and the validation
//! checks (structure, expiry) that precede signature verification.
pub mod claims;
pub mod codec;
pub mod engine;
pub mod keystore;
pub mod laws;
pub mod msg;

pub use claims::{
    deserialize_payload, header_bytes, serialize_header, serialize_payload, Header, Payload,
};
pub use codec::{decode_segment, encode_segment, split_token};
pub use engine::{
    finish_provision, finish_validation, get_public_key, validate_jwt, SigningRequest,
    ValidationStep,
};
pub use keystore::Keystore;
pub use msg::{ContractError, ExecuteMsg, InstantiateMsg, PubKeyResponse, QueryMsg, ValidateResponse};

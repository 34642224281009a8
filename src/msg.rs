use vstd::prelude::*;

verus! {

/// Setup input: the lifetime of tokens, in hours.
#[derive(Clone, Debug, PartialEq, Eq)]
pub struct InstantiateMsg {
    pub hours_until_token_expiration: u8,
}

#[derive(Clone, Debug, PartialEq, Eq)]
pub enum ExecuteMsg {
    Provision {  },
}

#[derive(Clone, Debug, PartialEq, Eq)]
pub enum QueryMsg {
    ValidateJwt { jwt: String },
    GetPubKey {  },
}

#[derive(Clone, Debug, PartialEq, Eq)]
pub struct ValidateResponse {
    pub valid: bool,
}

#[derive(Clone, Debug, PartialEq, Eq)]
pub struct PubKeyResponse {
    pub pubkey: String,
}

/// Failures surfaced to callers. An invalid token is never one of them.
#[derive(Clone, Debug, PartialEq, Eq)]
pub enum ContractError {
    /// No usable seed, or the seed is no valid secret scalar.
    KeygenError { failed_value: String },
    /// The token could not be built: its expiry is past the largest
    /// representable instant.
    ProvisionError {  },
    /// Setup has already run; key material is never replaced.
    AlreadyInitialized,
    /// No (valid) private key is held.
    KeyNotFound,
    /// No expiry policy is held.
    PolicyNotFound,
    /// The signing provider failed.
    SigningError,
    /// The verification provider failed.
    VerificationError,
}

} // verus!

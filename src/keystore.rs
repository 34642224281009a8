use vstd::prelude::*;
use crate::msg::ContractError;
use secret_toolkit_crypto::secp256k1::PrivateKey;

verus! {

/// Big-endian value of a byte string.
pub open spec fn be_value(s: Seq<u8>) -> nat
    decreases s.len(),
{
    if s.len() == 0 {
        0
    } else {
        be_value(s.drop_last()) * 256 + s.last() as nat
    }
}

/// The order of the secp256k1 group, big-endian.
pub open spec fn curve_order() -> Seq<u8> {
    seq![
        0xFFu8, 0xFF, 0xFF, 0xFF, 0xFF, 0xFF, 0xFF, 0xFF, 0xFF, 0xFF, 0xFF, 0xFF, 0xFF, 0xFF, 0xFF,
        0xFE, 0xBA, 0xAE, 0xDC, 0xE6, 0xAF, 0x48, 0xA0, 0x3B, 0xBF, 0xD2, 0x5E, 0x8C, 0xD0, 0x36,
        0x41, 0x41,
    ]
}

/// A 32-byte secret is a valid secp256k1 scalar: not zero, below the order.
pub open spec fn valid_scalar(k: Seq<u8>) -> bool {
    k.len() == 32 && 0 < be_value(k) < be_value(curve_order())
}

/// The uncompressed public point (65 bytes) of a secret scalar.
pub uninterp spec fn public_key_of(k: Seq<u8>) -> Seq<u8>;

/// Relies on secret_toolkit_crypto's `PrivateKey::parse`, which is secp256k1's
/// `SecretKey::from_slice` (valid exactly when the big-endian value is not 0
/// and is below the curve order), and on `pubkey().serialize()`, the
/// uncompressed public point of that secret (SEC1 form, tag byte 0x04).
#[verifier::external_body]
fn public_key_from(secret: &[u8; 32]) -> (r: Option<[u8; 65]>)
    ensures
        r is Some <==> valid_scalar(secret@),
        r matches Some(p) ==> p@ == public_key_of(secret@) && p@[0] == 4,
{
    match PrivateKey::parse(secret) {
        Ok(k) => Some(k.pubkey().serialize()),
        Err(_) => None,
    }
}

/// The signing key and the token lifetime, set once at setup.
pub struct Keystore {
    privkey: Option<[u8; 32]>,
    expiry: Option<u64>,
    initialized: bool,
}

pub struct KeyState {
    pub secret: Option<Seq<u8>>,
    pub expiry: Option<u64>,
    pub initialized: bool,
}

impl View for Keystore {
    type V = KeyState;

    closed spec fn view(&self) -> KeyState {
        KeyState {
            secret: match self.privkey {
                Some(k) => Some(k@),
                None => None,
            },
            expiry: self.expiry,
            initialized: self.initialized,
        }
    }
}

impl KeyState {
    /// A held secret is always a valid scalar.
    pub open spec fn wf(self) -> bool {
        self.secret matches Some(k) ==> valid_scalar(k)
    }
}

impl Keystore {
    /// A keystore before setup.
    pub fn new() -> (r: Keystore)
        ensures
            r@ == (KeyState { secret: None, expiry: None, initialized: false }),
    {
        Keystore { privkey: None, expiry: None, initialized: false }
    }

    /// A keystore over persisted slots. A stored secret that is no valid scalar
    /// (corruption) is not held; any stored slot marks setup as done.
    pub fn restore(privkey: Option<[u8; 32]>, expiry: Option<u64>) -> (r: Keystore)
        ensures
            r@.wf(),
            r@.secret == (match privkey {
                Some(k) => if valid_scalar(k@) { Some(k@) } else { None },
                None => None,
            }),
            r@.expiry == expiry,
            r@.initialized == (privkey is Some || expiry is Some),
    {
        let initialized = privkey.is_some() || expiry.is_some();
        let privkey = match privkey {
            Some(k) => match public_key_from(&k) {
                Some(_) => Some(k),
                None => None,
            },
            None => None,
        };
        Keystore { privkey, expiry, initialized }
    }

    /// One-time setup from a random seed and a lifetime in hours. Fails, and
    /// changes nothing, when setup has already run, when no seed is given, or
    /// when the seed is no valid scalar.
    pub fn initialize(&mut self, seed: Option<[u8; 32]>, hours_until_expiration: u8) -> (r: Result<(), ContractError>)
        ensures
            old(self)@.initialized ==> r matches Err(ContractError::AlreadyInitialized),
            !old(self)@.initialized && seed is None ==> r matches Err(ContractError::KeygenError { .. }),
            !old(self)@.initialized && seed is Some && !valid_scalar(seed->Some_0@) ==> r matches Err(
                ContractError::KeygenError { .. },
            ),
            r is Err ==> final(self)@ == old(self)@,
            !old(self)@.initialized && seed is Some && valid_scalar(seed->Some_0@) ==> r is Ok
                && final(self)@ == (KeyState {
                secret: Some(seed->Some_0@),
                expiry: Some((hours_until_expiration as u64 * 3600) as u64),
                initialized: true,
            }),
            old(self)@.wf() ==> final(self)@.wf(),
    {
        if self.initialized {
            return Err(ContractError::AlreadyInitialized);
        }
        let seed = match seed {
            Some(s) => s,
            None => {
                return Err(ContractError::KeygenError { failed_value: "Random number generation".to_owned() });
            },
        };
        if public_key_from(&seed).is_none() {
            return Err(ContractError::KeygenError { failed_value: "Privkey generation".to_owned() });
        }
        self.expiry = Some(hours_until_expiration as u64 * 3600);
        self.privkey = Some(seed);
        self.initialized = true;
        Ok(())
    }

    /// The held secret scalar.
    pub fn load_keypair(&self) -> (r: Result<[u8; 32], ContractError>)
        ensures
            match self@.secret {
                Some(k) => r matches Ok(s) && s@ == k,
                None => r matches Err(ContractError::KeyNotFound),
            },
    {
        match self.privkey {
            Some(k) => Ok(k),
            None => Err(ContractError::KeyNotFound),
        }
    }

    /// The token lifetime in seconds.
    pub fn load_expiry(&self) -> (r: Result<u64, ContractError>)
        ensures
            match self@.expiry {
                Some(e) => r == Ok::<u64, ContractError>(e),
                None => r matches Err(ContractError::PolicyNotFound),
            },
    {
        match self.expiry {
            Some(e) => Ok(e),
            None => Err(ContractError::PolicyNotFound),
        }
    }

    /// The public point of the held secret.
    pub fn public_key(&self) -> (r: Result<[u8; 65], ContractError>)
        requires
            self@.wf(),
        ensures
            match self@.secret {
                Some(k) => r matches Ok(p) && p@ == public_key_of(k),
                None => r matches Err(ContractError::KeyNotFound),
            },
    {
        match self.privkey {
            Some(k) => match public_key_from(&k) {
                Some(p) => Ok(p),
                None => Err(ContractError::KeyNotFound),
            },
            None => Err(ContractError::KeyNotFound),
        }
    }
}

} // verus!

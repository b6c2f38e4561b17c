//! Keys of the Schnorr scheme over Ristretto, as used for verifiable random
//! functions. A key is held in its serialized form; the curve arithmetic that
//! tells a key from other bytes, and that derives the public half from the
//! secret one, is the `schnorrkel` crate's.

use vstd::prelude::*;

verus! {

/// Length of a serialized public key, in bytes.
pub const EXPECTED_PUBKEY_LEN: usize = 32;

/// Length of a serialized private key, in bytes.
pub const EXPECTED_PRIVKEY_LEN: usize = 64;

/// Whether `schnorrkel::PublicKey::from_bytes` accepts `bytes`.
pub uninterp spec fn is_public_key(bytes: Seq<u8>) -> bool;

/// Whether `schnorrkel::SecretKey::from_bytes` accepts `bytes`.
pub uninterp spec fn is_secret_key(bytes: Seq<u8>) -> bool;

/// The serialized public key that `schnorrkel::SecretKey::to_public` derives
/// from the secret key with the serialized form `secret`.
pub uninterp spec fn public_key_of(secret: Seq<u8>) -> Seq<u8>;

/// Why bytes could not be read as a key.
#[derive(Debug, Clone, Copy, PartialEq, Eq, Structural)]
pub enum KeyDecodeError {
    /// The input is shorter than a key.
    NotEnoughData,
    /// The input is longer than a key, where exactly one key was asked for.
    TrailingData,
    /// The bytes are not a public key.
    InvalidPublicKey,
    /// The bytes are not a private key.
    InvalidPrivateKey,
}

impl KeyDecodeError {
    /// The error in words.
    pub open spec fn spec_message(self) -> Seq<char> {
        match self {
            KeyDecodeError::NotEnoughData => "Not enough data to fill buffer"@,
            KeyDecodeError::TrailingData => "Input buffer has still data left after decoding!"@,
            KeyDecodeError::InvalidPublicKey => "Failed to read schnorrkel public key"@,
            KeyDecodeError::InvalidPrivateKey => "Failed to read schnorrkel private key"@,
        }
    }

    /// The error in words.
    pub fn message(&self) -> (r: &'static str)
        ensures
            r@ == self.spec_message(),
    {
        match self {
            KeyDecodeError::NotEnoughData => "Not enough data to fill buffer",
            KeyDecodeError::TrailingData => "Input buffer has still data left after decoding!",
            KeyDecodeError::InvalidPublicKey => "Failed to read schnorrkel public key",
            KeyDecodeError::InvalidPrivateKey => "Failed to read schnorrkel private key",
        }
    }
}

/// `schnorrkel::PublicKey::from_bytes`, asked only whether it succeeds: the
/// answer is what `is_public_key` names. The function refuses any input
/// that is not 32 bytes long, before it looks at the bytes.
#[verifier::external_body]
fn public_key_accepts(bytes: &[u8]) -> (ok: bool)
    ensures
        ok == is_public_key(bytes@),
        ok ==> bytes@.len() == EXPECTED_PUBKEY_LEN,
{
    schnorrkel::PublicKey::from_bytes(bytes).is_ok()
}

/// `schnorrkel::SecretKey::from_bytes`, asked only whether it succeeds: the
/// answer is what `is_secret_key` names. The function refuses any input
/// that is not 64 bytes long, before it looks at the bytes.
#[verifier::external_body]
fn secret_key_accepts(bytes: &[u8]) -> (ok: bool)
    ensures
        ok == is_secret_key(bytes@),
        ok ==> bytes@.len() == EXPECTED_PRIVKEY_LEN,
{
    schnorrkel::SecretKey::from_bytes(bytes).is_ok()
}

/// `schnorrkel::SecretKey::generate_with`: a secret key from the randomness
/// of `rng`, in the form that `to_bytes` gives. Which key comes is up to
/// `rng`; whichever it is, its scalar is reduced, so `from_bytes` accepts
/// the bytes.
#[verifier::external_body]
fn generate_secret_key<R: rand::RngCore + rand::CryptoRng>(rng: &mut R) -> (secret: [u8; 64])
    ensures
        is_secret_key(secret@),
{
    schnorrkel::SecretKey::generate_with(rng).to_bytes()
}

/// `schnorrkel::SecretKey::to_public`, from and to the forms that
/// `from_bytes` reads and `to_bytes` gives: the public key that belongs to
/// the secret key `secret`, which is what `public_key_of` names. It is the
/// encoding of a point, so `schnorrkel::PublicKey::from_bytes` accepts it.
#[verifier::external_body]
fn derive_public_key(secret: &[u8; 64]) -> (public: [u8; 32])
    requires
        is_secret_key(secret@),
    ensures
        public@ == public_key_of(secret@),
        is_public_key(public@),
{
    schnorrkel::SecretKey::from_bytes(secret).expect("a secret key").to_public().to_bytes()
}

/// A public key.
#[derive(Debug, Clone, PartialEq, Eq, PartialOrd, Ord, Hash)]
pub struct SchnorrkelPublicKey {
    key: [u8; 32],
}

impl View for SchnorrkelPublicKey {
    type V = Seq<u8>;

    /// The serialized key.
    closed spec fn view(&self) -> Seq<u8> {
        self.key@
    }
}

/// What decoding a public key from `input` gives: the key that the first 32
/// bytes hold.
pub open spec fn decoded_public_key(input: Seq<u8>) -> Result<Seq<u8>, KeyDecodeError> {
    if input.len() < EXPECTED_PUBKEY_LEN {
        Err(KeyDecodeError::NotEnoughData)
    } else if !is_public_key(input.take(EXPECTED_PUBKEY_LEN as int)) {
        Err(KeyDecodeError::InvalidPublicKey)
    } else {
        Ok(input.take(EXPECTED_PUBKEY_LEN as int))
    }
}

impl SchnorrkelPublicKey {
    /// The bytes held are a public key.
    pub open spec fn wf(&self) -> bool {
        is_public_key(self@)
    }

    /// The serialized key.
    pub fn encode(&self) -> (r: Vec<u8>)
        ensures
            r@ == self@,
    {
        copy_bytes(self.key.as_slice(), 0, EXPECTED_PUBKEY_LEN)
    }

    pub fn encoded_size(&self) -> (r: usize)
        ensures
            r == EXPECTED_PUBKEY_LEN,
            r == self@.len(),
    {
        EXPECTED_PUBKEY_LEN
    }

    pub fn encoded_fixed_size() -> (r: Option<usize>)
        ensures
            r == Some(EXPECTED_PUBKEY_LEN),
    {
        Some(EXPECTED_PUBKEY_LEN)
    }

    /// Reads a key from the first 32 bytes of `input`.
    pub fn decode(input: &[u8]) -> (r: Result<SchnorrkelPublicKey, KeyDecodeError>)
        ensures
            match decoded_public_key(input@) {
                Ok(bytes) => r matches Ok(key) && key@ == bytes && key.wf(),
                Err(e) => r matches Err(re) && re == e,
            },
    {
        if input.len() < EXPECTED_PUBKEY_LEN {
            return Err(KeyDecodeError::NotEnoughData);
        }
        let mut key = [0u8;32];
        let mut i: usize = 0;
        while i < EXPECTED_PUBKEY_LEN
            invariant
                i <= EXPECTED_PUBKEY_LEN <= input.len(),
                forall|j: int| 0 <= j < i ==> key@[j] == input@[j],
            decreases EXPECTED_PUBKEY_LEN - i,
        {
            key[i] = input[i];
            i = i + 1;
        }
        assert(key@ =~= input@.take(EXPECTED_PUBKEY_LEN as int));
        if !public_key_accepts(key.as_slice()) {
            return Err(KeyDecodeError::InvalidPublicKey);
        }
        Ok(SchnorrkelPublicKey { key })
    }
}

impl SchnorrkelPublicKey {
    /// Reads a key from `input`, which must hold the key and nothing more.
    pub fn decode_all(input: &[u8]) -> (r: Result<SchnorrkelPublicKey, KeyDecodeError>)
        ensures
            match decoded_public_key(input@) {
                Ok(bytes) => if input@.len() == EXPECTED_PUBKEY_LEN {
                    r matches Ok(key) && key@ == input@ && key.wf()
                } else {
                    r matches Err(e) && e == KeyDecodeError::TrailingData
                },
                Err(e) => r matches Err(re) && re == e,
            },
    {
        let key = Self::decode(input)?;
        if input.len() != EXPECTED_PUBKEY_LEN {
            return Err(KeyDecodeError::TrailingData);
        }
        assert(input@.take(EXPECTED_PUBKEY_LEN as int) == input@);
        Ok(key)
    }

    /// A key that is encoded and decoded again is the same key.
    pub proof fn lemma_encode_decode(self)
        requires
            self.wf(),
        ensures
            decoded_public_key(self@) == Ok::<_, KeyDecodeError>(self@),
    {
        assert(self@.take(EXPECTED_PUBKEY_LEN as int) == self@);
    }
}

/// A private key: a secret scalar in its first 32 bytes, then 32 bytes from
/// which nonces are derived.
#[derive(Debug, Clone)]
pub struct SchnorrkelPrivateKey {
    key: [u8; 64],
}

impl View for SchnorrkelPrivateKey {
    type V = Seq<u8>;

    /// The serialized key.
    closed spec fn view(&self) -> Seq<u8> {
        self.key@
    }
}

/// What decoding a private key from `input` gives: the key that the first 64
/// bytes hold.
pub open spec fn decoded_private_key(input: Seq<u8>) -> Result<Seq<u8>, KeyDecodeError> {
    if input.len() < EXPECTED_PRIVKEY_LEN {
        Err(KeyDecodeError::NotEnoughData)
    } else if !is_secret_key(input.take(EXPECTED_PRIVKEY_LEN as int)) {
        Err(KeyDecodeError::InvalidPrivateKey)
    } else {
        Ok(input.take(EXPECTED_PRIVKEY_LEN as int))
    }
}

impl SchnorrkelPrivateKey {
    /// The bytes held are a private key.
    pub open spec fn wf(&self) -> bool {
        is_secret_key(self@)
    }

    /// The secret scalar: two private keys are the same key where they hold
    /// the same scalar.
    pub open spec fn scalar(&self) -> Seq<u8> {
        self@.take(32)
    }

    /// A new private key from the randomness of `rng`, with the public key
    /// that belongs to it.
    pub fn new<R: rand::RngCore + rand::CryptoRng>(rng: &mut R) -> (r: (
        SchnorrkelPrivateKey,
        SchnorrkelPublicKey,
    ))
        ensures
            r.0.wf(),
            r.1.wf(),
            r.1@ == public_key_of(r.0@),
    {
        let secret = generate_secret_key(rng);
        let public = derive_public_key(&secret);
        (SchnorrkelPrivateKey { key: secret }, SchnorrkelPublicKey { key: public })
    }

    /// The serialized key.
    pub fn encode(&self) -> (r: Vec<u8>)
        ensures
            r@ == self@,
    {
        copy_bytes(self.key.as_slice(), 0, EXPECTED_PRIVKEY_LEN)
    }

    pub fn encoded_size(&self) -> (r: usize)
        ensures
            r == EXPECTED_PRIVKEY_LEN,
            r == self@.len(),
    {
        EXPECTED_PRIVKEY_LEN
    }

    pub fn encoded_fixed_size() -> (r: Option<usize>)
        ensures
            r == Some(EXPECTED_PRIVKEY_LEN),
    {
        Some(EXPECTED_PRIVKEY_LEN)
    }

    /// Reads a key from the first 64 bytes of `input`.
    pub fn decode(input: &[u8]) -> (r: Result<SchnorrkelPrivateKey, KeyDecodeError>)
        ensures
            match decoded_private_key(input@) {
                Ok(bytes) => r matches Ok(key) && key@ == bytes && key.wf(),
                Err(e) => r matches Err(re) && re == e,
            },
    {
        if input.len() < EXPECTED_PRIVKEY_LEN {
            return Err(KeyDecodeError::NotEnoughData);
        }
        let mut key = [0u8;64];
        let mut i: usize = 0;
        while i < EXPECTED_PRIVKEY_LEN
            invariant
                i <= EXPECTED_PRIVKEY_LEN <= input.len(),
                forall|j: int| 0 <= j < i ==> key@[j] == input@[j],
            decreases EXPECTED_PRIVKEY_LEN - i,
        {
            key[i] = input[i];
            i = i + 1;
        }
        assert(key@ =~= input@.take(EXPECTED_PRIVKEY_LEN as int));
        if !secret_key_accepts(key.as_slice()) {
            return Err(KeyDecodeError::InvalidPrivateKey);
        }
        Ok(SchnorrkelPrivateKey { key })
    }

    /// Reads a key from `input`, which must hold the key and nothing more.
    pub fn decode_all(input: &[u8]) -> (r: Result<SchnorrkelPrivateKey, KeyDecodeError>)
        ensures
            match decoded_private_key(input@) {
                Ok(bytes) => if input@.len() == EXPECTED_PRIVKEY_LEN {
                    r matches Ok(key) && key@ == input@ && key.wf()
                } else {
                    r matches Err(e) && e == KeyDecodeError::TrailingData
                },
                Err(e) => r matches Err(re) && re == e,
            },
    {
        let key = Self::decode(input)?;
        if input.len() != EXPECTED_PRIVKEY_LEN {
            return Err(KeyDecodeError::TrailingData);
        }
        assert(input@.take(EXPECTED_PRIVKEY_LEN as int) == input@);
        Ok(key)
    }

    /// Whether the two keys hold the same secret scalar.
    pub fn same_key(&self, other: &SchnorrkelPrivateKey) -> (r: bool)
        ensures
            r == (self.scalar() == other.scalar()),
    {
        let mut i: usize = 0;
        while i < 32
            invariant
                i <= 32,
                forall|j: int| 0 <= j < i ==> self.key@[j] == other.key@[j],
            decreases 32 - i,
        {
            if self.key[i] != other.key[i] {
                assert(self.scalar()[i as int] != other.scalar()[i as int]);
                return false;
            }
            i = i + 1;
        }
        assert(self.scalar() =~= other.scalar());
        true
    }

    /// A key that is encoded and decoded again is the same key.
    pub proof fn lemma_encode_decode(self)
        requires
            self.wf(),
        ensures
            decoded_private_key(self@) == Ok::<_, KeyDecodeError>(self@),
    {
        assert(self@.take(EXPECTED_PRIVKEY_LEN as int) == self@);
    }
}

impl PartialEq for SchnorrkelPrivateKey {
    fn eq(&self, other: &SchnorrkelPrivateKey) -> (r: bool) {
        self.same_key(other)
    }
}

impl vstd::std_specs::cmp::PartialEqSpecImpl for SchnorrkelPrivateKey {
    open spec fn obeys_eq_spec() -> bool {
        true
    }

    open spec fn eq_spec(&self, other: &SchnorrkelPrivateKey) -> bool {
        self.scalar() == other.scalar()
    }
}

impl Eq for SchnorrkelPrivateKey {

}

/// The bytes of `source` from `from` up to `to`.
fn copy_bytes(source: &[u8], from: usize, to: usize) -> (r: Vec<u8>)
    requires
        from <= to <= source.len(),
    ensures
        r@ == source@.subrange(from as int, to as int),
{
    let mut r: Vec<u8> = Vec::new();
    let mut i: usize = from;
    while i < to
        invariant
            from <= i <= to <= source.len(),
            r@ == source@.subrange(from as int, i as int),
        decreases to - i,
    {
        r.push(source[i]);
        assert(source@.subrange(from as int, i + 1) == source@.subrange(from as int, i as int).push(
            source@[i as int],
        ));
        i = i + 1;
    }
    r
}

} // verus!

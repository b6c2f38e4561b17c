use p2p::vrf::{
    KeyDecodeError, SchnorrkelPrivateKey, SchnorrkelPublicKey, EXPECTED_PRIVKEY_LEN,
    EXPECTED_PUBKEY_LEN,
};
use rand::SeedableRng;
use schnorrkel::{signing_context, Keypair};

fn make_true_rng() -> rand::rngs::StdRng {
    rand::rngs::StdRng::from_entropy()
}

#[test]
fn key_serialization() {
    let mut rng = make_true_rng();
    let (sk, pk) = SchnorrkelPrivateKey::new(&mut rng);

    let encoded_sk = sk.encode();
    let encoded_pk = pk.encode();

    let decoded_sk = SchnorrkelPrivateKey::decode_all(encoded_sk.as_slice()).unwrap();
    let decoded_pk = SchnorrkelPublicKey::decode_all(encoded_pk.as_slice()).unwrap();

    assert_eq!(sk, decoded_sk);
    assert_eq!(pk, decoded_pk);

    let encoded_sk_again = decoded_sk.encode();
    let encoded_pk_again = decoded_pk.encode();

    assert_eq!(encoded_sk, encoded_sk_again);
    assert_eq!(encoded_pk, encoded_pk_again);
}

#[test]
fn vrf_internal_simple() {
    let mut csprng = make_true_rng();

    let keypair1 = Keypair::generate_with(&mut csprng);

    let ctx = signing_context(b"yoo!");
    let msg = b"meow";
    let (io1, proof1, proof1batchable) = keypair1.vrf_sign(ctx.bytes(msg));
    let out1 = &io1.to_preout();
    assert_eq!(
        proof1,
        proof1batchable.shorten_vrf(&keypair1.public, ctx.bytes(msg), out1).unwrap(),
        "Oops `shorten_vrf` failed"
    );
    let (io1too, proof1too) = keypair1
        .public
        .vrf_verify(ctx.bytes(msg), out1, &proof1)
        .expect("Correct VRF verification failed!");
    assert_eq!(io1too, io1, "Output differs between signing and verification!");
    assert_eq!(
        proof1batchable, proof1too,
        "VRF verification yielded incorrect batchable proof"
    );
    assert_eq!(keypair1.vrf_sign(ctx.bytes(msg)).0, io1, "Rerunning VRF gave different output");

    assert!(
        keypair1.public.vrf_verify(ctx.bytes(b"not meow"), out1, &proof1).is_err(),
        "VRF verification with incorrect message passed!"
    );

    let keypair2 = Keypair::generate_with(&mut csprng);
    assert!(
        keypair2.public.vrf_verify(ctx.bytes(msg), out1, &proof1).is_err(),
        "VRF verification with incorrect signer passed!"
    );
}

#[test]
fn key_sizes() {
    let mut rng = make_true_rng();
    let (sk, pk) = SchnorrkelPrivateKey::new(&mut rng);
    assert_eq!(sk.encode().len(), 64);
    assert_eq!(pk.encode().len(), 32);
    assert_eq!(sk.encoded_size(), 64);
    assert_eq!(pk.encoded_size(), 32);
    assert_eq!(SchnorrkelPrivateKey::encoded_fixed_size(), Some(64));
    assert_eq!(SchnorrkelPublicKey::encoded_fixed_size(), Some(32));
    assert_eq!(EXPECTED_PRIVKEY_LEN, 64);
    assert_eq!(EXPECTED_PUBKEY_LEN, 32);
}

#[test]
fn new_keys_match_schnorrkel() {
    let mut rng = make_true_rng();
    let (sk, pk) = SchnorrkelPrivateKey::new(&mut rng);
    let secret = schnorrkel::SecretKey::from_bytes(&sk.encode()).unwrap();
    assert_eq!(secret.to_public().to_bytes().to_vec(), pk.encode());
    let (sk2, pk2) = SchnorrkelPrivateKey::new(&mut rng);
    assert_ne!(sk, sk2);
    assert_ne!(pk, pk2);
}

#[test]
fn short_input_is_not_enough_data() {
    assert_eq!(SchnorrkelPublicKey::decode(&[0u8; 31]), Err(KeyDecodeError::NotEnoughData));
    assert_eq!(SchnorrkelPublicKey::decode(&[]), Err(KeyDecodeError::NotEnoughData));
    assert_eq!(
        SchnorrkelPrivateKey::decode(&[0u8; 63]).err(),
        Some(KeyDecodeError::NotEnoughData)
    );
    assert_eq!(
        SchnorrkelPrivateKey::decode_all(&[0u8; 10]).err(),
        Some(KeyDecodeError::NotEnoughData)
    );
}

#[test]
fn bytes_that_are_no_key_are_refused() {
    // Not the canonical encoding of a point.
    assert_eq!(SchnorrkelPublicKey::decode(&[0xffu8; 32]), Err(KeyDecodeError::InvalidPublicKey));
    // The scalar is not reduced.
    assert_eq!(
        SchnorrkelPrivateKey::decode(&[0xffu8; 64]).err(),
        Some(KeyDecodeError::InvalidPrivateKey)
    );
}

#[test]
fn decode_reads_a_prefix_and_decode_all_does_not() {
    let mut rng = make_true_rng();
    let (sk, pk) = SchnorrkelPrivateKey::new(&mut rng);
    let mut longer_pk = pk.encode();
    longer_pk.push(7);
    assert_eq!(SchnorrkelPublicKey::decode(&longer_pk), Ok(pk.clone()));
    assert_eq!(SchnorrkelPublicKey::decode_all(&longer_pk), Err(KeyDecodeError::TrailingData));
    let mut longer_sk = sk.encode();
    longer_sk.push(7);
    assert_eq!(SchnorrkelPrivateKey::decode(&longer_sk).ok(), Some(sk.clone()));
    assert_eq!(
        SchnorrkelPrivateKey::decode_all(&longer_sk).err(),
        Some(KeyDecodeError::TrailingData)
    );
}

#[test]
fn private_keys_compare_by_their_scalar() {
    let mut rng = make_true_rng();
    let (sk, _) = SchnorrkelPrivateKey::new(&mut rng);
    let mut bytes = sk.encode();
    bytes[63] ^= 1;
    let other_nonce = SchnorrkelPrivateKey::decode_all(&bytes).unwrap();
    assert!(sk.same_key(&other_nonce));
    assert_eq!(sk, other_nonce);
    assert_ne!(sk.encode(), other_nonce.encode());
}

#[test]
fn decode_errors_in_words() {
    assert_eq!(
        KeyDecodeError::InvalidPublicKey.message(),
        "Failed to read schnorrkel public key"
    );
    assert_eq!(
        KeyDecodeError::InvalidPrivateKey.message(),
        "Failed to read schnorrkel private key"
    );
}

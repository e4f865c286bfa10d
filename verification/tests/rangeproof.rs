use rangeproof::{Error, Generator, PedersenCommitment, RangeProof, Secp256k1};

fn sk(fill: u8) -> secp256k1::SecretKey {
    let mut b = [0u8; 32];
    b[31] = 1;
    b[0] = fill;
    secp256k1::SecretKey::from_secret_bytes(b).unwrap()
}

fn setup() -> (PedersenCommitment, secp256k1::SecretKey, Generator, secp256k1::SecretKey) {
    let value_blinding = sk(0x11);
    let generator_blinding = sk(0x22);
    let tag = [0x33u8; 32];
    let generator = Generator::new_blinded(&tag, &generator_blinding).unwrap();
    let commitment = PedersenCommitment::new(1_000, &value_blinding, &generator).unwrap();
    let rewind_key = sk(0x44);
    (commitment, value_blinding, generator, rewind_key)
}

#[test]
fn create_and_verify_range_proof() {
    let value: u64 = 1_000;
    let (commitment, value_blinding, generator, sk) = setup();

    let message = b"foo";
    let additional_commitment = b"bar";

    let secp = Secp256k1::new();
    let proof = secp
        .make_rangeproof(
            1,
            PedersenCommitment::from_slice(&commitment.serialize()).unwrap(),
            value,
            value_blinding,
            message,
            additional_commitment,
            sk,
            0,
            52,
            Generator::from_slice(&generator.serialize()).unwrap(),
        )
        .unwrap();

    let range = secp
        .verify_rangeproof(
            proof,
            commitment,
            additional_commitment,
            generator,
        )
        .unwrap();
    assert!(range.start <= value && value < range.end);
}

#[test]
fn rewind_range_proof() {
    let value: u64 = 1_000;
    let (commitment, value_blinding, generator, sk) = setup();

    let message = b"foo";
    let additional_commitment = b"bar";

    let secp = Secp256k1::new();
    let proof = secp
        .make_rangeproof(
            1,
            PedersenCommitment::from_slice(&commitment.serialize()).unwrap(),
            value,
            value_blinding,
            message,
            additional_commitment,
            sk,
            0,
            52,
            Generator::from_slice(&generator.serialize()).unwrap(),
        )
        .unwrap();

    let (opening, _range) = secp
        .rewind_rangeproof(
            &proof,
            commitment,
            sk,
            additional_commitment,
            generator,
        )
        .unwrap();

    assert_eq!(opening.value, value);
    assert_eq!(opening.blinding_factor, value_blinding);
    assert!(opening.message.starts_with(message));
}

#[test]
fn serialization_round_trip() {
    let (commitment, value_blinding, generator, sk) = setup();
    let secp = Secp256k1::new();
    let proof = secp
        .make_rangeproof(
            1,
            PedersenCommitment::from_slice(&commitment.serialize()).unwrap(),
            1_000,
            value_blinding,
            b"foo",
            b"bar",
            sk,
            0,
            52,
            Generator::from_slice(&generator.serialize()).unwrap(),
        )
        .unwrap();
    let ser = proof.serialize();
    let reparsed = RangeProof::from_slice(&ser).unwrap();
    assert_eq!(reparsed.serialize(), ser);
    assert_eq!(reparsed, proof);
    assert_eq!(reparsed.len(), ser.len());
    assert!(!reparsed.is_empty());
}

#[test]
fn tampered_bytes_fail_verification() {
    let (commitment, value_blinding, generator, sk) = setup();
    let secp = Secp256k1::new();
    let proof = secp
        .make_rangeproof(
            1,
            PedersenCommitment::from_slice(&commitment.serialize()).unwrap(),
            1_000,
            value_blinding,
            b"foo",
            b"bar",
            sk,
            0,
            52,
            Generator::from_slice(&generator.serialize()).unwrap(),
        )
        .unwrap();
    let ser = proof.serialize();
    let mut pos: usize = 0;
    while pos < ser.len() {
        let mut bad = ser.clone();
        bad[pos] ^= 0x01;
        let outcome = match RangeProof::from_slice(&bad) {
            Ok(p) => secp.verify_rangeproof(
                p,
                PedersenCommitment::from_slice(&commitment.serialize()).unwrap(),
                b"bar",
                Generator::from_slice(&generator.serialize()).unwrap(),
            ),
            Err(e) => Err(e),
        };
        assert_eq!(outcome.unwrap_err(), Error::InvalidRangeProof);
        pos += 211;
    }
}

#[test]
fn different_additional_commitment_fails() {
    let (commitment, value_blinding, generator, sk) = setup();
    let secp = Secp256k1::new();
    let proof = secp
        .make_rangeproof(
            1,
            PedersenCommitment::from_slice(&commitment.serialize()).unwrap(),
            1_000,
            value_blinding,
            b"foo",
            b"bar",
            sk,
            0,
            52,
            Generator::from_slice(&generator.serialize()).unwrap(),
        )
        .unwrap();
    let res = secp.verify_rangeproof(proof, commitment, b"baz", generator);
    assert_eq!(res.unwrap_err(), Error::InvalidRangeProof);
}

#[test]
fn wrong_key_rewind_never_recovers() {
    let (commitment, value_blinding, generator, sk) = setup();
    let secp = Secp256k1::new();
    let proof = secp
        .make_rangeproof(
            1,
            PedersenCommitment::from_slice(&commitment.serialize()).unwrap(),
            1_000,
            value_blinding,
            b"foo",
            b"bar",
            sk,
            0,
            52,
            Generator::from_slice(&generator.serialize()).unwrap(),
        )
        .unwrap();
    let other = secp256k1::SecretKey::from_secret_bytes([0x55u8; 32]).unwrap();
    match secp.rewind_rangeproof(&proof, commitment, other, b"bar", generator) {
        Err(e) => assert!(e == Error::InvalidRangeProof || e == Error::KeyError),
        Ok((opening, _)) => {
            assert!(opening.value != 1_000 || opening.blinding_factor != value_blinding);
        }
    }
}

#[test]
fn zero_value_at_zero_min_proves() {
    let value_blinding = sk(0x66);
    let generator = Generator::standard();
    let commitment = PedersenCommitment::new(0, &value_blinding, &generator).unwrap();
    let secp = Secp256k1::new();
    let proof = secp
        .make_rangeproof(
            0,
            PedersenCommitment::from_slice(&commitment.serialize()).unwrap(),
            0,
            value_blinding,
            b"",
            b"",
            sk(0x77),
            0,
            0,
            Generator::from_slice(&generator.serialize()).unwrap(),
        )
        .unwrap();
    let range = secp.verify_rangeproof(proof, commitment, b"", generator).unwrap();
    assert_eq!(range.start, 0);
    assert!(range.end >= 1);
}

#[test]
fn hidden_exponent_gives_larger_proof_than_revealed() {
    let (commitment, value_blinding, generator, rewind) = setup();
    let secp = Secp256k1::new();
    let hidden = secp
        .make_rangeproof(
            1,
            PedersenCommitment::from_slice(&commitment.serialize()).unwrap(),
            1_000,
            value_blinding,
            b"",
            b"",
            rewind,
            -1,
            0,
            Generator::from_slice(&generator.serialize()).unwrap(),
        )
        .unwrap();
    let revealed = secp
        .make_rangeproof(
            1,
            PedersenCommitment::from_slice(&commitment.serialize()).unwrap(),
            1_000,
            value_blinding,
            b"",
            b"",
            rewind,
            18,
            0,
            Generator::from_slice(&generator.serialize()).unwrap(),
        )
        .unwrap();
    assert!(hidden.len() > revealed.len());
    let r1 = secp
        .verify_rangeproof(
            hidden,
            PedersenCommitment::from_slice(&commitment.serialize()).unwrap(),
            b"",
            Generator::from_slice(&generator.serialize()).unwrap(),
        )
        .unwrap();
    let r2 = secp.verify_rangeproof(revealed, commitment, b"", generator).unwrap();
    assert!(r1.start <= 1_000 && 1_000 < r1.end);
    assert!(r2.start <= 1_000 && 1_000 < r2.end);
}

#[test]
fn rejects_bad_parameters() {
    let (commitment, value_blinding, generator, rewind) = setup();
    let secp = Secp256k1::new();
    let cases: [(u64, u64, i32, u8); 4] =
        [(1_000, 10, 0, 52), (1, 1_000, -2, 52), (1, 1_000, 19, 52), (1, 1_000, 0, 65)];
    for (minv, value, exp, min_bits) in cases {
        let res = secp.make_rangeproof(
            minv,
            PedersenCommitment::from_slice(&commitment.serialize()).unwrap(),
            value,
            value_blinding,
            b"",
            b"",
            rewind,
            exp,
            min_bits,
            Generator::from_slice(&generator.serialize()).unwrap(),
        );
        assert_eq!(res.unwrap_err(), Error::CannotMakeRangeProof);
    }
    let long_msg = [0u8; 65];
    let res = secp.make_rangeproof(
        1,
        PedersenCommitment::from_slice(&commitment.serialize()).unwrap(),
        1_000,
        value_blinding,
        &long_msg,
        b"",
        rewind,
        0,
        52,
        generator,
    );
    assert_eq!(res.unwrap_err(), Error::CannotMakeRangeProof);
}

#[test]
fn verify_reports_exact_range_and_length() {
    let (commitment, value_blinding, generator, sk) = setup();
    let secp = Secp256k1::new();
    let proof = secp
        .make_rangeproof(
            1,
            PedersenCommitment::from_slice(&commitment.serialize()).unwrap(),
            1_000,
            value_blinding,
            b"foo",
            b"bar",
            sk,
            0,
            52,
            Generator::from_slice(&generator.serialize()).unwrap(),
        )
        .unwrap();
    // 52 mantissa bits: 26 rings, 25 stored commitments, 104 ring scalars.
    assert_eq!(proof.len(), 10 + 33 * 25 + 106 + 32 * 104 + 32);
    let range = secp.verify_rangeproof(proof, commitment, b"bar", generator).unwrap();
    assert_eq!(range.start, 1);
    assert_eq!(range.end, (1u64 << 52) + 1);
}

#[test]
fn from_slice_rejects_malformed_bytes() {
    assert_eq!(RangeProof::from_slice(b"").unwrap_err(), Error::InvalidRangeProof);
    assert_eq!(RangeProof::from_slice(&[0u8; 9]).unwrap_err(), Error::InvalidRangeProof);
    let mut bad = vec![0u8; 500];
    bad[0] = 20;
    bad[1] = 10;
    assert_eq!(RangeProof::from_slice(&bad).unwrap_err(), Error::InvalidRangeProof);
}

#[test]
fn message_length_round_trips_exactly() {
    let (commitment, value_blinding, generator, sk) = setup();
    let secp = Secp256k1::new();
    let msg = [0xabu8; 64];
    let proof = secp
        .make_rangeproof(
            1,
            PedersenCommitment::from_slice(&commitment.serialize()).unwrap(),
            1_000,
            value_blinding,
            &msg,
            b"bar",
            sk,
            0,
            52,
            Generator::from_slice(&generator.serialize()).unwrap(),
        )
        .unwrap();
    let (opening, _) = secp.rewind_rangeproof(&proof, commitment, sk, b"bar", generator).unwrap();
    assert_eq!(opening.message.len(), 64);
    assert_eq!(&opening.message[..], &msg[..]);
}

use tomcrypt::error::Error;
use tomcrypt::symmetric::{Cbc, Cfb, Cipher, Ctr, CtrEndianness, Ecb, Ofb};

#[test]
fn test_find_cipher() {
    assert_eq!(Cipher::find("aes").unwrap(), Cipher::aes());

    for name in &["aes", "des", "blowfish"] {
        let cipher = Cipher::find(name).unwrap();
        assert_eq!(cipher.name(), *name);
    }
}

#[test]
fn aes_ecb_simple() {
    let key = [1; 16];
    let data = vec![2; Cipher::aes().block_size()];
    let mut buffer = data.clone();

    let mut ecb = Ecb::new(Cipher::aes(), key.as_ref(), None).unwrap();

    ecb.encrypt_in_place(&mut buffer).unwrap();
    assert_ne!(buffer, data);
    ecb.decrypt_in_place(&mut buffer).unwrap();

    assert_eq!(buffer, data);
}

#[test]
fn aes_ecb_known_answer() {
    // FIPS 197, appendix C.1.
    let key = hex::decode("000102030405060708090a0b0c0d0e0f").unwrap();
    let pt = hex::decode("00112233445566778899aabbccddeeff").unwrap();
    let mut ecb = Ecb::new(Cipher::aes(), &key, None).unwrap();
    let ct = ecb.encrypt(&pt).unwrap();
    assert_eq!(hex::encode(&ct), "69c4e0d86a7b0430d8cdb78070b4c55a");
    assert_eq!(ecb.decrypt(&ct).unwrap(), pt);
}

#[test]
fn aes_larger_keys_known_answers() {
    // FIPS 197, appendix C.2 and C.3.
    let pt = hex::decode("00112233445566778899aabbccddeeff").unwrap();

    let key192 = hex::decode("000102030405060708090a0b0c0d0e0f1011121314151617").unwrap();
    let mut ecb = Ecb::new(Cipher::aes(), &key192, None).unwrap();
    let ct = ecb.encrypt(&pt).unwrap();
    assert_eq!(hex::encode(&ct), "dda97ca4864cdfe06eaf70a0ec0d7191");
    assert_eq!(ecb.decrypt(&ct).unwrap(), pt);

    let key256 =
        hex::decode("000102030405060708090a0b0c0d0e0f101112131415161718191a1b1c1d1e1f").unwrap();
    let mut ecb = Ecb::new(Cipher::aes(), &key256, None).unwrap();
    let ct = ecb.encrypt(&pt).unwrap();
    assert_eq!(hex::encode(&ct), "8ea2b7ca516745bfeafc49904b496089");
    assert_eq!(ecb.decrypt(&ct).unwrap(), pt);
}

#[test]
fn des_known_answer() {
    // FIPS 81-era example: "Now is t" under key 0123456789abcdef.
    let key = hex::decode("0123456789abcdef").unwrap();
    let pt = b"Now is t";
    let mut ecb = Ecb::new(Cipher::find("des").unwrap(), &key, None).unwrap();
    let ct = ecb.encrypt(pt).unwrap();
    assert_eq!(hex::encode(&ct), "3fa40e8a984d4815");
    assert_eq!(ecb.decrypt(&ct).unwrap(), pt.to_vec());
}

#[test]
fn blowfish_known_answer() {
    // Schneier's reference vectors.
    let key = hex::decode("0000000000000000").unwrap();
    let pt = hex::decode("0000000000000000").unwrap();
    let mut ecb = Ecb::new(Cipher::find("blowfish").unwrap(), &key, None).unwrap();
    let ct = ecb.encrypt(&pt).unwrap();
    assert_eq!(hex::encode(&ct), "4ef997456198dd78");
    assert_eq!(ecb.decrypt(&ct).unwrap(), pt);
}

#[test]
fn aes_cbc_known_answer() {
    // NIST SP 800-38A, F.2.1.
    let key = hex::decode("2b7e151628aed2a6abf7158809cf4f3c").unwrap();
    let iv = hex::decode("000102030405060708090a0b0c0d0e0f").unwrap();
    let pt = hex::decode("6bc1bee22e409f96e93d7e117393172a").unwrap();
    let mut cbc = Cbc::new(Cipher::aes(), &iv, &key, None).unwrap();
    let ct = cbc.encrypt(&pt).unwrap();
    assert_eq!(hex::encode(&ct), "7649abac8119b246cee98e9b12e9197d");

    let mut dec = Cbc::new(Cipher::aes(), &iv, &key, None).unwrap();
    assert_eq!(dec.decrypt(&ct).unwrap(), pt);
}

#[test]
fn aes_ctr_known_answer() {
    // NIST SP 800-38A, F.5.1.
    let key = hex::decode("2b7e151628aed2a6abf7158809cf4f3c").unwrap();
    let iv = hex::decode("f0f1f2f3f4f5f6f7f8f9fafbfcfdfeff").unwrap();
    let pt = hex::decode(
        "6bc1bee22e409f96e93d7e117393172aae2d8a571e03ac9c9eb76fac45af8e51",
    )
    .unwrap();
    let mut ctr = Ctr::new(Cipher::aes(), &iv, &key, None, CtrEndianness::BigEndian).unwrap();
    let ct = ctr.encrypt(&pt).unwrap();
    assert_eq!(
        hex::encode(&ct),
        "874d6191b620e3261bef6864990db6ce9806f66b7970fdff8617187bb9fffdff"
    );
}

#[test]
fn mode_round_trips() {
    let key = [7u8; 16];
    let iv = [9u8; 16];
    let aligned = vec![0x5au8; 48];
    let odd = b"an arbitrary-length message".to_vec();

    let mut e = Ecb::new(Cipher::aes(), &key, None).unwrap();
    let c = e.encrypt(&aligned).unwrap();
    assert_eq!(e.decrypt(&c).unwrap(), aligned);

    let mut enc = Cbc::new(Cipher::aes(), &iv, &key, None).unwrap();
    let c = enc.encrypt(&aligned).unwrap();
    let mut dec = Cbc::new(Cipher::aes(), &iv, &key, None).unwrap();
    assert_eq!(dec.decrypt(&c).unwrap(), aligned);

    for endian in [CtrEndianness::BigEndian, CtrEndianness::LittleEndian] {
        let mut enc = Ctr::new(Cipher::aes(), &iv, &key, None, endian).unwrap();
        let c = enc.encrypt(&odd).unwrap();
        assert_eq!(c.len(), odd.len());
        let mut dec = Ctr::new(Cipher::aes(), &iv, &key, None, endian).unwrap();
        assert_eq!(dec.decrypt(&c).unwrap(), odd);
    }

    let mut enc = Cfb::new(Cipher::aes(), &iv, &key, None).unwrap();
    let c = enc.encrypt(&odd).unwrap();
    let mut dec = Cfb::new(Cipher::aes(), &iv, &key, None).unwrap();
    assert_eq!(dec.decrypt(&c).unwrap(), odd);

    let mut enc = Ofb::new(Cipher::aes(), &iv, &key, None).unwrap();
    let c = enc.encrypt(&odd).unwrap();
    let mut dec = Ofb::new(Cipher::aes(), &iv, &key, None).unwrap();
    assert_eq!(dec.decrypt(&c).unwrap(), odd);
}

#[test]
fn mode_round_trips_other_ciphers() {
    let iv8 = [3u8; 8];
    let msg = vec![0xabu8; 24];

    let des_key = [5u8; 8];
    let mut enc = Cbc::new(Cipher::find("des").unwrap(), &iv8, &des_key, None).unwrap();
    let c = enc.encrypt(&msg).unwrap();
    let mut dec = Cbc::new(Cipher::find("des").unwrap(), &iv8, &des_key, None).unwrap();
    assert_eq!(dec.decrypt(&c).unwrap(), msg);

    let bf_key = b"blowfish key bytes";
    let bf = Cipher::find("blowfish").unwrap();
    let mut enc = Ofb::new(bf, &iv8, bf_key, None).unwrap();
    let c = enc.encrypt(&msg).unwrap();
    let mut dec = Ofb::new(bf, &iv8, bf_key, None).unwrap();
    assert_eq!(dec.decrypt(&c).unwrap(), msg);
}

#[test]
fn ctr_deterministic() {
    let key = [7u8; 16];
    let iv = [9u8; 16];
    let msg = b"the same plaintext".to_vec();
    let mut a = Ctr::new(Cipher::aes(), &iv, &key, None, CtrEndianness::BigEndian).unwrap();
    let mut b = Ctr::new(Cipher::aes(), &iv, &key, None, CtrEndianness::BigEndian).unwrap();
    assert_eq!(a.encrypt(&msg).unwrap(), b.encrypt(&msg).unwrap());
}

#[test]
fn ctr_streaming_matches_one_shot() {
    let key = [7u8; 16];
    let iv = [9u8; 16];
    let msg = vec![0x11u8; 45];
    let mut whole = Ctr::new(Cipher::aes(), &iv, &key, None, CtrEndianness::BigEndian).unwrap();
    let expected = whole.encrypt(&msg).unwrap();
    let mut parts = Ctr::new(Cipher::aes(), &iv, &key, None, CtrEndianness::BigEndian).unwrap();
    let mut got = parts.encrypt(&msg[..7]).unwrap();
    got.extend_from_slice(&parts.encrypt(&msg[7..30]).unwrap());
    got.extend_from_slice(&parts.encrypt(&msg[30..]).unwrap());
    assert_eq!(got, expected);
}

#[test]
fn invalid_arguments_are_rejected() {
    let key = [1u8; 16];
    let iv = [2u8; 16];

    // Key length not accepted by AES.
    assert!(matches!(
        Ecb::new(Cipher::aes(), &[0u8; 20], None),
        Err(Error::InvalidArgument)
    ));
    // IV length must equal the block size.
    assert!(matches!(
        Cbc::new(Cipher::aes(), &[0u8; 8], &key, None),
        Err(Error::InvalidArgument)
    ));
    assert!(matches!(
        Ctr::new(Cipher::aes(), &[0u8; 12], &key, None, CtrEndianness::BigEndian),
        Err(Error::InvalidArgument)
    ));
    // Round counts other than the default are refused.
    assert!(matches!(
        Ofb::new(Cipher::aes(), &iv, &key, Some(12)),
        Err(Error::InvalidArgument)
    ));
    assert!(Ofb::new(Cipher::aes(), &iv, &key, Some(10)).is_ok());
    assert!(Ofb::new(Cipher::aes(), &iv, &key, Some(0)).is_ok());
    // Misaligned input for the block-aligned modes.
    let mut ecb = Ecb::new(Cipher::aes(), &key, None).unwrap();
    assert_eq!(ecb.encrypt(&[0u8; 15]).unwrap_err(), Error::InvalidArgument);
    let mut cbc = Cbc::new(Cipher::aes(), &iv, &key, None).unwrap();
    assert_eq!(cbc.decrypt(&[0u8; 17]).unwrap_err(), Error::InvalidArgument);
}

#[test]
fn cipher_metadata() {
    let aes = Cipher::aes();
    assert_eq!(aes.block_size(), 16);
    assert_eq!(aes.min_key_length(), 16);
    assert_eq!(aes.max_key_length(), 32);
    assert_eq!(aes.default_rounds(), 10);
    let des = Cipher::find("des").unwrap();
    assert_eq!(des.block_size(), 8);
    assert_eq!(des.min_key_length(), 8);
    assert_eq!(des.max_key_length(), 8);
    let bf = Cipher::find("blowfish").unwrap();
    assert_eq!(bf.block_size(), 8);
    assert_eq!(bf.min_key_length(), 8);
    assert_eq!(bf.max_key_length(), 56);
}

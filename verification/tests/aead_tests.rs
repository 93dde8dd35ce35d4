use tomcrypt::aead::EaxState;
use tomcrypt::error::Error;
use tomcrypt::symmetric::Cipher;

#[test]
fn test_eax_loop() {
    let key = [1; 16];
    let nonce = [2; 16];
    let header = [3; 3];
    let data = [4; 10];
    let tag_len = 7;

    // Encrypt
    let mut eax = EaxState::new(Cipher::aes(), &key, &nonce, Some(&header)).unwrap();
    let enc = eax.encrypt(&data).unwrap();
    let tag = eax.finish(tag_len).unwrap();

    // Decrypt
    let mut eax = EaxState::new(Cipher::aes(), &key, &nonce, Some(&header)).unwrap();
    let dec = eax.decrypt(&enc).unwrap();
    let tag2 = eax.finish(tag_len).unwrap();

    assert_eq!(tag, tag2);
    assert_eq!(&data, dec.as_slice());
}

#[test]
fn eax_known_answer_empty() {
    let key = hex::decode("000102030405060708090a0b0c0d0e0f").unwrap();
    let eax = EaxState::new(Cipher::aes(), &key, b"", None).unwrap();
    let tag = eax.finish(16).unwrap();
    assert_eq!(hex::encode(&tag), "9ad07e7dbff301f505de596b9615dfff");

    let nonce = hex::decode("000102030405060708090a0b0c0d0e0f").unwrap();
    let eax = EaxState::new(Cipher::aes(), &key, &nonce, None).unwrap();
    let tag = eax.finish(16).unwrap();
    assert_eq!(hex::encode(&tag), "1ce10d3effd4cadbe2e44b58d60ab9ec");

    let header = hex::decode("000102030405060708090a0b0c0d0e0f").unwrap();
    let eax = EaxState::new(Cipher::aes(), &key, b"", Some(&header)).unwrap();
    let tag = eax.finish(16).unwrap();
    assert_eq!(hex::encode(&tag), "3a698f7a270e51b0f65b3d3e47193cff");
}

#[test]
fn eax_known_answer_full() {
    let key = hex::decode("000102030405060708090a0b0c0d0e0f").unwrap();
    let nonce = hex::decode("000102030405060708090a0b0c0d0e").unwrap();
    let header = hex::decode("000102030405060708090a0b0c0d").unwrap();
    let pt = hex::decode("000102030405060708090a0b0c0d0e0f101112131415161718191a1b1c")
        .unwrap();

    let mut eax = EaxState::new(Cipher::aes(), &key, &nonce, Some(&header)).unwrap();
    let ct = eax.encrypt(&pt).unwrap();
    assert_eq!(
        hex::encode(&ct),
        "dd25c754c5b17c5928b69b73155f7bb8888faf37091ad92c8a24db868b"
    );
    let tag = eax.finish(16).unwrap();
    assert_eq!(hex::encode(&tag), "0d1a14e52224ffd23a05fa02cdef52da");

    let mut eax = EaxState::new(Cipher::aes(), &key, &nonce, Some(&header)).unwrap();
    assert_eq!(eax.decrypt(&ct).unwrap(), pt);
    assert_eq!(hex::encode(eax.finish(16).unwrap()), "0d1a14e52224ffd23a05fa02cdef52da");
}

#[test]
fn eax_in_place_matches() {
    let key = [1u8; 16];
    let nonce = [2u8; 16];
    let data = vec![4u8; 21];

    let mut a = EaxState::new(Cipher::aes(), &key, &nonce, None).unwrap();
    let expected = a.encrypt(&data).unwrap();
    let tag_a = a.finish(16).unwrap();

    let mut b = EaxState::new(Cipher::aes(), &key, &nonce, None).unwrap();
    let mut buf = data.clone();
    b.encrypt_in_place(&mut buf).unwrap();
    assert_eq!(buf, expected);
    assert_eq!(b.finish(16).unwrap(), tag_a);

    let mut c = EaxState::new(Cipher::aes(), &key, &nonce, None).unwrap();
    c.decrypt_in_place(&mut buf).unwrap();
    assert_eq!(buf, data);
    assert_eq!(c.finish(16).unwrap(), tag_a);
}

#[test]
fn eax_tag_length_guard() {
    let key = [1u8; 16];
    let nonce = [2u8; 16];
    let eax = EaxState::new(Cipher::aes(), &key, &nonce, None).unwrap();
    assert!(matches!(eax.finish(17), Err(Error::InvalidArgument)));
    let eax = EaxState::new(Cipher::aes(), &key, &nonce, None).unwrap();
    assert_eq!(eax.finish(0).unwrap().len(), 0);
    let eax = EaxState::new(Cipher::aes(), &key, &nonce, None).unwrap();
    assert_eq!(eax.finish(16).unwrap().len(), 16);
}

#[test]
fn eax_bad_key_length() {
    assert!(matches!(
        EaxState::new(Cipher::aes(), &[0u8; 10], &[2u8; 16], None),
        Err(Error::InvalidArgument)
    ));
}

#[test]
fn eax_tamper_sensitivity() {
    let key = [1u8; 16];
    let nonce = [2u8; 16];
    let header = [3u8; 3];
    let data = [4u8; 10];

    let mut eax = EaxState::new(Cipher::aes(), &key, &nonce, Some(&header)).unwrap();
    let ct = eax.encrypt(&data).unwrap();
    let tag = eax.finish(16).unwrap();

    // Flipping any single byte of the ciphertext changes the tag.
    for i in 0..ct.len() {
        let mut bad = ct.clone();
        bad[i] ^= 1;
        let mut eax = EaxState::new(Cipher::aes(), &key, &nonce, Some(&header)).unwrap();
        let _ = eax.decrypt(&bad).unwrap();
        assert_ne!(eax.finish(16).unwrap(), tag, "ciphertext byte {}", i);
    }
    // Flipping any single byte of the header changes the tag.
    for i in 0..header.len() {
        let mut bad = header;
        bad[i] ^= 1;
        let mut eax = EaxState::new(Cipher::aes(), &key, &nonce, Some(&bad)).unwrap();
        let _ = eax.decrypt(&ct).unwrap();
        assert_ne!(eax.finish(16).unwrap(), tag, "header byte {}", i);
    }
    // Flipping any single byte of the nonce changes the tag.
    for i in 0..nonce.len() {
        let mut bad = nonce;
        bad[i] ^= 1;
        let mut eax = EaxState::new(Cipher::aes(), &key, &bad, Some(&header)).unwrap();
        let _ = eax.decrypt(&ct).unwrap();
        assert_ne!(eax.finish(16).unwrap(), tag, "nonce byte {}", i);
    }
}

use std::iter::repeat;

use tomcrypt::mac::{Hmac, Mac, Omac, Pmac};
use tomcrypt::symmetric::Cipher;

/// Run test vectors from http://tools.ietf.org/html/rfc2104.
#[test]
fn test_hmac_md5() {
    let parameters = [
        (
            repeat(0x0bu8).take(16).collect::<Vec<u8>>(),
            b"Hi There".to_vec(),
            [
                0x92, 0x94, 0x72, 0x7a, 0x36, 0x38, 0xbb, 0x1c, 0x13, 0xf4, 0x8e, 0xf8, 0x15,
                0x8b, 0xfc, 0x9d,
            ],
        ),
        (
            b"Jefe".to_vec(),
            b"what do ya want for nothing?".to_vec(),
            [
                0x75, 0x0c, 0x78, 0x3e, 0x6a, 0xb0, 0xb5, 0x03, 0xea, 0xa8, 0x6e, 0x31, 0x0a,
                0x5d, 0xb7, 0x38,
            ],
        ),
        (
            repeat(0xaau8).take(16).collect::<Vec<u8>>(),
            repeat(0xddu8).take(50).collect::<Vec<u8>>(),
            [
                0x56, 0xbe, 0x34, 0x52, 0x1d, 0x14, 0x4c, 0x88, 0xdb, 0xb8, 0xc7, 0x33, 0xf0,
                0xe8, 0xb3, 0xf6,
            ],
        ),
    ];

    for &(ref key, ref input, ref expected) in &parameters {
        let hmac = Hmac::new(tomcrypt::hash::Hash::md5(), key).unwrap();
        assert!(hmac.verify(input, expected).unwrap());
    }
}

#[test]
fn hmac_rejects_wrong_tag() {
    let key = [0x0bu8; 16];
    let hmac = Hmac::new(tomcrypt::hash::Hash::md5(), &key).unwrap();
    let mut tag = hmac.sign(b"Hi There").unwrap();
    tag[0] ^= 1;
    let hmac = Hmac::new(tomcrypt::hash::Hash::md5(), &key).unwrap();
    assert!(!hmac.verify(b"Hi There", &tag).unwrap());
    // A length mismatch is false, not an error.
    let hmac = Hmac::new(tomcrypt::hash::Hash::md5(), &key).unwrap();
    assert!(!hmac.verify(b"Hi There", &tag[..8]).unwrap());
}

#[test]
fn hmac_long_key_and_streaming() {
    let key = [0x55u8; 100];
    let mut a = Hmac::new(tomcrypt::hash::Hash::sha256(), &key).unwrap();
    a.process(b"part one, ").unwrap();
    a.process(b"part two").unwrap();
    let streamed = a.done().unwrap();
    let b = Hmac::new(tomcrypt::hash::Hash::sha256(), &key).unwrap();
    let oneshot = b.sign(b"part one, part two").unwrap();
    assert_eq!(streamed, oneshot);
}

#[test]
fn omac_aes128_known_answers() {
    // Vectors from RFC 4493 (AES-CMAC).
    let key = hex::decode("2b7e151628aed2a6abf7158809cf4f3c").unwrap();

    let omac = Omac::new(Cipher::aes(), &key).unwrap();
    let tag = omac.sign(b"").unwrap();
    assert_eq!(hex::encode(&tag), "bb1d6929e95937287fa37d129b756746");

    let msg16 = hex::decode("6bc1bee22e409f96e93d7e117393172a").unwrap();
    let omac = Omac::new(Cipher::aes(), &key).unwrap();
    let tag = omac.sign(&msg16).unwrap();
    assert_eq!(hex::encode(&tag), "070a16b46b4d4144f79bdd9dd04a287c");

    let msg40 = hex::decode(
        "6bc1bee22e409f96e93d7e117393172aae2d8a571e03ac9c9eb76fac45af8e5130c81c46a35ce411",
    )
    .unwrap();
    let omac = Omac::new(Cipher::aes(), &key).unwrap();
    let tag = omac.sign(&msg40).unwrap();
    assert_eq!(hex::encode(&tag), "dfa66747de9ae63030ca32611497c827");
}

#[test]
fn omac_verify_and_streaming() {
    let key = [9u8; 16];
    let mut a = Omac::new(Cipher::aes(), &key).unwrap();
    a.process(b"hello ").unwrap();
    a.process(b"world").unwrap();
    let streamed = a.done().unwrap();
    let b = Omac::new(Cipher::aes(), &key).unwrap();
    assert!(b.verify(b"hello world", &streamed).unwrap());
    let c = Omac::new(Cipher::aes(), &key).unwrap();
    assert!(!c.verify(b"hello worle", &streamed).unwrap());
}

#[test]
fn pmac_aes128_known_answers() {
    let key = hex::decode("000102030405060708090a0b0c0d0e0f").unwrap();

    let pmac = Pmac::new(Cipher::aes(), &key).unwrap();
    let tag = pmac.sign(b"").unwrap();
    assert_eq!(hex::encode(&tag), "4399572cd6ea5341b8d35876a7098af7");

    let pmac = Pmac::new(Cipher::aes(), &key).unwrap();
    let tag = pmac.sign(&[0x00, 0x01, 0x02]).unwrap();
    assert_eq!(hex::encode(&tag), "256ba5193c1b991b4df0c51f388a9e27");

    let msg16 = hex::decode("000102030405060708090a0b0c0d0e0f").unwrap();
    let pmac = Pmac::new(Cipher::aes(), &key).unwrap();
    let tag = pmac.sign(&msg16).unwrap();
    assert_eq!(hex::encode(&tag), "ebbd822fa458daf6dfdad7c27da76338");

    let msg20 = hex::decode("000102030405060708090a0b0c0d0e0f10111213").unwrap();
    let pmac = Pmac::new(Cipher::aes(), &key).unwrap();
    let tag = pmac.sign(&msg20).unwrap();
    assert_eq!(hex::encode(&tag), "0412ca150bbf79058d8c75a58c993f55");
}

#[test]
fn pmac_verify() {
    let key = [4u8; 16];
    let signer = Pmac::new(Cipher::aes(), &key).unwrap();
    let tag = signer.sign(b"some bytes").unwrap();
    let checker = Pmac::new(Cipher::aes(), &key).unwrap();
    assert!(checker.verify(b"some bytes", &tag).unwrap());
    let checker = Pmac::new(Cipher::aes(), &key).unwrap();
    assert!(!checker.verify(b"some bytez", &tag).unwrap());
}

fn tag_of<M: Mac>(mac: M, message: &[u8]) -> Vec<u8> {
    mac.sign(message).unwrap()
}

#[test]
fn mac_trait_is_usable_generically() {
    let key = [6u8; 16];
    let a = tag_of(Omac::new(Cipher::aes(), &key).unwrap(), b"generic message");
    let b = Omac::new(Cipher::aes(), &key).unwrap().sign(b"generic message").unwrap();
    assert_eq!(a, b);
    let c = tag_of(Hmac::new(tomcrypt::hash::Hash::sha1(), &key).unwrap(), b"generic message");
    assert_eq!(c.len(), 20);
    let d = tag_of(Pmac::new(Cipher::aes(), &key).unwrap(), b"generic message");
    assert_eq!(d.len(), 16);
    assert_ne!(a, d);
}

#[test]
fn mac_getters_and_bad_keys() {
    let key = [4u8; 16];
    let omac = Omac::new(Cipher::aes(), &key).unwrap();
    assert_eq!(*omac.cipher(), Cipher::aes());
    let pmac = Pmac::new(Cipher::aes(), &key).unwrap();
    assert_eq!(*pmac.cipher(), Cipher::aes());
    let hmac = Hmac::new(tomcrypt::hash::Hash::md5(), &key).unwrap();
    assert_eq!(*hmac.hash(), tomcrypt::hash::Hash::md5());
    assert!(Omac::new(Cipher::aes(), &[0u8; 5]).is_err());
    assert!(Pmac::new(Cipher::aes(), &[0u8; 5]).is_err());
}

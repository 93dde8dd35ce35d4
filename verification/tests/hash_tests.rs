use tomcrypt::hash::HashState;

#[test]
fn test_find_hash() {
    assert_eq!(tomcrypt::hash::Hash::find("md5").unwrap(), tomcrypt::hash::Hash::md5());

    for name in &["md5", "sha1", "sha256"] {
        let hash = tomcrypt::hash::Hash::find(name).unwrap();
        assert_eq!(hash.name(), *name);
    }
}

#[test]
fn test_md5_hash() {
    assert_eq!(
        hex::encode(tomcrypt::hash::Hash::md5().hash(b"hello world").unwrap()),
        "5eb63bbbe01eeed093cb22bb8f5acdc3"
    );
}

#[test]
fn test_sha_known_answers() {
    assert_eq!(
        hex::encode(tomcrypt::hash::Hash::sha1().hash(b"abc").unwrap()),
        "a9993e364706816aba3e25717850c26c9cd0d89d"
    );
    assert_eq!(
        hex::encode(tomcrypt::hash::Hash::sha256().hash(b"abc").unwrap()),
        "ba7816bf8f01cfea414140de5dae2223b00361a396177a9cb410ff61f20015ad"
    );
    assert_eq!(
        hex::encode(tomcrypt::hash::Hash::sha512().hash(b"abc").unwrap()),
        "ddaf35a193617abacc417349ae20413112e6fa4e89a97ea20a9eeee64b55d39a\
         2192992a274fc1a836ba3c23a3feebbd454d4423643ce80e2a9ac94fa54ca49f"
    );
}

#[test]
fn test_hash_metadata() {
    assert_eq!(tomcrypt::hash::Hash::md5().size(), 16);
    assert_eq!(tomcrypt::hash::Hash::sha1().size(), 20);
    assert_eq!(tomcrypt::hash::Hash::sha256().size(), 32);
    assert_eq!(tomcrypt::hash::Hash::sha512().size(), 64);
    assert_eq!(tomcrypt::hash::Hash::md5().block_size(), 64);
    assert_eq!(tomcrypt::hash::Hash::sha512().block_size(), 128);
}

#[test]
fn test_hash_oid() {
    assert_eq!(tomcrypt::hash::Hash::oid(&[1, 2, 840, 113549, 2, 5]).unwrap(), tomcrypt::hash::Hash::md5());
    assert_eq!(tomcrypt::hash::Hash::oid(&[1, 3, 14, 3, 2, 26]).unwrap(), tomcrypt::hash::Hash::sha1());
    assert_eq!(
        tomcrypt::hash::Hash::oid(&[2, 16, 840, 1, 101, 3, 4, 2, 1]).unwrap(),
        tomcrypt::hash::Hash::sha256()
    );
    assert!(tomcrypt::hash::Hash::oid(&[1, 2, 3]).is_none());
    assert!(tomcrypt::hash::Hash::oid(&[]).is_none());
}

#[test]
fn test_hash_state_streaming() {
    let mut st = HashState::new(tomcrypt::hash::Hash::sha256());
    st.process(b"hello ").unwrap();
    st.process(b"world").unwrap();
    let streamed = st.done().unwrap();
    let oneshot = tomcrypt::hash::Hash::sha256().hash(b"hello world").unwrap();
    assert_eq!(streamed, oneshot);
}

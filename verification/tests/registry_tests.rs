use tomcrypt::rand::PrngAlgorithm;
use tomcrypt::symmetric::Cipher;

#[test]
fn unregistered_names_return_none() {
    assert!(Cipher::find("twofish").is_none());
    assert!(Cipher::find("").is_none());
    assert!(tomcrypt::hash::Hash::find("whirlpool").is_none());
    assert!(tomcrypt::hash::Hash::find("md5 ").is_none());
    assert!(PrngAlgorithm::find("yarrow").is_none());
}

#[test]
fn repeated_init_is_idempotent() {
    tomcrypt::init();
    let first = Cipher::find("aes");
    tomcrypt::init();
    tomcrypt::init();
    let second = Cipher::find("aes");
    assert_eq!(first, second);
    assert!(first.is_some());
    assert_eq!(tomcrypt::hash::Hash::find("sha256"), tomcrypt::hash::Hash::find("sha256"));
}

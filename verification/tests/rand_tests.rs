use tomcrypt::rand::{Prng, PrngAlgorithm};

#[test]
fn prng_catalog() {
    for name in &["sprng", "chacha20", "fortuna"] {
        let alg = PrngAlgorithm::find(name).unwrap();
        assert_eq!(alg.name(), *name);
    }
    assert_eq!(PrngAlgorithm::default(), PrngAlgorithm::chacha20());
}

#[test]
fn prng_ready_gate() {
    // A generator other than sprng yields nothing before `ready`.
    let mut prng = Prng::new(PrngAlgorithm::chacha20());
    assert_eq!(prng.algorithm(), &PrngAlgorithm::chacha20());
    prng.add_entropy(b"some seed material").unwrap();
    assert_eq!(prng.read(8).unwrap().len(), 0);
    prng.ready().unwrap();
    assert_eq!(prng.read(8).unwrap().len(), 8);
}

#[test]
fn sprng_reads_without_ready() {
    let mut prng = Prng::new(PrngAlgorithm::sprng());
    let a = prng.read(16).unwrap();
    assert_eq!(a.len(), 16);
    let b = prng.read(16).unwrap();
    // Two 16-byte draws from the system generator virtually never collide.
    assert_ne!(a, b);
}

//! Cryptographic hash functions: a catalog of handles plus a streaming
//! digest state. The compression work itself is done by outside crates;
//! each digest is named as a function of the input bytes alone.

use vstd::prelude::*;

use crate::error::Error;
use crate::util;

verus! {

/// The hash algorithms of the built-in catalog.
#[derive(Clone, Copy, Debug, PartialEq, Eq, Structural)]
pub enum HashAlg {
    Md5,
    Sha1,
    Sha256,
    Sha512,
}

/// What a message digests to under MD5. Named only: the algorithm belongs
/// to the outside crate.
pub uninterp spec fn digest_md5(m: Seq<u8>) -> Seq<u8>;

/// What a message digests to under SHA-1.
pub uninterp spec fn digest_sha1(m: Seq<u8>) -> Seq<u8>;

/// What a message digests to under SHA-256.
pub uninterp spec fn digest_sha256(m: Seq<u8>) -> Seq<u8>;

/// What a message digests to under SHA-512.
pub uninterp spec fn digest_sha512(m: Seq<u8>) -> Seq<u8>;

/// The digest of a message under an algorithm of the catalog.
pub open spec fn digest_of(alg: HashAlg, m: Seq<u8>) -> Seq<u8> {
    match alg {
        HashAlg::Md5 => digest_md5(m),
        HashAlg::Sha1 => digest_sha1(m),
        HashAlg::Sha256 => digest_sha256(m),
        HashAlg::Sha512 => digest_sha512(m),
    }
}

/// Digest size of an algorithm, in bytes.
pub open spec fn spec_digest_size(alg: HashAlg) -> nat {
    match alg {
        HashAlg::Md5 => 16,
        HashAlg::Sha1 => 20,
        HashAlg::Sha256 => 32,
        HashAlg::Sha512 => 64,
    }
}

/// Internal block size of an algorithm, in bytes.
pub open spec fn spec_hash_block_size(alg: HashAlg) -> nat {
    match alg {
        HashAlg::Md5 => 64,
        HashAlg::Sha1 => 64,
        HashAlg::Sha256 => 64,
        HashAlg::Sha512 => 128,
    }
}

/// Name of an algorithm in the catalog.
pub open spec fn spec_hash_name(alg: HashAlg) -> Seq<char> {
    match alg {
        HashAlg::Md5 => "md5"@,
        HashAlg::Sha1 => "sha1"@,
        HashAlg::Sha256 => "sha256"@,
        HashAlg::Sha512 => "sha512"@,
    }
}

/// ASN.1 object identifier of an algorithm.
pub open spec fn spec_hash_oid(alg: HashAlg) -> Seq<u64> {
    match alg {
        HashAlg::Md5 => seq![1u64, 2u64, 840u64, 113549u64, 2u64, 5u64],
        HashAlg::Sha1 => seq![1u64, 3u64, 14u64, 3u64, 2u64, 26u64],
        HashAlg::Sha256 => seq![2u64, 16u64, 840u64, 1u64, 101u64, 3u64, 4u64, 2u64, 1u64],
        HashAlg::Sha512 => seq![2u64, 16u64, 840u64, 1u64, 101u64, 3u64, 4u64, 2u64, 3u64],
    }
}

/// Relies on md5::Md5 (Digest::digest, RFC 1321): the digest is a function
/// of the input bytes alone, 16 bytes long.
#[verifier::external_body]
fn md5_digest(data: &[u8]) -> (r: Vec<u8>)
    ensures
        r@ == digest_md5(data@),
        r@.len() == 16,
{
    <md5::Md5 as md5::Digest>::digest(data).to_vec()
}

/// Relies on sha1::Sha1 (Digest::digest, FIPS 180-4): the digest is a
/// function of the input bytes alone, 20 bytes long.
#[verifier::external_body]
fn sha1_digest(data: &[u8]) -> (r: Vec<u8>)
    ensures
        r@ == digest_sha1(data@),
        r@.len() == 20,
{
    <sha1::Sha1 as sha1::Digest>::digest(data).to_vec()
}

/// Relies on sha2::Sha256 (Digest::digest, FIPS 180-4): the digest is a
/// function of the input bytes alone, 32 bytes long.
#[verifier::external_body]
fn sha256_digest(data: &[u8]) -> (r: Vec<u8>)
    ensures
        r@ == digest_sha256(data@),
        r@.len() == 32,
{
    <sha2::Sha256 as sha2::Digest>::digest(data).to_vec()
}

/// Relies on sha2::Sha512 (Digest::digest, FIPS 180-4): the digest is a
/// function of the input bytes alone, 64 bytes long.
#[verifier::external_body]
fn sha512_digest(data: &[u8]) -> (r: Vec<u8>)
    ensures
        r@ == digest_sha512(data@),
        r@.len() == 64,
{
    <sha2::Sha512 as sha2::Digest>::digest(data).to_vec()
}

/// Dispatch a one-shot digest to the algorithm's backend.
pub(crate) fn digest_dispatch(alg: HashAlg, data: &[u8]) -> (r: Vec<u8>)
    ensures
        r@ == digest_of(alg, data@),
        r@.len() == spec_digest_size(alg),
{
    match alg {
        HashAlg::Md5 => md5_digest(data),
        HashAlg::Sha1 => sha1_digest(data),
        HashAlg::Sha256 => sha256_digest(data),
        HashAlg::Sha512 => sha512_digest(data),
    }
}

/// A cryptographic hash algorithm: a handle into the built-in catalog.
#[derive(Clone, Copy, Debug, PartialEq, Eq, Structural)]
pub struct Hash {
    alg: HashAlg,
}

impl Hash {
    /// The algorithm this handle refers to.
    pub closed spec fn spec_alg(self) -> HashAlg {
        self.alg
    }

    /// Find a hash algorithm by name. An unknown name is a normal empty
    /// result, not an error.
    pub fn find(name: &str) -> (r: Option<Hash>)
        ensures
            match r {
                Some(h) => name@ == spec_hash_name(h.spec_alg()),
                None => forall|alg: HashAlg| name@ != spec_hash_name(alg),
            },
    {
        if util::str_eq(name, "md5") {
            Some(Hash { alg: HashAlg::Md5 })
        } else if util::str_eq(name, "sha1") {
            Some(Hash { alg: HashAlg::Sha1 })
        } else if util::str_eq(name, "sha256") {
            Some(Hash { alg: HashAlg::Sha256 })
        } else if util::str_eq(name, "sha512") {
            Some(Hash { alg: HashAlg::Sha512 })
        } else {
            proof {
                assert forall|alg: HashAlg| name@ != spec_hash_name(alg) by {
                    match alg {
                        HashAlg::Md5 => {}
                        HashAlg::Sha1 => {}
                        HashAlg::Sha256 => {}
                        HashAlg::Sha512 => {}
                    }
                }
            }
            None
        }
    }

    /// Find a hash algorithm by its ASN.1 object identifier.
    pub fn oid(oid: &[u64]) -> (r: Option<Hash>)
        ensures
            match r {
                Some(h) => oid@ == spec_hash_oid(h.spec_alg()),
                None => forall|alg: HashAlg| oid@ != spec_hash_oid(alg),
            },
    {
        if oid_matches(oid, HashAlg::Md5) {
            Some(Hash { alg: HashAlg::Md5 })
        } else if oid_matches(oid, HashAlg::Sha1) {
            Some(Hash { alg: HashAlg::Sha1 })
        } else if oid_matches(oid, HashAlg::Sha256) {
            Some(Hash { alg: HashAlg::Sha256 })
        } else if oid_matches(oid, HashAlg::Sha512) {
            Some(Hash { alg: HashAlg::Sha512 })
        } else {
            proof {
                assert forall|alg: HashAlg| oid@ != spec_hash_oid(alg) by {
                    match alg {
                        HashAlg::Md5 => {}
                        HashAlg::Sha1 => {}
                        HashAlg::Sha256 => {}
                        HashAlg::Sha512 => {}
                    }
                }
            }
            None
        }
    }

    /// The algorithm, as an exec value.
    pub(crate) fn alg_value(&self) -> (r: HashAlg)
        ensures
            r == self.spec_alg(),
    {
        self.alg
    }

    /// The MD5 hash algorithm.
    pub fn md5() -> (r: Hash)
        ensures
            r.spec_alg() == HashAlg::Md5,
    {
        Hash { alg: HashAlg::Md5 }
    }

    /// The SHA-1 hash algorithm.
    pub fn sha1() -> (r: Hash)
        ensures
            r.spec_alg() == HashAlg::Sha1,
    {
        Hash { alg: HashAlg::Sha1 }
    }

    /// The SHA-256 hash algorithm.
    pub fn sha256() -> (r: Hash)
        ensures
            r.spec_alg() == HashAlg::Sha256,
    {
        Hash { alg: HashAlg::Sha256 }
    }

    /// The SHA-512 hash algorithm.
    pub fn sha512() -> (r: Hash)
        ensures
            r.spec_alg() == HashAlg::Sha512,
    {
        Hash { alg: HashAlg::Sha512 }
    }

    /// The name of this hash function.
    pub fn name(&self) -> (r: &'static str)
        ensures
            r@ == spec_hash_name(self.spec_alg()),
    {
        match self.alg {
            HashAlg::Md5 => "md5",
            HashAlg::Sha1 => "sha1",
            HashAlg::Sha256 => "sha256",
            HashAlg::Sha512 => "sha512",
        }
    }

    /// The digest output size, in bytes.
    pub fn size(&self) -> (r: u64)
        ensures
            r == spec_digest_size(self.spec_alg()),
    {
        match self.alg {
            HashAlg::Md5 => 16,
            HashAlg::Sha1 => 20,
            HashAlg::Sha256 => 32,
            HashAlg::Sha512 => 64,
        }
    }

    /// The block size the hash uses internally, in bytes.
    pub fn block_size(&self) -> (r: u64)
        ensures
            r == spec_hash_block_size(self.spec_alg()),
    {
        match self.alg {
            HashAlg::Md5 => 64,
            HashAlg::Sha1 => 64,
            HashAlg::Sha256 => 64,
            HashAlg::Sha512 => 128,
        }
    }

    /// Compute the message digest of the given data in one pass.
    pub fn hash(&self, input: &[u8]) -> (r: Result<Vec<u8>, Error>)
        ensures
            r is Ok,
            r matches Ok(d) ==> d@ == digest_of(self.spec_alg(), input@) && d@.len()
                == spec_digest_size(self.spec_alg()),
    {
        let mut state = HashState::new(*self);
        match state.process(input) {
            Ok(()) => {}
            Err(e) => {
                return Err(e);
            }
        }
        state.done()
    }
}

fn oid_matches(oid: &[u64], alg: HashAlg) -> (r: bool)
    ensures
        r == (oid@ == spec_hash_oid(alg)),
{
    let expected: Vec<u64> = match alg {
        HashAlg::Md5 => {
            let mut v: Vec<u64> = Vec::new();
            v.push(1);
            v.push(2);
            v.push(840);
            v.push(113549);
            v.push(2);
            v.push(5);
            v
        }
        HashAlg::Sha1 => {
            let mut v: Vec<u64> = Vec::new();
            v.push(1);
            v.push(3);
            v.push(14);
            v.push(3);
            v.push(2);
            v.push(26);
            v
        }
        HashAlg::Sha256 => {
            let mut v: Vec<u64> = Vec::new();
            v.push(2);
            v.push(16);
            v.push(840);
            v.push(1);
            v.push(101);
            v.push(3);
            v.push(4);
            v.push(2);
            v.push(1);
            v
        }
        HashAlg::Sha512 => {
            let mut v: Vec<u64> = Vec::new();
            v.push(2);
            v.push(16);
            v.push(840);
            v.push(1);
            v.push(101);
            v.push(3);
            v.push(4);
            v.push(2);
            v.push(3);
            v
        }
    };
    proof {
        assert(expected@ =~= spec_hash_oid(alg));
    }
    let n = oid.len();
    if n != expected.len() {
        proof {
            assert(oid@.len() != spec_hash_oid(alg).len());
        }
        return false;
    }
    let mut i: usize = 0;
    let mut eq: bool = true;
    while i < n
        invariant
            n == oid@.len(),
            n == expected@.len(),
            expected@ == spec_hash_oid(alg),
            i <= n,
            eq <==> (forall|j: int| 0 <= j < i ==> oid@[j] == expected@[j]),
        decreases n - i,
    {
        if oid[i] != expected[i] {
            eq = false;
        }
        i = i + 1;
    }
    proof {
        if eq {
            assert(oid@ =~= expected@);
        }
    }
    eq
}

/// The state of a message digest being computed: the bytes absorbed so
/// far, digested in one pass when it is finished.
pub struct HashState {
    hash: Hash,
    buf: Vec<u8>,
}

impl HashState {
    /// Which algorithm this state digests with.
    pub closed spec fn spec_alg(self) -> HashAlg {
        self.hash.spec_alg()
    }

    /// The bytes absorbed so far.
    pub closed spec fn absorbed(self) -> Seq<u8> {
        self.buf@
    }

    /// Start a new message digest with the given algorithm.
    pub fn new(hash: Hash) -> (r: HashState)
        ensures
            r.spec_alg() == hash.spec_alg(),
            r.absorbed() == Seq::<u8>::empty(),
    {
        let r = HashState { hash, buf: Vec::new() };
        proof {
            assert(r.absorbed() =~= Seq::<u8>::empty());
        }
        r
    }

    /// Add data to the message being hashed. May be called repeatedly for
    /// streaming messages.
    pub fn process(&mut self, input: &[u8]) -> (r: Result<(), Error>)
        ensures
            r is Ok,
            final(self).spec_alg() == old(self).spec_alg(),
            final(self).absorbed() == old(self).absorbed() + input@,
    {
        util::append_vec(&mut self.buf, input);
        Ok(())
    }

    /// Finalize the hash and return the message digest.
    pub fn done(self) -> (r: Result<Vec<u8>, Error>)
        ensures
            r is Ok,
            r matches Ok(d) ==> d@ == digest_of(self.spec_alg(), self.absorbed()) && d@.len()
                == spec_digest_size(self.spec_alg()),
    {
        Ok(digest_dispatch(self.hash.alg, self.buf.as_slice()))
    }
}

} // verus!

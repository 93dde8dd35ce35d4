//! Message authentication codes: HMAC over a hash handle, OMAC/CMAC and
//! PMAC over a cipher handle. Each accumulates its message and produces a
//! tag on `done`; `verify` compares through the constant-time comparator,
//! never default equality.

use vstd::prelude::*;

use crate::error::Error;
use crate::hash::{digest_of, spec_digest_size, spec_hash_block_size, HashAlg};
use crate::schedule::KeySchedule;
use crate::symmetric::{
    block_aligned, enc_block_of, good_cipher, key_len_ok, lemma_aligned_add, lemma_aligned_ge,
    lemma_aligned_range, lemma_aligned_skip, lemma_trim_aligned, spec_block_size, Cipher,
    CipherAlg,
};
use crate::util;
use crate::util::{rep_byte, xor_bytes, zeros};

verus! {

/// A byte string padded with zeros up to length `n` (unchanged if it is
/// already that long or longer).
pub open spec fn pad_to(b: Seq<u8>, n: nat) -> Seq<u8> {
    if b.len() >= n {
        b
    } else {
        b + zeros((n - b.len()) as nat)
    }
}

/// The normalized HMAC key: a key longer than the hash's block is hashed
/// first, then zero-padded to exactly one block.
pub open spec fn hmac_key_block(alg: HashAlg, key: Seq<u8>) -> Seq<u8> {
    let bs = spec_hash_block_size(alg);
    if key.len() > bs {
        pad_to(digest_of(alg, key), bs)
    } else {
        pad_to(key, bs)
    }
}

/// The HMAC tag: the nested-hash construction of RFC 2104 over the
/// normalized key and the message.
pub open spec fn hmac_spec(alg: HashAlg, key: Seq<u8>, m: Seq<u8>) -> Seq<u8> {
    let bs = spec_hash_block_size(alg);
    let kb = hmac_key_block(alg, key);
    digest_of(
        alg,
        xor_bytes(kb, rep_byte(bs, 0x5c)) + digest_of(alg, xor_bytes(kb, rep_byte(bs, 0x36)) + m),
    )
}

proof fn lemma_digest_fits_block(alg: HashAlg)
    ensures
        spec_digest_size(alg) <= spec_hash_block_size(alg),
{
}

fn hash_block_size_usize(h: &crate::hash::Hash) -> (r: usize)
    ensures
        r == spec_hash_block_size(h.spec_alg()),
        r == 64 || r == 128,
{
    match h.alg_value() {
        HashAlg::Md5 => 64,
        HashAlg::Sha1 => 64,
        HashAlg::Sha256 => 64,
        HashAlg::Sha512 => 128,
    }
}

/// A message authentication code algorithm: `process` streams the message
/// in (zero or more calls), a consuming `done` produces the tag, and
/// `verify` compares a computed tag with a caller-supplied one through
/// the constant-time comparator — a length mismatch is `false`, not an
/// error.
pub trait Mac: Sized {
    /// Well-formed authenticator state.
    spec fn mac_wf(self) -> bool;

    /// The bytes absorbed so far.
    spec fn mac_absorbed(self) -> Seq<u8>;

    /// The tag this authenticator assigns to a message; fixed by the
    /// algorithm and key, untouched by streaming.
    spec fn mac_tag(self, m: Seq<u8>) -> Seq<u8>;

    /// Add data to the message being processed.
    fn process(&mut self, input: &[u8]) -> (r: Result<(), Error>)
        requires
            old(self).mac_wf(),
        ensures
            r is Ok,
            final(self).mac_wf(),
            final(self).mac_absorbed() == old(self).mac_absorbed() + input@,
            forall|m: Seq<u8>| final(self).mac_tag(m) == old(self).mac_tag(m),
    ;

    /// Finish the routine and return the tag of everything absorbed.
    fn done(self) -> (r: Result<Vec<u8>, Error>)
        requires
            self.mac_wf(),
        ensures
            r is Ok,
            r matches Ok(t) ==> t@ == self.mac_tag(self.mac_absorbed()),
    ;

    /// Compute the tag of everything absorbed followed by `input`.
    fn sign(self, input: &[u8]) -> (r: Result<Vec<u8>, Error>)
        requires
            self.mac_wf(),
        ensures
            r is Ok,
            r matches Ok(t) ==> t@ == self.mac_tag(self.mac_absorbed() + input@),
    ;

    /// Compute the tag of the message and compare it, in constant time,
    /// with the given signature.
    fn verify(self, input: &[u8], signature: &[u8]) -> (r: Result<bool, Error>)
        requires
            self.mac_wf(),
        ensures
            r is Ok,
            r matches Ok(b) ==> b == (signature@ == self.mac_tag(self.mac_absorbed() + input@)),
    ;
}

/// Computes a hash-based message authentication code (HMAC).
pub struct Hmac {
    hash: crate::hash::Hash,
    key: Vec<u8>,
    buf: Vec<u8>,
}

impl Hmac {
    /// Which hash algorithm this state authenticates with.
    pub closed spec fn spec_alg(self) -> HashAlg {
        self.hash.spec_alg()
    }

    /// The key this state was built with.
    pub closed spec fn key(self) -> Seq<u8> {
        self.key@
    }

    /// The bytes absorbed so far.
    pub closed spec fn absorbed(self) -> Seq<u8> {
        self.buf@
    }

    /// Initialize a new HMAC with a hash algorithm and key. Any key length
    /// is accepted.
    pub fn new(hash: crate::hash::Hash, key: &[u8]) -> (r: Result<Hmac, Error>)
        ensures
            r is Ok,
            r matches Ok(m) ==> m.spec_alg() == hash.spec_alg() && m.key() == key@ && m.absorbed()
                == Seq::<u8>::empty(),
    {
        let m = Hmac { hash, key: vstd::slice::slice_to_vec(key), buf: Vec::new() };
        proof {
            assert(m.absorbed() =~= Seq::<u8>::empty());
        }
        Ok(m)
    }

    /// The hash algorithm used by this HMAC.
    pub fn hash(&self) -> (r: &crate::hash::Hash)
        ensures
            r.spec_alg() == self.spec_alg(),
    {
        &self.hash
    }

    /// Add data to the message being authenticated.
    pub fn process(&mut self, input: &[u8]) -> (r: Result<(), Error>)
        ensures
            r is Ok,
            final(self).spec_alg() == old(self).spec_alg(),
            final(self).key() == old(self).key(),
            final(self).absorbed() == old(self).absorbed() + input@,
    {
        util::append_vec(&mut self.buf, input);
        Ok(())
    }

    /// Finish and return the tag: the HMAC of everything absorbed.
    pub fn done(self) -> (r: Result<Vec<u8>, Error>)
        ensures
            r is Ok,
            r matches Ok(t) ==> t@ == hmac_spec(self.spec_alg(), self.key(), self.absorbed())
                && t@.len() == spec_digest_size(self.spec_alg()),
    {
        let alg = self.hash.alg_value();
        let bs = hash_block_size_usize(&self.hash);
        let kraw: Vec<u8> = if self.key.len() > bs {
            crate::hash::digest_dispatch(alg, self.key.as_slice())
        } else {
            self.key.clone()
        };
        proof {
            lemma_digest_fits_block(alg);
            if self.key@.len() > bs {
            } else {
                assert(kraw@ =~= self.key@);
            }
            assert(kraw@.len() <= bs);
        }
        let mut kb = kraw;
        let ghost kraw_view = kb@;
        while kb.len() < bs
            invariant
                kraw_view.len() <= bs,
                kraw_view.len() <= kb@.len() <= bs,
                kb@ =~= kraw_view + zeros((kb@.len() - kraw_view.len()) as nat),
            decreases bs - kb@.len(),
        {
            kb.push(0u8);
            proof {
                assert(kb@ =~= kraw_view + zeros((kb@.len() - kraw_view.len()) as nat));
            }
        }
        proof {
            assert(kb@ =~= pad_to(kraw_view, bs as nat));
            assert(kb@ == hmac_key_block(self.spec_alg(), self.key()));
        }
        let mut inner = util::xor_const(kb.as_slice(), 0x36);
        util::append_vec(&mut inner, self.buf.as_slice());
        let inner_digest = crate::hash::digest_dispatch(alg, inner.as_slice());
        let mut outer = util::xor_const(kb.as_slice(), 0x5c);
        util::append_vec(&mut outer, inner_digest.as_slice());
        let tag = crate::hash::digest_dispatch(alg, outer.as_slice());
        Ok(tag)
    }

    /// Compute the tag of everything absorbed followed by `input`.
    pub fn sign(self, input: &[u8]) -> (r: Result<Vec<u8>, Error>)
        ensures
            r is Ok,
            r matches Ok(t) ==> t@ == hmac_spec(
                self.spec_alg(),
                self.key(),
                self.absorbed() + input@,
            ) && t@.len() == spec_digest_size(self.spec_alg()),
    {
        let mut s = self;
        match s.process(input) {
            Ok(()) => {}
            Err(e) => {
                return Err(e);
            }
        }
        s.done()
    }

    /// Compute the tag of the message and compare it, in constant time,
    /// with the given signature. A length mismatch is `false`, not an
    /// error.
    pub fn verify(self, input: &[u8], signature: &[u8]) -> (r: Result<bool, Error>)
        ensures
            r is Ok,
            r matches Ok(b) ==> b == (signature@ == hmac_spec(
                self.spec_alg(),
                self.key(),
                self.absorbed() + input@,
            )),
    {
        let tag = match self.sign(input) {
            Ok(t) => t,
            Err(e) => {
                return Err(e);
            }
        };
        Ok(util::compare_slices(tag.as_slice(), signature))
    }
}

impl Mac for Hmac {
    open spec fn mac_wf(self) -> bool {
        true
    }

    open spec fn mac_absorbed(self) -> Seq<u8> {
        self.absorbed()
    }

    open spec fn mac_tag(self, m: Seq<u8>) -> Seq<u8> {
        hmac_spec(self.spec_alg(), self.key(), m)
    }

    fn process(&mut self, input: &[u8]) -> (r: Result<(), Error>) {
        Hmac::process(self, input)
    }

    fn done(self) -> (r: Result<Vec<u8>, Error>) {
        Hmac::done(self)
    }

    fn sign(self, input: &[u8]) -> (r: Result<Vec<u8>, Error>) {
        Hmac::sign(self, input)
    }

    fn verify(self, input: &[u8], signature: &[u8]) -> (r: Result<bool, Error>) {
        Hmac::verify(self, input, signature)
    }
}

/// The reduction byte used when doubling in the block's Galois field:
/// the CMAC constant for 16-byte and 8-byte blocks.
pub open spec fn dbl_mask(n: nat) -> u8 {
    if n == 16 {
        0x87
    } else {
        0x1b
    }
}

/// A whole block shifted left by one bit, bits flowing toward the first
/// byte.
pub open spec fn dbl_shift(b: Seq<u8>) -> Seq<u8> {
    Seq::new(
        b.len(),
        |i: int|
            (b[i] << 1) | (
            if i + 1 < b.len() {
                b[i + 1] >> 7
            } else {
                0u8
            }),
    )
}

/// Doubling in the block's Galois field: shift left one bit and, if the
/// top bit was set, fold the reduction byte into the last position.
pub open spec fn dbl_spec(b: Seq<u8>) -> Seq<u8> {
    let s = dbl_shift(b);
    if b.len() > 0 && (b[0] >> 7) == 1 {
        s.update(b.len() - 1, s[b.len() - 1] ^ dbl_mask(b.len()))
    } else {
        s
    }
}

/// Exec doubling of a block.
fn dbl_vec(b: &[u8]) -> (r: Vec<u8>)
    requires
        b@.len() >= 1,
    ensures
        r@ == dbl_spec(b@),
        r@.len() == b@.len(),
{
    let n: usize = b.len();
    let mut out: Vec<u8> = Vec::new();
    let mut i: usize = 0;
    while i < n
        invariant
            n == b@.len(),
            i <= n,
            out@ =~= dbl_shift(b@).take(i as int),
        decreases n - i,
    {
        let hi: u8 = if i + 1 < n {
            b[i + 1] >> 7
        } else {
            0
        };
        out.push((b[i] << 1) | hi);
        proof {
            assert(out@ =~= dbl_shift(b@).take((i + 1) as int));
        }
        i = i + 1;
    }
    proof {
        assert(out@ =~= dbl_shift(b@));
    }
    if (b[0] >> 7) == 1 {
        let mask: u8 = if n == 16 {
            0x87
        } else {
            0x1b
        };
        let last = out[n - 1];
        out[n - 1] = last ^ mask;
        proof {
            assert(out@ =~= dbl_spec(b@));
        }
    }
    out
}

/// The CBC-MAC accumulator folded over whole blocks.
pub open spec fn omac_cbc(alg: CipherAlg, key: Seq<u8>, acc: Seq<u8>, m: Seq<u8>) -> Seq<u8>
    decreases m.len(),
{
    let bs = spec_block_size(alg) as int;
    if m.len() == 0 {
        acc
    } else if m.len() <= bs {
        enc_block_of(alg, key, xor_bytes(m.take(bs), acc))
    } else {
        omac_cbc(alg, key, enc_block_of(alg, key, xor_bytes(m.take(bs), acc)), m.skip(bs))
    }
}

/// The first OMAC subkey: the encrypted zero block, doubled.
pub open spec fn omac_lu(alg: CipherAlg, key: Seq<u8>) -> Seq<u8> {
    dbl_spec(enc_block_of(alg, key, zeros(spec_block_size(alg))))
}

/// The second OMAC subkey: the first, doubled again.
pub open spec fn omac_lu2(alg: CipherAlg, key: Seq<u8>) -> Seq<u8> {
    dbl_spec(omac_lu(alg, key))
}

/// A partial final chunk padded to one block: a single 1 bit, then zeros.
pub open spec fn omac_pad(m: Seq<u8>, bs: nat) -> Seq<u8> {
    pad_to(m.push(0x80u8), bs)
}

/// The OMAC1 (CMAC) tag of a message: CBC-MAC over all but the final
/// chunk, the final chunk masked with the first subkey when it is a whole
/// block and with the second subkey after padding otherwise, and one last
/// pass through the cipher.
pub open spec fn omac_tag(alg: CipherAlg, key: Seq<u8>, m: Seq<u8>) -> Seq<u8> {
    let bs = spec_block_size(alg);
    if m.len() > 0 && block_aligned(alg, m.len()) {
        let body = m.take(m.len() - bs);
        let last = m.skip(m.len() - bs);
        enc_block_of(
            alg,
            key,
            xor_bytes(xor_bytes(last, omac_cbc(alg, key, zeros(bs), body)), omac_lu(alg, key)),
        )
    } else {
        let k = (m.len() - (m.len() % bs)) as int;
        let body = m.take(k);
        let lastp = m.skip(k);
        enc_block_of(
            alg,
            key,
            xor_bytes(
                xor_bytes(omac_pad(lastp, bs), omac_cbc(alg, key, zeros(bs), body)),
                omac_lu2(alg, key),
            ),
        )
    }
}


/// Shared engine for the block-cipher MACs: a scheduled key plus the
/// buffered message.
struct CipherMacCore {
    cipher: Cipher,
    ks: KeySchedule,
    buf: Vec<u8>,
}

impl CipherMacCore {
    spec fn alg(self) -> CipherAlg {
        self.ks.alg()
    }

    spec fn key(self) -> Seq<u8> {
        self.ks.key()
    }

    spec fn wf(self) -> bool {
        self.ks.wf() && self.cipher.spec_alg() == self.ks.alg()
    }

    fn new(cipher: Cipher, key: &[u8]) -> (r: Result<CipherMacCore, Error>)
        ensures
            r is Ok <==> key_len_ok(cipher.spec_alg(), key@.len()),
            r matches Ok(m) ==> m.wf() && m.alg() == cipher.spec_alg() && m.key() == key@
                && m.buf@ == Seq::<u8>::empty() && good_cipher(m.alg(), m.key()),
            r matches Err(e) ==> e == Error::InvalidArgument,
    {
        match KeySchedule::new(cipher.alg_value(), key) {
            Ok(ks) => {
                let m = CipherMacCore { cipher, ks, buf: Vec::new() };
                proof {
                    assert(m.buf@ =~= Seq::<u8>::empty());
                }
                Ok(m)
            }
            Err(_) => Err(Error::InvalidArgument),
        }
    }

    /// Fold the buffered message into its OMAC1 tag.
    fn omac_done(&self) -> (r: Vec<u8>)
        requires
            self.wf(),
        ensures
            r@ == omac_tag(self.alg(), self.key(), self.buf@),
            r@.len() == spec_block_size(self.alg()),
    {
        let ghost alg = self.alg();
        let ghost key = self.key();
        let bs = crate::symmetric::block_size_of(&self.ks);
        let zb = util::zero_vec(bs);
        let l = self.ks.enc_block(zb.as_slice());
        let lu = dbl_vec(l.as_slice());
        let lu2 = dbl_vec(lu.as_slice());
        proof {
            assert(lu@ == omac_lu(alg, key));
            assert(lu2@ == omac_lu2(alg, key));
        }
        let n = self.buf.len();
        let rem = n % bs;
        let full_last = n > 0 && rem == 0;
        let body_len: usize = if full_last {
            n - bs
        } else {
            n - rem
        };
        proof {
            if full_last {
                lemma_aligned_ge(alg, n as nat);
                lemma_aligned_skip(alg, n as nat);
            } else {
                lemma_trim_aligned(alg, n as nat);
            }
            assert(block_aligned(alg, body_len as nat));
        }
        let ghost body = self.buf@.take(body_len as int);
        let mut acc = util::zero_vec(bs);
        let mut i: usize = 0;
        proof {
            assert(body.skip(0) =~= body);
        }
        while i < body_len
            invariant
                self.wf(),
                self.alg() == alg,
                self.key() == key,
                bs == spec_block_size(alg),
                good_cipher(alg, key),
                body == self.buf@.take(body_len as int),
                body_len <= self.buf@.len(),
                body.len() == body_len,
                block_aligned(alg, body_len as nat),
                i <= body_len,
                block_aligned(alg, i as nat),
                acc@.len() == bs,
                omac_cbc(alg, key, zeros(bs as nat), body) == omac_cbc(
                    alg,
                    key,
                    acc@,
                    body.skip(i as int),
                ),
            decreases body_len - i,
        {
            proof {
                lemma_aligned_range(alg, i as nat, body_len as nat);
            }
            let block = util::sub_vec(self.buf.as_slice(), i, i + bs);
            proof {
                let rest = body.skip(i as int);
                assert(rest.take(bs as int) =~= self.buf@.subrange(i as int, (i + bs) as int));
            }
            let x = util::xor_vec(block.as_slice(), acc.as_slice());
            acc = self.ks.enc_block(x.as_slice());
            proof {
                let rest = body.skip(i as int);
                assert(rest.skip(bs as int) =~= body.skip((i + bs) as int));
                if rest.len() > bs {
                } else {
                    assert(rest.len() == bs);
                    assert(body.skip((i + bs) as int) =~= Seq::<u8>::empty());
                }
                lemma_aligned_add(alg, i as nat);
            }
            i = i + bs;
        }
        proof {
            assert(body.skip(body_len as int) =~= Seq::<u8>::empty());
            assert(omac_cbc(alg, key, zeros(bs as nat), body) == acc@);
        }
        let last = util::sub_vec(self.buf.as_slice(), body_len, n);
        proof {
            assert(last@ =~= self.buf@.skip(body_len as int));
        }
        let x: Vec<u8>;
        if full_last {
            proof {
                assert(last@.len() == bs);
            }
            x = util::xor_vec(
                util::xor_vec(last.as_slice(), acc.as_slice()).as_slice(),
                lu.as_slice(),
            );
        } else {
            let mut p = last;
            let ghost p_base = p@.push(0x80u8);
            p.push(0x80);
            proof {
                assert(p@ == p_base);
                assert(p@.len() == (n - body_len) + 1 <= bs);
            }
            while p.len() < bs
                invariant
                    p_base.len() <= bs,
                    p_base.len() <= p@.len() <= bs,
                    p@ =~= p_base + zeros((p@.len() - p_base.len()) as nat),
                decreases bs - p@.len(),
            {
                p.push(0u8);
                proof {
                    assert(p@ =~= p_base + zeros((p@.len() - p_base.len()) as nat));
                }
            }
            proof {
                assert(p@ =~= pad_to(p_base, bs as nat));
                assert(p@ == omac_pad(self.buf@.skip(body_len as int), bs as nat));
            }
            x = util::xor_vec(
                util::xor_vec(p.as_slice(), acc.as_slice()).as_slice(),
                lu2.as_slice(),
            );
        }
        let tag = self.ks.enc_block(x.as_slice());
        proof {
            assert(tag@ == omac_tag(alg, key, self.buf@));
        }
        tag
    }
}





impl Mac for Omac {
    open spec fn mac_wf(self) -> bool {
        self.wf()
    }

    open spec fn mac_absorbed(self) -> Seq<u8> {
        self.absorbed()
    }

    open spec fn mac_tag(self, m: Seq<u8>) -> Seq<u8> {
        omac_tag(self.spec_alg(), self.key(), m)
    }

    fn process(&mut self, input: &[u8]) -> (r: Result<(), Error>) {
        Omac::process(self, input)
    }

    fn done(self) -> (r: Result<Vec<u8>, Error>) {
        Omac::done(self)
    }

    fn sign(self, input: &[u8]) -> (r: Result<Vec<u8>, Error>) {
        Omac::sign(self, input)
    }

    fn verify(self, input: &[u8], signature: &[u8]) -> (r: Result<bool, Error>) {
        Omac::verify(self, input, signature)
    }
}

/// The reduction block used when halving in the block's Galois field: a
/// set top bit in the first byte and the division constant in the last.
pub open spec fn pmac_div_mask(n: nat) -> Seq<u8> {
    Seq::new(
        n,
        |i: int|
            if i == 0 {
                0x80u8
            } else if i == n - 1 {
                if n == 16 {
                    0x43u8
                } else {
                    0x0du8
                }
            } else {
                0u8
            },
    )
}

/// A whole block shifted right by one bit, bits flowing toward the last
/// byte.
pub open spec fn half_shift(b: Seq<u8>) -> Seq<u8> {
    Seq::new(
        b.len(),
        |i: int|
            (b[i] >> 1) | (
            if i > 0 {
                b[i - 1] << 7
            } else {
                0u8
            }),
    )
}

/// Halving in the block's Galois field: shift right one bit and, if the
/// low bit was set, fold the division constant in.
pub open spec fn half_spec(b: Seq<u8>) -> Seq<u8> {
    let s = half_shift(b);
    if b.len() > 0 && (b[b.len() - 1] & 1) == 1 {
        xor_bytes(s, pmac_div_mask(b.len()))
    } else {
        s
    }
}

/// Exec halving of a block.
fn half_vec(b: &[u8]) -> (r: Vec<u8>)
    requires
        b@.len() >= 2,
    ensures
        r@ == half_spec(b@),
        r@.len() == b@.len(),
{
    let n: usize = b.len();
    let mut out: Vec<u8> = Vec::new();
    let mut i: usize = 0;
    while i < n
        invariant
            n == b@.len(),
            i <= n,
            out@ =~= half_shift(b@).take(i as int),
        decreases n - i,
    {
        let lo: u8 = if i > 0 {
            b[i - 1] << 7
        } else {
            0
        };
        out.push((b[i] >> 1) | lo);
        proof {
            assert(out@ =~= half_shift(b@).take((i + 1) as int));
        }
        i = i + 1;
    }
    proof {
        assert(out@ =~= half_shift(b@));
    }
    if (b[n - 1] & 1) == 1 {
        let lastmask: u8 = if n == 16 {
            0x43
        } else {
            0x0d
        };
        let mut mask: Vec<u8> = util::zero_vec(n);
        mask[0] = 0x80;
        mask[n - 1] = lastmask;
        proof {
            assert(mask@ =~= pmac_div_mask(n as nat));
        }
        let folded = util::xor_vec(out.as_slice(), mask.as_slice());
        proof {
            assert(folded@ =~= half_spec(b@));
        }
        return folded;
    }
    out
}

/// The PMAC subkey ladder: the encrypted zero block, doubled `j` times.
pub open spec fn pmac_ls(alg: CipherAlg, key: Seq<u8>, j: nat) -> Seq<u8>
    decreases j,
{
    if j == 0 {
        enc_block_of(alg, key, zeros(spec_block_size(alg)))
    } else {
        dbl_spec(pmac_ls(alg, key, (j - 1) as nat))
    }
}

/// The PMAC final-block subkey: the encrypted zero block, halved.
pub open spec fn pmac_lr(alg: CipherAlg, key: Seq<u8>) -> Seq<u8> {
    half_spec(enc_block_of(alg, key, zeros(spec_block_size(alg))))
}

/// Number of trailing zero bits of an index.
pub open spec fn ntz_spec(i: nat) -> nat
    decreases i,
{
    if i == 0 {
        0
    } else if i % 2 == 1 {
        0
    } else {
        1 + ntz_spec(i / 2)
    }
}

fn ntz_exec(i: u64) -> (r: u64)
    requires
        i >= 1,
    ensures
        r == ntz_spec(i as nat),
{
    let mut x: u64 = i;
    let mut c: u64 = 0;
    while x % 2 == 0
        invariant
            x >= 1,
            c + x <= i,
            ntz_spec(i as nat) == c + ntz_spec(x as nat),
        decreases x,
    {
        proof {
            assert(x as nat / 2 == (x / 2) as nat);
            assert(x >= 2);
        }
        x = x / 2;
        c = c + 1;
    }
    c
}

/// The PMAC accumulator folded over whole blocks: a running offset walks
/// the subkey ladder by the trailing-zero count of the block index, and
/// each offset-masked block goes through the cipher into the checksum.
pub open spec fn pmac_fold(
    alg: CipherAlg,
    key: Seq<u8>,
    li: Seq<u8>,
    csum: Seq<u8>,
    idx: nat,
    m: Seq<u8>,
) -> (Seq<u8>, Seq<u8>, nat)
    decreases m.len(),
{
    let bs = spec_block_size(alg) as int;
    if m.len() == 0 {
        (li, csum, idx)
    } else {
        let nli = xor_bytes(li, pmac_ls(alg, key, ntz_spec(idx)));
        let ncsum = xor_bytes(csum, enc_block_of(alg, key, xor_bytes(m.take(bs), nli)));
        if m.len() <= bs {
            (nli, ncsum, idx + 1)
        } else {
            pmac_fold(alg, key, nli, ncsum, idx + 1, m.skip(bs))
        }
    }
}

/// The PMAC tag of a message: the checksum over all but the final chunk,
/// the final chunk folded in with the halved subkey when it is a whole
/// block and after padding otherwise, then one last pass through the
/// cipher.
pub open spec fn pmac_tag(alg: CipherAlg, key: Seq<u8>, m: Seq<u8>) -> Seq<u8> {
    let bs = spec_block_size(alg);
    if m.len() > 0 && block_aligned(alg, m.len()) {
        let body = m.take(m.len() - bs);
        let last = m.skip(m.len() - bs);
        let acc = pmac_fold(alg, key, zeros(bs), zeros(bs), 1, body);
        enc_block_of(alg, key, xor_bytes(xor_bytes(acc.1, last), pmac_lr(alg, key)))
    } else {
        let k = (m.len() - (m.len() % bs)) as int;
        let body = m.take(k);
        let lastp = m.skip(k);
        let acc = pmac_fold(alg, key, zeros(bs), zeros(bs), 1, body);
        enc_block_of(alg, key, xor_bytes(acc.1, omac_pad(lastp, bs)))
    }
}

fn ls_at(ks: &KeySchedule, l: &Vec<u8>, j: u64) -> (r: Vec<u8>)
    requires
        ks.wf(),
        l@ == pmac_ls(ks.alg(), ks.key(), 0),
        l@.len() == spec_block_size(ks.alg()),
    ensures
        r@ == pmac_ls(ks.alg(), ks.key(), j as nat),
        r@.len() == spec_block_size(ks.alg()),
{
    let mut cur = l.clone();
    proof {
        assert(cur@ =~= l@);
    }
    let mut jj: u64 = 0;
    while jj < j
        invariant
            ks.wf(),
            jj <= j,
            cur@ == pmac_ls(ks.alg(), ks.key(), jj as nat),
            cur@.len() == spec_block_size(ks.alg()),
        decreases j - jj,
    {
        cur = dbl_vec(cur.as_slice());
        jj = jj + 1;
    }
    cur
}

impl CipherMacCore {
    /// Fold the buffered message into its PMAC tag.
    fn pmac_done(&self) -> (r: Vec<u8>)
        requires
            self.wf(),
        ensures
            r@ == pmac_tag(self.alg(), self.key(), self.buf@),
            r@.len() == spec_block_size(self.alg()),
    {
        let ghost alg = self.alg();
        let ghost key = self.key();
        let bs = crate::symmetric::block_size_of(&self.ks);
        let zb = util::zero_vec(bs);
        let l = self.ks.enc_block(zb.as_slice());
        let lr = half_vec(l.as_slice());
        proof {
            assert(l@ == pmac_ls(alg, key, 0));
            assert(lr@ == pmac_lr(alg, key));
        }
        let n = self.buf.len();
        let rem = n % bs;
        let full_last = n > 0 && rem == 0;
        let body_len: usize = if full_last {
            n - bs
        } else {
            n - rem
        };
        proof {
            if full_last {
                lemma_aligned_ge(alg, n as nat);
                lemma_aligned_skip(alg, n as nat);
            } else {
                lemma_trim_aligned(alg, n as nat);
            }
            assert(block_aligned(alg, body_len as nat));
        }
        let ghost body = self.buf@.take(body_len as int);
        let mut li = util::zero_vec(bs);
        let mut csum = util::zero_vec(bs);
        let mut idx: u64 = 1;
        let mut i: usize = 0;
        proof {
            assert(body.skip(0) =~= body);
        }
        while i < body_len
            invariant
                self.wf(),
                self.alg() == alg,
                self.key() == key,
                bs == spec_block_size(alg),
                good_cipher(alg, key),
                body == self.buf@.take(body_len as int),
                body_len <= self.buf@.len(),
                body.len() == body_len,
                block_aligned(alg, body_len as nat),
                i <= body_len,
                block_aligned(alg, i as nat),
                li@.len() == bs,
                csum@.len() == bs,
                idx >= 1,
                idx <= i + 1,
                l@ == pmac_ls(alg, key, 0),
                l@.len() == bs,
                pmac_fold(alg, key, zeros(bs as nat), zeros(bs as nat), 1, body) == pmac_fold(
                    alg,
                    key,
                    li@,
                    csum@,
                    idx as nat,
                    body.skip(i as int),
                ),
            decreases body_len - i,
        {
            proof {
                lemma_aligned_range(alg, i as nat, body_len as nat);
            }
            let y = ntz_exec(idx);
            let lsy = ls_at(&self.ks, &l, y);
            li = util::xor_vec(li.as_slice(), lsy.as_slice());
            let block = util::sub_vec(self.buf.as_slice(), i, i + bs);
            proof {
                let rest = body.skip(i as int);
                assert(rest.take(bs as int) =~= self.buf@.subrange(i as int, (i + bs) as int));
            }
            let z = util::xor_vec(block.as_slice(), li.as_slice());
            let ez = self.ks.enc_block(z.as_slice());
            csum = util::xor_vec(csum.as_slice(), ez.as_slice());
            proof {
                let rest = body.skip(i as int);
                assert(rest.skip(bs as int) =~= body.skip((i + bs) as int));
                if rest.len() > bs {
                } else {
                    assert(rest.len() == bs);
                    assert(body.skip((i + bs) as int) =~= Seq::<u8>::empty());
                }
                lemma_aligned_add(alg, i as nat);
            }
            idx = idx + 1;
            i = i + bs;
        }
        proof {
            assert(body.skip(body_len as int) =~= Seq::<u8>::empty());
            let acc = pmac_fold(alg, key, zeros(bs as nat), zeros(bs as nat), 1, body);
            assert(acc.1 == csum@);
        }
        let last = util::sub_vec(self.buf.as_slice(), body_len, n);
        proof {
            assert(last@ =~= self.buf@.skip(body_len as int));
        }
        let x: Vec<u8>;
        if full_last {
            proof {
                assert(last@.len() == bs);
            }
            x = util::xor_vec(
                util::xor_vec(csum.as_slice(), last.as_slice()).as_slice(),
                lr.as_slice(),
            );
        } else {
            let mut p = last;
            let ghost p_base = p@.push(0x80u8);
            p.push(0x80);
            proof {
                assert(p@ == p_base);
                assert(p@.len() == (n - body_len) + 1 <= bs);
            }
            while p.len() < bs
                invariant
                    p_base.len() <= bs,
                    p_base.len() <= p@.len() <= bs,
                    p@ =~= p_base + zeros((p@.len() - p_base.len()) as nat),
                decreases bs - p@.len(),
            {
                p.push(0u8);
                proof {
                    assert(p@ =~= p_base + zeros((p@.len() - p_base.len()) as nat));
                }
            }
            proof {
                assert(p@ =~= pad_to(p_base, bs as nat));
                assert(p@ == omac_pad(self.buf@.skip(body_len as int), bs as nat));
            }
            x = util::xor_vec(csum.as_slice(), p.as_slice());
        }
        let tag = self.ks.enc_block(x.as_slice());
        proof {
            assert(tag@ == pmac_tag(alg, key, self.buf@));
        }
        tag
    }
}

/// PMAC: a parallelizable message authentication code built from a block
/// cipher alone.
pub struct Pmac {
    core: CipherMacCore,
}

impl Pmac {
    /// Which cipher algorithm this state authenticates with.
    pub closed spec fn spec_alg(self) -> CipherAlg {
        self.core.alg()
    }

    /// The key this state was built with.
    pub closed spec fn key(self) -> Seq<u8> {
        self.core.key()
    }

    /// The bytes absorbed so far.
    pub closed spec fn absorbed(self) -> Seq<u8> {
        self.core.buf@
    }

    /// Well-formed state.
    pub closed spec fn wf(self) -> bool {
        self.core.wf()
    }

    /// Initialize a new PMAC with an encryption cipher and key, validating
    /// the key length against the cipher's bounds.
    pub fn new(cipher: Cipher, key: &[u8]) -> (r: Result<Pmac, Error>)
        ensures
            r is Ok <==> key_len_ok(cipher.spec_alg(), key@.len()),
            r matches Ok(m) ==> m.wf() && m.spec_alg() == cipher.spec_alg() && m.key() == key@
                && m.absorbed() == Seq::<u8>::empty() && good_cipher(m.spec_alg(), m.key()),
            r matches Err(e) ==> e == Error::InvalidArgument,
    {
        match CipherMacCore::new(cipher, key) {
            Ok(core) => Ok(Pmac { core }),
            Err(e) => Err(e),
        }
    }

    /// The cipher algorithm used by this PMAC.
    pub fn cipher(&self) -> (r: &Cipher)
        requires
            self.wf(),
        ensures
            r.spec_alg() == self.spec_alg(),
    {
        &self.core.cipher
    }

    /// Add data to the message being authenticated.
    pub fn process(&mut self, input: &[u8]) -> (r: Result<(), Error>)
        requires
            old(self).wf(),
        ensures
            r is Ok,
            final(self).wf(),
            final(self).spec_alg() == old(self).spec_alg(),
            final(self).key() == old(self).key(),
            final(self).absorbed() == old(self).absorbed() + input@,
    {
        util::append_vec(&mut self.core.buf, input);
        Ok(())
    }

    /// Finish and return the tag: the PMAC of everything absorbed. The
    /// tag is one cipher block long.
    pub fn done(self) -> (r: Result<Vec<u8>, Error>)
        requires
            self.wf(),
        ensures
            r is Ok,
            r matches Ok(t) ==> t@ == pmac_tag(self.spec_alg(), self.key(), self.absorbed())
                && t@.len() == spec_block_size(self.spec_alg()),
    {
        Ok(self.core.pmac_done())
    }

    /// Compute the tag of everything absorbed followed by `input`.
    pub fn sign(self, input: &[u8]) -> (r: Result<Vec<u8>, Error>)
        requires
            self.wf(),
        ensures
            r is Ok,
            r matches Ok(t) ==> t@ == pmac_tag(
                self.spec_alg(),
                self.key(),
                self.absorbed() + input@,
            ) && t@.len() == spec_block_size(self.spec_alg()),
    {
        let mut s = self;
        match s.process(input) {
            Ok(()) => {}
            Err(e) => {
                return Err(e);
            }
        }
        s.done()
    }

    /// Compute the tag of the message and compare it, in constant time,
    /// with the given signature. A length mismatch is `false`, not an
    /// error.
    pub fn verify(self, input: &[u8], signature: &[u8]) -> (r: Result<bool, Error>)
        requires
            self.wf(),
        ensures
            r is Ok,
            r matches Ok(b) ==> b == (signature@ == pmac_tag(
                self.spec_alg(),
                self.key(),
                self.absorbed() + input@,
            )),
    {
        let tag = match self.sign(input) {
            Ok(t) => t,
            Err(e) => {
                return Err(e);
            }
        };
        Ok(util::compare_slices(tag.as_slice(), signature))
    }
}

/// OMAC (one-key CBC MAC, also called CMAC): a message authentication
/// code built from a block cipher alone.
pub struct Omac {
    core: CipherMacCore,
}

impl Omac {
    /// Which cipher algorithm this state authenticates with.
    pub closed spec fn spec_alg(self) -> CipherAlg {
        self.core.alg()
    }

    /// The key this state was built with.
    pub closed spec fn key(self) -> Seq<u8> {
        self.core.key()
    }

    /// The bytes absorbed so far.
    pub closed spec fn absorbed(self) -> Seq<u8> {
        self.core.buf@
    }

    /// Well-formed state.
    pub closed spec fn wf(self) -> bool {
        self.core.wf()
    }

    /// Initialize a new OMAC with an encryption cipher and key, validating
    /// the key length against the cipher's bounds.
    pub fn new(cipher: Cipher, key: &[u8]) -> (r: Result<Omac, Error>)
        ensures
            r is Ok <==> key_len_ok(cipher.spec_alg(), key@.len()),
            r matches Ok(m) ==> m.wf() && m.spec_alg() == cipher.spec_alg() && m.key() == key@
                && m.absorbed() == Seq::<u8>::empty() && good_cipher(m.spec_alg(), m.key()),
            r matches Err(e) ==> e == Error::InvalidArgument,
    {
        match CipherMacCore::new(cipher, key) {
            Ok(core) => Ok(Omac { core }),
            Err(e) => Err(e),
        }
    }

    /// The cipher algorithm used by this OMAC.
    pub fn cipher(&self) -> (r: &Cipher)
        requires
            self.wf(),
        ensures
            r.spec_alg() == self.spec_alg(),
    {
        &self.core.cipher
    }

    /// Add data to the message being authenticated.
    pub fn process(&mut self, input: &[u8]) -> (r: Result<(), Error>)
        requires
            old(self).wf(),
        ensures
            r is Ok,
            final(self).wf(),
            final(self).spec_alg() == old(self).spec_alg(),
            final(self).key() == old(self).key(),
            final(self).absorbed() == old(self).absorbed() + input@,
    {
        util::append_vec(&mut self.core.buf, input);
        Ok(())
    }

    /// Finish and return the tag: the OMAC of everything absorbed. The
    /// tag is one cipher block long.
    pub fn done(self) -> (r: Result<Vec<u8>, Error>)
        requires
            self.wf(),
        ensures
            r is Ok,
            r matches Ok(t) ==> t@ == omac_tag(self.spec_alg(), self.key(), self.absorbed())
                && t@.len() == spec_block_size(self.spec_alg()),
    {
        Ok(self.core.omac_done())
    }

    /// Compute the tag of everything absorbed followed by `input`.
    pub fn sign(self, input: &[u8]) -> (r: Result<Vec<u8>, Error>)
        requires
            self.wf(),
        ensures
            r is Ok,
            r matches Ok(t) ==> t@ == omac_tag(
                self.spec_alg(),
                self.key(),
                self.absorbed() + input@,
            ) && t@.len() == spec_block_size(self.spec_alg()),
    {
        let mut s = self;
        match s.process(input) {
            Ok(()) => {}
            Err(e) => {
                return Err(e);
            }
        }
        s.done()
    }

    /// Compute the tag of the message and compare it, in constant time,
    /// with the given signature. A length mismatch is `false`, not an
    /// error.
    pub fn verify(self, input: &[u8], signature: &[u8]) -> (r: Result<bool, Error>)
        requires
            self.wf(),
        ensures
            r is Ok,
            r matches Ok(b) ==> b == (signature@ == omac_tag(
                self.spec_alg(),
                self.key(),
                self.absorbed() + input@,
            )),
    {
        let tag = match self.sign(input) {
            Ok(t) => t,
            Err(e) => {
                return Err(e);
            }
        };
        Ok(util::compare_slices(tag.as_slice(), signature))
    }
}

impl Mac for Pmac {
    open spec fn mac_wf(self) -> bool {
        self.wf()
    }

    open spec fn mac_absorbed(self) -> Seq<u8> {
        self.absorbed()
    }

    open spec fn mac_tag(self, m: Seq<u8>) -> Seq<u8> {
        pmac_tag(self.spec_alg(), self.key(), m)
    }

    fn process(&mut self, input: &[u8]) -> (r: Result<(), Error>) {
        Pmac::process(self, input)
    }

    fn done(self) -> (r: Result<Vec<u8>, Error>) {
        Pmac::done(self)
    }

    fn sign(self, input: &[u8]) -> (r: Result<Vec<u8>, Error>) {
        Pmac::sign(self, input)
    }

    fn verify(self, input: &[u8], signature: &[u8]) -> (r: Result<bool, Error>) {
        Pmac::verify(self, input, signature)
    }
}

} // verus!

//! Symmetric block ciphers and the five chaining modes built on them.
//!
//! A `Cipher` is a handle into the static catalog of block-cipher
//! algorithms. The chaining modes (ECB, CBC, CTR, CFB, OFB) are state
//! machines written and verified here; only the raw one-block
//! encrypt/decrypt of the underlying algorithm is trusted, as a keyed
//! permutation supplied by an outside crate.

use vstd::prelude::*;

use crate::error::Error;
use crate::schedule::KeySchedule;
use crate::util;
use crate::util::{xor_bytes, zeros};

verus! {

/// The block-cipher algorithms of the built-in catalog.
#[derive(Clone, Copy, Debug, PartialEq, Eq, Structural)]
pub enum CipherAlg {
    Aes,
    Des,
    Blowfish,
}

/// Block size of an algorithm, in bytes.
pub open spec fn spec_block_size(alg: CipherAlg) -> nat {
    match alg {
        CipherAlg::Aes => 16,
        CipherAlg::Des => 8,
        CipherAlg::Blowfish => 8,
    }
}

/// The key lengths an algorithm accepts.
pub open spec fn key_len_ok(alg: CipherAlg, n: nat) -> bool {
    match alg {
        CipherAlg::Aes => n == 16 || n == 24 || n == 32,
        CipherAlg::Des => n == 8,
        CipherAlg::Blowfish => 8 <= n && n <= 56,
    }
}

/// What one block encrypts to under an algorithm and key. The block
/// permutation itself belongs to the outside crates; it is named here and
/// specified only through `good_cipher`.
pub uninterp spec fn enc_block_of(alg: CipherAlg, key: Seq<u8>, block: Seq<u8>) -> Seq<u8>;

/// What one block decrypts to under an algorithm and key.
pub uninterp spec fn dec_block_of(alg: CipherAlg, key: Seq<u8>, block: Seq<u8>) -> Seq<u8>;

/// The defining property of a block cipher under a fixed key: a length
/// preserving permutation of blocks, with decryption its inverse.
pub open spec fn good_cipher(alg: CipherAlg, key: Seq<u8>) -> bool {
    (forall|b: Seq<u8>|
        b.len() == spec_block_size(alg) ==> (#[trigger] enc_block_of(alg, key, b)).len()
            == spec_block_size(alg) && dec_block_of(alg, key, enc_block_of(alg, key, b)) == b)
        && (forall|b: Seq<u8>|
        b.len() == spec_block_size(alg) ==> (#[trigger] dec_block_of(alg, key, b)).len()
            == spec_block_size(alg) && enc_block_of(alg, key, dec_block_of(alg, key, b)) == b)
}

/// Name of an algorithm in the catalog.
pub open spec fn spec_cipher_name(alg: CipherAlg) -> Seq<char> {
    match alg {
        CipherAlg::Aes => "aes"@,
        CipherAlg::Des => "des"@,
        CipherAlg::Blowfish => "blowfish"@,
    }
}

/// A symmetric encryption cipher: a handle into the built-in catalog.
#[derive(Clone, Copy, Debug, PartialEq, Eq, Structural)]
pub struct Cipher {
    alg: CipherAlg,
}

impl Cipher {
    /// The algorithm this handle refers to.
    pub closed spec fn spec_alg(self) -> CipherAlg {
        self.alg
    }

    /// Find a cipher algorithm by name. An unknown name is a normal empty
    /// result, not an error.
    pub fn find(name: &str) -> (r: Option<Cipher>)
        ensures
            match r {
                Some(c) => name@ == spec_cipher_name(c.spec_alg()),
                None => forall|alg: CipherAlg| name@ != spec_cipher_name(alg),
            },
    {
        if util::str_eq(name, "aes") {
            Some(Cipher { alg: CipherAlg::Aes })
        } else if util::str_eq(name, "des") {
            Some(Cipher { alg: CipherAlg::Des })
        } else if util::str_eq(name, "blowfish") {
            Some(Cipher { alg: CipherAlg::Blowfish })
        } else {
            proof {
                assert forall|alg: CipherAlg| name@ != spec_cipher_name(alg) by {
                    match alg {
                        CipherAlg::Aes => {}
                        CipherAlg::Des => {}
                        CipherAlg::Blowfish => {}
                    }
                }
            }
            None
        }
    }

    /// The algorithm, as an exec value.
    pub(crate) fn alg_value(&self) -> (r: CipherAlg)
        ensures
            r == self.spec_alg(),
    {
        self.alg
    }

    /// The AES cipher algorithm, also known as Rijndael.
    pub fn aes() -> (r: Cipher)
        ensures
            r.spec_alg() == CipherAlg::Aes,
    {
        Cipher { alg: CipherAlg::Aes }
    }

    /// The name of this cipher.
    pub fn name(&self) -> (r: &'static str)
        ensures
            r@ == spec_cipher_name(self.spec_alg()),
    {
        match self.alg {
            CipherAlg::Aes => "aes",
            CipherAlg::Des => "des",
            CipherAlg::Blowfish => "blowfish",
        }
    }

    /// The default number of rounds of this cipher.
    pub fn default_rounds(&self) -> (r: u32)
        ensures
            r == spec_default_rounds(self.spec_alg()),
    {
        match self.alg {
            CipherAlg::Aes => 10,
            CipherAlg::Des => 16,
            CipherAlg::Blowfish => 16,
        }
    }

    /// The minimum allowed key size of this cipher, in bytes.
    pub fn min_key_length(&self) -> (r: usize)
        ensures
            r == spec_min_key_length(self.spec_alg()),
    {
        match self.alg {
            CipherAlg::Aes => 16,
            CipherAlg::Des => 8,
            CipherAlg::Blowfish => 8,
        }
    }

    /// The maximum allowed key size of this cipher, in bytes.
    pub fn max_key_length(&self) -> (r: usize)
        ensures
            r == spec_max_key_length(self.spec_alg()),
    {
        match self.alg {
            CipherAlg::Aes => 32,
            CipherAlg::Des => 8,
            CipherAlg::Blowfish => 56,
        }
    }

    /// The block size of this cipher, in bytes.
    pub fn block_size(&self) -> (r: usize)
        ensures
            r == spec_block_size(self.spec_alg()),
            r == 8 || r == 16,
    {
        match self.alg {
            CipherAlg::Aes => 16,
            CipherAlg::Des => 8,
            CipherAlg::Blowfish => 8,
        }
    }
}

/// Default rounds of an algorithm.
pub open spec fn spec_default_rounds(alg: CipherAlg) -> u32 {
    match alg {
        CipherAlg::Aes => 10,
        CipherAlg::Des => 16,
        CipherAlg::Blowfish => 16,
    }
}

/// Smallest accepted key length of an algorithm, in bytes.
pub open spec fn spec_min_key_length(alg: CipherAlg) -> nat {
    match alg {
        CipherAlg::Aes => 16,
        CipherAlg::Des => 8,
        CipherAlg::Blowfish => 8,
    }
}

/// Largest accepted key length of an algorithm, in bytes.
pub open spec fn spec_max_key_length(alg: CipherAlg) -> nat {
    match alg {
        CipherAlg::Aes => 32,
        CipherAlg::Des => 8,
        CipherAlg::Blowfish => 56,
    }
}

/// Whether a `rounds` argument is accepted: callers may leave the round
/// count unset, pass zero, or pass the algorithm's own default.
pub open spec fn rounds_ok(alg: CipherAlg, rounds: Option<u32>) -> bool {
    match rounds {
        None => true,
        Some(r) => r == 0 || r == spec_default_rounds(alg),
    }
}

fn check_rounds(cipher: Cipher, rounds: Option<u32>) -> (r: bool)
    ensures
        r == rounds_ok(cipher.spec_alg(), rounds),
{
    match rounds {
        None => true,
        Some(r) => r == 0 || r == cipher.default_rounds(),
    }
}

/// Whether a length is a whole number of blocks.
pub open spec fn block_aligned(alg: CipherAlg, n: nat) -> bool {
    n % spec_block_size(alg) == 0
}

/// A nonzero whole-block length is at least one block.
pub(crate) proof fn lemma_aligned_ge(alg: CipherAlg, n: nat)
    requires
        block_aligned(alg, n),
        0 < n,
    ensures
        n >= spec_block_size(alg),
{
    if n < spec_block_size(alg) {
        vstd::arithmetic::div_mod::lemma_small_mod(n, spec_block_size(alg));
    }
}

/// Trimming a length to its whole blocks leaves a whole-block length.
pub(crate) proof fn lemma_trim_aligned(alg: CipherAlg, n: nat)
    ensures
        block_aligned(alg, (n - (n % spec_block_size(alg))) as nat),
        n - (n % spec_block_size(alg)) >= 0,
{
    let bs = spec_block_size(alg);
    let r = n % bs;
    vstd::arithmetic::div_mod::lemma_fundamental_div_mod(n as int, bs as int);
    let q = (n as int) / (bs as int);
    vstd::arithmetic::div_mod::lemma_mod_multiples_vanish(q, 0int, bs as int);
    assert((bs * q + 0int) % (bs as int) == 0int % (bs as int));
    assert(n - r == bs * q);
}

proof fn lemma_aligned_block(alg: CipherAlg, n: nat)
    requires
        block_aligned(alg, n),
        0 < n,
        n <= spec_block_size(alg),
    ensures
        n == spec_block_size(alg),
{
    if n < spec_block_size(alg) {
        vstd::arithmetic::div_mod::lemma_small_mod(n, spec_block_size(alg));
    }
}

pub(crate) proof fn lemma_aligned_skip(alg: CipherAlg, n: nat)
    requires
        block_aligned(alg, n),
        n >= spec_block_size(alg),
    ensures
        block_aligned(alg, (n - spec_block_size(alg)) as nat),
{
    let bs = spec_block_size(alg) as int;
    vstd::arithmetic::div_mod::lemma_mod_multiples_vanish(-1, n as int, bs);
    assert(bs * (-1) + n as int == n - bs);
}

pub(crate) proof fn lemma_aligned_add(alg: CipherAlg, i: nat)
    requires
        block_aligned(alg, i),
    ensures
        block_aligned(alg, (i + spec_block_size(alg)) as nat),
{
    let bs = spec_block_size(alg) as int;
    vstd::arithmetic::div_mod::lemma_mod_multiples_vanish(1, i as int, bs);
    assert(bs * 1 + i as int == i + bs);
}

pub(crate) proof fn lemma_aligned_range(alg: CipherAlg, i: nat, n: nat)
    requires
        block_aligned(alg, i),
        block_aligned(alg, n),
        i < n,
    ensures
        n - i >= spec_block_size(alg),
        block_aligned(alg, (n - i) as nat),
{
    let bs = spec_block_size(alg) as int;
    vstd::arithmetic::div_mod::lemma_fundamental_div_mod(i as int, bs);
    let k = (i as int) / bs;
    vstd::arithmetic::div_mod::lemma_mod_multiples_vanish(-k, n as int, bs);
    assert(bs * (-k) + n as int == n - i);
    if n - i < bs {
        vstd::arithmetic::div_mod::lemma_small_mod((n - i) as nat, bs as nat);
    }
}

/// ECB of a whole-block message: each block through the cipher on its own.
pub open spec fn ecb_enc_spec(alg: CipherAlg, key: Seq<u8>, p: Seq<u8>) -> Seq<u8>
    decreases p.len(),
{
    let bs = spec_block_size(alg) as int;
    if p.len() == 0 {
        Seq::empty()
    } else if p.len() <= bs {
        enc_block_of(alg, key, p.take(bs))
    } else {
        enc_block_of(alg, key, p.take(bs)) + ecb_enc_spec(alg, key, p.skip(bs))
    }
}

/// Inverse of `ecb_enc_spec`, block by block.
pub open spec fn ecb_dec_spec(alg: CipherAlg, key: Seq<u8>, c: Seq<u8>) -> Seq<u8>
    decreases c.len(),
{
    let bs = spec_block_size(alg) as int;
    if c.len() == 0 {
        Seq::empty()
    } else if c.len() <= bs {
        dec_block_of(alg, key, c.take(bs))
    } else {
        dec_block_of(alg, key, c.take(bs)) + ecb_dec_spec(alg, key, c.skip(bs))
    }
}

/// ECB keeps the length of whole-block messages.
pub proof fn lemma_ecb_enc_len(alg: CipherAlg, key: Seq<u8>, p: Seq<u8>)
    requires
        good_cipher(alg, key),
        block_aligned(alg, p.len()),
    ensures
        ecb_enc_spec(alg, key, p).len() == p.len(),
    decreases p.len(),
{
    let bs = spec_block_size(alg) as int;
    if p.len() == 0 {
    } else if p.len() <= bs {
        lemma_aligned_block(alg, p.len());
        assert(p.len() == bs);
        assert(p.take(bs) =~= p);
    } else {
        assert(p.skip(bs).len() == p.len() - bs);
        lemma_aligned_skip(alg, p.len());
        assert(block_aligned(alg, p.skip(bs).len()));
        lemma_ecb_enc_len(alg, key, p.skip(bs));
        assert(p.take(bs).len() == bs);
    }
}

/// Law: for any key the cipher accepts and any whole-block message,
/// ECB decryption undoes ECB encryption.
pub proof fn lemma_ecb_round_trip(alg: CipherAlg, key: Seq<u8>, p: Seq<u8>)
    requires
        good_cipher(alg, key),
        block_aligned(alg, p.len()),
    ensures
        ecb_dec_spec(alg, key, ecb_enc_spec(alg, key, p)) == p,
    decreases p.len(),
{
    let bs = spec_block_size(alg) as int;
    let c = ecb_enc_spec(alg, key, p);
    if p.len() == 0 {
        assert(c =~= Seq::<u8>::empty());
    } else if p.len() <= bs {
        lemma_aligned_block(alg, p.len());
        assert(p.len() == bs);
        assert(p.take(bs) =~= p);
        assert(c == enc_block_of(alg, key, p));
        assert(c.len() == bs);
        assert(c.take(bs) =~= c);
        assert(ecb_dec_spec(alg, key, c) == dec_block_of(alg, key, c));
        assert(dec_block_of(alg, key, enc_block_of(alg, key, p)) == p);
    } else {
        let head = p.take(bs);
        let tail = p.skip(bs);
        assert(head.len() == bs);
        assert(tail.len() == p.len() - bs);
        lemma_aligned_skip(alg, p.len());
        assert(block_aligned(alg, tail.len()));
        let c0 = enc_block_of(alg, key, head);
        assert(c0.len() == bs);
        let crest = ecb_enc_spec(alg, key, tail);
        lemma_ecb_enc_len(alg, key, tail);
        assert(c == c0 + crest);
        assert(c.len() == bs + tail.len());
        assert(c.take(bs) =~= c0);
        assert(c.skip(bs) =~= crest);
        assert(c.len() > bs);
        lemma_ecb_round_trip(alg, key, tail);
        assert(ecb_dec_spec(alg, key, c) == dec_block_of(alg, key, c0) + ecb_dec_spec(
            alg,
            key,
            crest,
        ));
        assert(dec_block_of(alg, key, c0) == head);
        assert(head + tail =~= p);
    }
}

/// CBC encryption: each plaintext block is masked with the previous
/// ciphertext block (the IV at the start) before the cipher.
pub open spec fn cbc_enc_spec(alg: CipherAlg, key: Seq<u8>, iv: Seq<u8>, p: Seq<u8>) -> Seq<u8>
    decreases p.len(),
{
    let bs = spec_block_size(alg) as int;
    if p.len() == 0 {
        Seq::empty()
    } else if p.len() <= bs {
        enc_block_of(alg, key, xor_bytes(p.take(bs), iv))
    } else {
        let c0 = enc_block_of(alg, key, xor_bytes(p.take(bs), iv));
        c0 + cbc_enc_spec(alg, key, c0, p.skip(bs))
    }
}

/// CBC decryption, the algebraic inverse of `cbc_enc_spec`.
pub open spec fn cbc_dec_spec(alg: CipherAlg, key: Seq<u8>, iv: Seq<u8>, c: Seq<u8>) -> Seq<u8>
    decreases c.len(),
{
    let bs = spec_block_size(alg) as int;
    if c.len() == 0 {
        Seq::empty()
    } else if c.len() <= bs {
        xor_bytes(dec_block_of(alg, key, c.take(bs)), iv)
    } else {
        xor_bytes(dec_block_of(alg, key, c.take(bs)), iv) + cbc_dec_spec(
            alg,
            key,
            c.take(bs),
            c.skip(bs),
        )
    }
}

/// The chaining value left behind after a CBC pass over `c` (the last
/// block of `c`, or the old chaining value for an empty pass).
pub open spec fn cbc_next_iv(alg: CipherAlg, iv: Seq<u8>, c: Seq<u8>) -> Seq<u8> {
    let bs = spec_block_size(alg) as int;
    if c.len() == 0 {
        iv
    } else {
        c.skip(c.len() - bs)
    }
}

/// CBC keeps the length of whole-block messages.
pub proof fn lemma_cbc_enc_len(alg: CipherAlg, key: Seq<u8>, iv: Seq<u8>, p: Seq<u8>)
    requires
        good_cipher(alg, key),
        iv.len() == spec_block_size(alg),
        block_aligned(alg, p.len()),
    ensures
        cbc_enc_spec(alg, key, iv, p).len() == p.len(),
    decreases p.len(),
{
    let bs = spec_block_size(alg) as int;
    if p.len() == 0 {
    } else if p.len() <= bs {
        lemma_aligned_block(alg, p.len());
        assert(p.len() == bs);
        assert(xor_bytes(p.take(bs), iv).len() == bs);
    } else {
        assert(p.skip(bs).len() == p.len() - bs);
        lemma_aligned_skip(alg, p.len());
        assert(block_aligned(alg, p.skip(bs).len()));
        let c0 = enc_block_of(alg, key, xor_bytes(p.take(bs), iv));
        assert(xor_bytes(p.take(bs), iv).len() == bs);
        assert(c0.len() == bs);
        lemma_cbc_enc_len(alg, key, c0, p.skip(bs));
    }
}

/// Law: for any key the cipher accepts, any block-sized IV and any
/// whole-block message, CBC decryption undoes CBC encryption.
pub proof fn lemma_cbc_round_trip(alg: CipherAlg, key: Seq<u8>, iv: Seq<u8>, p: Seq<u8>)
    requires
        good_cipher(alg, key),
        iv.len() == spec_block_size(alg),
        block_aligned(alg, p.len()),
    ensures
        cbc_dec_spec(alg, key, iv, cbc_enc_spec(alg, key, iv, p)) == p,
    decreases p.len(),
{
    let bs = spec_block_size(alg) as int;
    let c = cbc_enc_spec(alg, key, iv, p);
    if p.len() == 0 {
        assert(c =~= Seq::<u8>::empty());
    } else if p.len() <= bs {
        lemma_aligned_block(alg, p.len());
        assert(p.len() == bs);
        let x = xor_bytes(p.take(bs), iv);
        assert(x.len() == bs);
        assert(c == enc_block_of(alg, key, x));
        assert(c.len() == bs);
        assert(c.take(bs) =~= c);
        assert(dec_block_of(alg, key, c) == x);
        crate::util::lemma_xor_bytes_cancel(p.take(bs), iv);
        assert(p.take(bs) =~= p);
    } else {
        let head = p.take(bs);
        let tail = p.skip(bs);
        assert(tail.len() == p.len() - bs);
        lemma_aligned_skip(alg, p.len());
        assert(block_aligned(alg, tail.len()));
        let x = xor_bytes(head, iv);
        assert(x.len() == bs);
        let c0 = enc_block_of(alg, key, x);
        assert(c0.len() == bs);
        let crest = cbc_enc_spec(alg, key, c0, tail);
        lemma_cbc_enc_len(alg, key, c0, tail);
        assert(c == c0 + crest);
        assert(c.take(bs) =~= c0);
        assert(c.skip(bs) =~= crest);
        assert(c.len() > bs);
        assert(dec_block_of(alg, key, c0) == x);
        crate::util::lemma_xor_bytes_cancel(head, iv);
        lemma_cbc_round_trip(alg, key, c0, tail);
        assert(cbc_dec_spec(alg, key, iv, c) == xor_bytes(dec_block_of(alg, key, c0), iv)
            + cbc_dec_spec(alg, key, c0, crest));
        assert(head + tail =~= p);
    }
}

/// ECB mode: blockwise encryption with no chaining. Input must be a whole
/// number of blocks; no implicit padding is applied.
pub struct Ecb {
    ks: KeySchedule,
}

impl Ecb {
    /// The algorithm of the underlying cipher.
    pub closed spec fn alg(self) -> CipherAlg {
        self.ks.alg()
    }

    /// The key this mode state was built with.
    pub closed spec fn key(self) -> Seq<u8> {
        self.ks.key()
    }

    /// Well-formed mode state.
    pub closed spec fn wf(self) -> bool {
        self.ks.wf()
    }

    /// Build an ECB state, validating the key length against the cipher's
    /// bounds. A bad key length or round count is an `InvalidArgument`
    /// failure, never a panic.
    pub fn new(cipher: Cipher, key: &[u8], rounds: Option<u32>) -> (r: Result<Ecb, Error>)
        ensures
            r is Ok <==> key_len_ok(cipher.spec_alg(), key@.len()) && rounds_ok(
                cipher.spec_alg(),
                rounds,
            ),
            r matches Ok(m) ==> m.wf() && m.alg() == cipher.spec_alg() && m.key() == key@
                && good_cipher(m.alg(), m.key()),
            r matches Err(e) ==> e == Error::InvalidArgument,
    {
        if !check_rounds(cipher, rounds) {
            return Err(Error::InvalidArgument);
        }
        match KeySchedule::new(cipher.alg, key) {
            Ok(ks) => Ok(Ecb { ks }),
            Err(_) => Err(Error::InvalidArgument),
        }
    }

    /// Encrypt a whole-block plaintext, returning the ciphertext.
    pub fn encrypt(&mut self, plaintext: &[u8]) -> (r: Result<Vec<u8>, Error>)
        requires
            old(self).wf(),
        ensures
            *final(self) == *old(self),
            r is Ok <==> block_aligned(old(self).alg(), plaintext@.len()),
            r matches Ok(c) ==> c@ == ecb_enc_spec(old(self).alg(), old(self).key(), plaintext@)
                && c@.len() == plaintext@.len(),
            r matches Err(e) ==> e == Error::InvalidArgument,
    {
        let bs = block_size_of(&self.ks);
        let n = plaintext.len();
        if n % bs != 0 {
            return Err(Error::InvalidArgument);
        }
        let ghost alg = self.alg();
        let ghost key = self.key();
        let mut out: Vec<u8> = Vec::new();
        let mut i: usize = 0;
        proof {
            assert(plaintext@.skip(0) =~= plaintext@);
        }
        while i < n
            invariant
                self.wf(),
                self.alg() == alg,
                self.key() == key,
                bs == spec_block_size(alg),
                n == plaintext@.len(),
                i <= n,
                block_aligned(alg, i as nat),
                block_aligned(alg, n as nat),
                out@.len() == i,
                ecb_enc_spec(alg, key, plaintext@) =~= out@ + ecb_enc_spec(
                    alg,
                    key,
                    plaintext@.skip(i as int),
                ),
            decreases n - i,
        {
            proof {
                lemma_aligned_range(alg, i as nat, n as nat);
                assert(n - i >= bs);
            }
            let block = util::sub_vec(plaintext, i, i + bs);
            let eb = self.ks.enc_block(block.as_slice());
            util::append_vec(&mut out, eb.as_slice());
            proof {
                let rest = plaintext@.skip(i as int);
                assert(rest.take(bs as int) =~= plaintext@.subrange(i as int, (i + bs) as int));
                assert(rest.skip(bs as int) =~= plaintext@.skip((i + bs) as int));
                if rest.len() > bs {
                    assert(ecb_enc_spec(alg, key, rest) == enc_block_of(alg, key, rest.take(bs as int))
                        + ecb_enc_spec(alg, key, rest.skip(bs as int)));
                } else {
                    assert(rest.len() == bs);
                    assert(ecb_enc_spec(alg, key, rest) == enc_block_of(alg, key, rest.take(bs as int)));
                    assert(ecb_enc_spec(alg, key, rest.skip(bs as int)) =~= Seq::<u8>::empty());
                }
                lemma_aligned_add(alg, i as nat);
            }
            i = i + bs;
        }
        proof {
            assert(plaintext@.skip(n as int) =~= Seq::<u8>::empty());
            assert(out@ =~= ecb_enc_spec(alg, key, plaintext@));
        }
        Ok(out)
    }

    /// Decrypt a whole-block ciphertext, returning the plaintext.
    pub fn decrypt(&mut self, ciphertext: &[u8]) -> (r: Result<Vec<u8>, Error>)
        requires
            old(self).wf(),
        ensures
            *final(self) == *old(self),
            r is Ok <==> block_aligned(old(self).alg(), ciphertext@.len()),
            r matches Ok(p) ==> p@ == ecb_dec_spec(old(self).alg(), old(self).key(), ciphertext@)
                && p@.len() == ciphertext@.len(),
            r matches Err(e) ==> e == Error::InvalidArgument,
    {
        let bs = block_size_of(&self.ks);
        let n = ciphertext.len();
        if n % bs != 0 {
            return Err(Error::InvalidArgument);
        }
        let ghost alg = self.alg();
        let ghost key = self.key();
        let mut out: Vec<u8> = Vec::new();
        let mut i: usize = 0;
        proof {
            assert(ciphertext@.skip(0) =~= ciphertext@);
        }
        while i < n
            invariant
                self.wf(),
                self.alg() == alg,
                self.key() == key,
                bs == spec_block_size(alg),
                n == ciphertext@.len(),
                i <= n,
                block_aligned(alg, i as nat),
                block_aligned(alg, n as nat),
                out@.len() == i,
                ecb_dec_spec(alg, key, ciphertext@) =~= out@ + ecb_dec_spec(
                    alg,
                    key,
                    ciphertext@.skip(i as int),
                ),
            decreases n - i,
        {
            proof {
                lemma_aligned_range(alg, i as nat, n as nat);
                assert(n - i >= bs);
            }
            let block = util::sub_vec(ciphertext, i, i + bs);
            let db = self.ks.dec_block(block.as_slice());
            util::append_vec(&mut out, db.as_slice());
            proof {
                let rest = ciphertext@.skip(i as int);
                assert(rest.take(bs as int) =~= ciphertext@.subrange(i as int, (i + bs) as int));
                assert(rest.skip(bs as int) =~= ciphertext@.skip((i + bs) as int));
                if rest.len() > bs {
                    assert(ecb_dec_spec(alg, key, rest) == dec_block_of(alg, key, rest.take(bs as int))
                        + ecb_dec_spec(alg, key, rest.skip(bs as int)));
                } else {
                    assert(rest.len() == bs);
                    assert(ecb_dec_spec(alg, key, rest) == dec_block_of(alg, key, rest.take(bs as int)));
                    assert(ecb_dec_spec(alg, key, rest.skip(bs as int)) =~= Seq::<u8>::empty());
                }
                lemma_aligned_add(alg, i as nat);
            }
            i = i + bs;
        }
        proof {
            assert(ciphertext@.skip(n as int) =~= Seq::<u8>::empty());
            assert(out@ =~= ecb_dec_spec(alg, key, ciphertext@));
        }
        Ok(out)
    }

    /// Encrypt a whole-block buffer in place.
    pub fn encrypt_in_place(&mut self, buffer: &mut Vec<u8>) -> (r: Result<(), Error>)
        requires
            old(self).wf(),
        ensures
            *final(self) == *old(self),
            r is Ok <==> block_aligned(old(self).alg(), old(buffer)@.len()),
            r is Ok ==> final(buffer)@ == ecb_enc_spec(
                old(self).alg(),
                old(self).key(),
                old(buffer)@,
            ),
            r is Err ==> final(buffer)@ == old(buffer)@,
            r matches Err(e) ==> e == Error::InvalidArgument,
    {
        match self.encrypt(buffer.as_slice()) {
            Ok(c) => {
                *buffer = c;
                Ok(())
            }
            Err(e) => Err(e),
        }
    }

    /// Decrypt a whole-block buffer in place.
    pub fn decrypt_in_place(&mut self, buffer: &mut Vec<u8>) -> (r: Result<(), Error>)
        requires
            old(self).wf(),
        ensures
            *final(self) == *old(self),
            r is Ok <==> block_aligned(old(self).alg(), old(buffer)@.len()),
            r is Ok ==> final(buffer)@ == ecb_dec_spec(
                old(self).alg(),
                old(self).key(),
                old(buffer)@,
            ),
            r is Err ==> final(buffer)@ == old(buffer)@,
            r matches Err(e) ==> e == Error::InvalidArgument,
    {
        match self.decrypt(buffer.as_slice()) {
            Ok(p) => {
                *buffer = p;
                Ok(())
            }
            Err(e) => Err(e),
        }
    }
}

/// CBC mode: each block is masked with the previous ciphertext block
/// before encryption, the IV standing in for a block before the first.
/// The chaining value carries across calls; block-aligned input only.
pub struct Cbc {
    ks: KeySchedule,
    iv: Vec<u8>,
}

impl Cbc {
    /// The algorithm of the underlying cipher.
    pub closed spec fn alg(self) -> CipherAlg {
        self.ks.alg()
    }

    /// The key this mode state was built with.
    pub closed spec fn key(self) -> Seq<u8> {
        self.ks.key()
    }

    /// The current chaining value.
    pub closed spec fn iv(self) -> Seq<u8> {
        self.iv@
    }

    /// Well-formed mode state.
    pub closed spec fn wf(self) -> bool {
        self.ks.wf() && self.iv@.len() == spec_block_size(self.ks.alg())
    }

    /// Build a CBC state, validating the key length against the cipher's
    /// bounds and the IV length against its block size.
    pub fn new(cipher: Cipher, iv: &[u8], key: &[u8], rounds: Option<u32>) -> (r: Result<
        Cbc,
        Error,
    >)
        ensures
            r is Ok <==> key_len_ok(cipher.spec_alg(), key@.len()) && rounds_ok(
                cipher.spec_alg(),
                rounds,
            ) && iv@.len() == spec_block_size(cipher.spec_alg()),
            r matches Ok(m) ==> m.wf() && m.alg() == cipher.spec_alg() && m.key() == key@ && m.iv()
                == iv@ && good_cipher(m.alg(), m.key()),
            r matches Err(e) ==> e == Error::InvalidArgument,
    {
        if iv.len() != cipher.block_size() {
            return Err(Error::InvalidArgument);
        }
        if !check_rounds(cipher, rounds) {
            return Err(Error::InvalidArgument);
        }
        match KeySchedule::new(cipher.alg, key) {
            Ok(ks) => Ok(Cbc { ks, iv: vstd::slice::slice_to_vec(iv) }),
            Err(_) => Err(Error::InvalidArgument),
        }
    }

    /// Encrypt a whole-block plaintext; the chaining value moves to the
    /// last ciphertext block.
    pub fn encrypt(&mut self, plaintext: &[u8]) -> (r: Result<Vec<u8>, Error>)
        requires
            old(self).wf(),
        ensures
            final(self).wf(),
            final(self).alg() == old(self).alg(),
            final(self).key() == old(self).key(),
            r is Ok <==> block_aligned(old(self).alg(), plaintext@.len()),
            r matches Ok(c) ==> c@ == cbc_enc_spec(
                old(self).alg(),
                old(self).key(),
                old(self).iv(),
                plaintext@,
            ) && c@.len() == plaintext@.len() && final(self).iv() == cbc_next_iv(
                old(self).alg(),
                old(self).iv(),
                c@,
            ),
            r is Err ==> *final(self) == *old(self),
            r matches Err(e) ==> e == Error::InvalidArgument,
    {
        let bs = block_size_of(&self.ks);
        let n = plaintext.len();
        if n % bs != 0 {
            return Err(Error::InvalidArgument);
        }
        let ghost alg = self.alg();
        let ghost key = self.key();
        let ghost iv0 = self.iv();
        let mut cur_iv = self.iv.clone();
        proof {
            assert(cur_iv@ =~= iv0);
            assert(plaintext@.skip(0) =~= plaintext@);
        }
        let mut out: Vec<u8> = Vec::new();
        let mut i: usize = 0;
        while i < n
            invariant
                self.wf(),
                self.alg() == alg,
                self.key() == key,
                bs == spec_block_size(alg),
                n == plaintext@.len(),
                i <= n,
                block_aligned(alg, i as nat),
                block_aligned(alg, n as nat),
                good_cipher(alg, key),
                out@.len() == i,
                cur_iv@.len() == bs,
                cur_iv@ == cbc_next_iv(alg, iv0, out@),
                cbc_enc_spec(alg, key, iv0, plaintext@) =~= out@ + cbc_enc_spec(
                    alg,
                    key,
                    cur_iv@,
                    plaintext@.skip(i as int),
                ),
            decreases n - i,
        {
            proof {
                lemma_aligned_range(alg, i as nat, n as nat);
                assert(n - i >= bs);
            }
            let block = util::sub_vec(plaintext, i, i + bs);
            let x = util::xor_vec(block.as_slice(), cur_iv.as_slice());
            let c0 = self.ks.enc_block(x.as_slice());
            util::append_vec(&mut out, c0.as_slice());
            proof {
                let rest = plaintext@.skip(i as int);
                assert(rest.take(bs as int) =~= plaintext@.subrange(i as int, (i + bs) as int));
                assert(rest.skip(bs as int) =~= plaintext@.skip((i + bs) as int));
                assert(c0@ == enc_block_of(alg, key, xor_bytes(rest.take(bs as int), cur_iv@)));
                if rest.len() > bs {
                    assert(cbc_enc_spec(alg, key, cur_iv@, rest) == c0@ + cbc_enc_spec(
                        alg,
                        key,
                        c0@,
                        rest.skip(bs as int),
                    ));
                } else {
                    assert(rest.len() == bs);
                    assert(cbc_enc_spec(alg, key, cur_iv@, rest) == c0@);
                    assert(cbc_enc_spec(alg, key, c0@, rest.skip(bs as int)) =~= Seq::<
                        u8,
                    >::empty());
                }
                lemma_aligned_add(alg, i as nat);
                assert(out@.skip(out@.len() - bs as int) =~= c0@);
            }
            cur_iv = c0;
            i = i + bs;
        }
        proof {
            assert(plaintext@.skip(n as int) =~= Seq::<u8>::empty());
            assert(out@ =~= cbc_enc_spec(alg, key, iv0, plaintext@));
        }
        self.iv = cur_iv;
        Ok(out)
    }

    /// Decrypt a whole-block ciphertext; the chaining value moves to the
    /// last input block.
    pub fn decrypt(&mut self, ciphertext: &[u8]) -> (r: Result<Vec<u8>, Error>)
        requires
            old(self).wf(),
        ensures
            final(self).wf(),
            final(self).alg() == old(self).alg(),
            final(self).key() == old(self).key(),
            r is Ok <==> block_aligned(old(self).alg(), ciphertext@.len()),
            r matches Ok(p) ==> p@ == cbc_dec_spec(
                old(self).alg(),
                old(self).key(),
                old(self).iv(),
                ciphertext@,
            ) && p@.len() == ciphertext@.len() && final(self).iv() == cbc_next_iv(
                old(self).alg(),
                old(self).iv(),
                ciphertext@,
            ),
            r is Err ==> *final(self) == *old(self),
            r matches Err(e) ==> e == Error::InvalidArgument,
    {
        let bs = block_size_of(&self.ks);
        let n = ciphertext.len();
        if n % bs != 0 {
            return Err(Error::InvalidArgument);
        }
        let ghost alg = self.alg();
        let ghost key = self.key();
        let ghost iv0 = self.iv();
        let mut cur_iv = self.iv.clone();
        proof {
            assert(cur_iv@ =~= iv0);
            assert(ciphertext@.skip(0) =~= ciphertext@);
            assert(ciphertext@.take(0) =~= Seq::<u8>::empty());
        }
        let mut out: Vec<u8> = Vec::new();
        let mut i: usize = 0;
        while i < n
            invariant
                self.wf(),
                self.alg() == alg,
                self.key() == key,
                bs == spec_block_size(alg),
                n == ciphertext@.len(),
                i <= n,
                block_aligned(alg, i as nat),
                block_aligned(alg, n as nat),
                good_cipher(alg, key),
                out@.len() == i,
                cur_iv@.len() == bs,
                cur_iv@ == cbc_next_iv(alg, iv0, ciphertext@.take(i as int)),
                cbc_dec_spec(alg, key, iv0, ciphertext@) =~= out@ + cbc_dec_spec(
                    alg,
                    key,
                    cur_iv@,
                    ciphertext@.skip(i as int),
                ),
            decreases n - i,
        {
            proof {
                lemma_aligned_range(alg, i as nat, n as nat);
                assert(n - i >= bs);
            }
            let block = util::sub_vec(ciphertext, i, i + bs);
            let d = self.ks.dec_block(block.as_slice());
            let p0 = util::xor_vec(d.as_slice(), cur_iv.as_slice());
            util::append_vec(&mut out, p0.as_slice());
            proof {
                let rest = ciphertext@.skip(i as int);
                assert(rest.take(bs as int) =~= ciphertext@.subrange(i as int, (i + bs) as int));
                assert(rest.skip(bs as int) =~= ciphertext@.skip((i + bs) as int));
                assert(p0@ == xor_bytes(dec_block_of(alg, key, rest.take(bs as int)), cur_iv@));
                if rest.len() > bs {
                    assert(cbc_dec_spec(alg, key, cur_iv@, rest) == p0@ + cbc_dec_spec(
                        alg,
                        key,
                        rest.take(bs as int),
                        rest.skip(bs as int),
                    ));
                } else {
                    assert(rest.len() == bs);
                    assert(cbc_dec_spec(alg, key, cur_iv@, rest) == p0@);
                    assert(cbc_dec_spec(alg, key, block@, rest.skip(bs as int)) =~= Seq::<
                        u8,
                    >::empty());
                }
                lemma_aligned_add(alg, i as nat);
                assert(ciphertext@.take((i + bs) as int).skip(
                    ciphertext@.take((i + bs) as int).len() - bs as int,
                ) =~= block@);
            }
            cur_iv = block;
            i = i + bs;
        }
        proof {
            assert(ciphertext@.skip(n as int) =~= Seq::<u8>::empty());
            assert(ciphertext@.take(n as int) =~= ciphertext@);
            assert(out@ =~= cbc_dec_spec(alg, key, iv0, ciphertext@));
        }
        self.iv = cur_iv;
        Ok(out)
    }

    /// Encrypt a whole-block buffer in place.
    pub fn encrypt_in_place(&mut self, buffer: &mut Vec<u8>) -> (r: Result<(), Error>)
        requires
            old(self).wf(),
        ensures
            final(self).wf(),
            final(self).alg() == old(self).alg(),
            final(self).key() == old(self).key(),
            r is Ok <==> block_aligned(old(self).alg(), old(buffer)@.len()),
            r is Ok ==> final(buffer)@ == cbc_enc_spec(
                old(self).alg(),
                old(self).key(),
                old(self).iv(),
                old(buffer)@,
            ) && final(self).iv() == cbc_next_iv(old(self).alg(), old(self).iv(), final(buffer)@),
            r is Err ==> final(buffer)@ == old(buffer)@ && *final(self) == *old(self),
            r matches Err(e) ==> e == Error::InvalidArgument,
    {
        match self.encrypt(buffer.as_slice()) {
            Ok(c) => {
                *buffer = c;
                Ok(())
            }
            Err(e) => Err(e),
        }
    }

    /// Decrypt a whole-block buffer in place.
    pub fn decrypt_in_place(&mut self, buffer: &mut Vec<u8>) -> (r: Result<(), Error>)
        requires
            old(self).wf(),
        ensures
            final(self).wf(),
            final(self).alg() == old(self).alg(),
            final(self).key() == old(self).key(),
            r is Ok <==> block_aligned(old(self).alg(), old(buffer)@.len()),
            r is Ok ==> final(buffer)@ == cbc_dec_spec(
                old(self).alg(),
                old(self).key(),
                old(self).iv(),
                old(buffer)@,
            ) && final(self).iv() == cbc_next_iv(old(self).alg(), old(self).iv(), old(buffer)@),
            r is Err ==> final(buffer)@ == old(buffer)@ && *final(self) == *old(self),
            r matches Err(e) ==> e == Error::InvalidArgument,
    {
        match self.decrypt(buffer.as_slice()) {
            Ok(p) => {
                *buffer = p;
                Ok(())
            }
            Err(e) => Err(e),
        }
    }
}

/// Which end of the counter block is the least significant byte.
#[derive(Clone, Copy, Debug, PartialEq, Eq, Structural)]
pub enum CtrEndianness {
    BigEndian,
    LittleEndian,
}

/// Big-endian increment by one of a whole counter block, wrapping around.
pub open spec fn ctr_inc_be(c: Seq<u8>) -> Seq<u8>
    decreases c.len(),
{
    if c.len() == 0 {
        c
    } else if c.last() == 255 {
        ctr_inc_be(c.drop_last()).push(0u8)
    } else {
        c.update(c.len() - 1, (c.last() + 1) as u8)
    }
}

/// Little-endian increment by one of a whole counter block, wrapping
/// around.
pub open spec fn ctr_inc_le(c: Seq<u8>) -> Seq<u8>
    decreases c.len(),
{
    if c.len() == 0 {
        c
    } else if c.first() == 255 {
        seq![0u8] + ctr_inc_le(c.skip(1))
    } else {
        c.update(0, (c.first() + 1) as u8)
    }
}

/// Increment of the counter block in the configured endianness.
pub open spec fn ctr_inc(e: CtrEndianness, c: Seq<u8>) -> Seq<u8> {
    match e {
        CtrEndianness::BigEndian => ctr_inc_be(c),
        CtrEndianness::LittleEndian => ctr_inc_le(c),
    }
}

/// Incrementing keeps the counter's length.
pub proof fn lemma_ctr_inc_len(e: CtrEndianness, c: Seq<u8>)
    ensures
        ctr_inc(e, c).len() == c.len(),
    decreases c.len(),
{
    if c.len() == 0 {
    } else {
        match e {
            CtrEndianness::BigEndian => {
                if c.last() == 255 {
                    lemma_ctr_inc_len(e, c.drop_last());
                }
            }
            CtrEndianness::LittleEndian => {
                if c.first() == 255 {
                    lemma_ctr_inc_len(e, c.skip(1));
                }
            }
        }
    }
}

/// The CTR state after consuming one keystream byte: the position moves
/// forward, and at a block boundary the counter steps and the position
/// wraps to zero.
pub open spec fn ctr_next(alg: CipherAlg, e: CtrEndianness, ctr: Seq<u8>, pos: nat) -> (
    Seq<u8>,
    nat,
) {
    if pos + 1 >= spec_block_size(alg) {
        (ctr_inc(e, ctr), 0)
    } else {
        (ctr, pos + 1)
    }
}

/// CTR over a message: each byte is XORed with the keystream byte
/// `E(counter)[pos]`, the counter stepping once per consumed block.
/// Encryption and decryption are this same operation.
pub open spec fn ctr_process(
    alg: CipherAlg,
    key: Seq<u8>,
    e: CtrEndianness,
    ctr: Seq<u8>,
    pos: nat,
    data: Seq<u8>,
) -> Seq<u8>
    decreases data.len(),
{
    if data.len() == 0 {
        Seq::empty()
    } else {
        let b = data[0] ^ enc_block_of(alg, key, ctr)[pos as int];
        let st = ctr_next(alg, e, ctr, pos);
        seq![b] + ctr_process(alg, key, e, st.0, st.1, data.skip(1))
    }
}

/// The (counter, position) state after `n` keystream bytes.
pub open spec fn ctr_state_after(
    alg: CipherAlg,
    e: CtrEndianness,
    ctr: Seq<u8>,
    pos: nat,
    n: nat,
) -> (Seq<u8>, nat)
    decreases n,
{
    if n == 0 {
        (ctr, pos)
    } else {
        let st = ctr_next(alg, e, ctr, pos);
        ctr_state_after(alg, e, st.0, st.1, (n - 1) as nat)
    }
}

/// Stepping the CTR state `a + b` bytes is stepping it `a` bytes and then
/// `b` more.
pub proof fn lemma_ctr_state_add(
    alg: CipherAlg,
    e: CtrEndianness,
    ctr: Seq<u8>,
    pos: nat,
    a: nat,
    b: nat,
)
    ensures
        ctr_state_after(alg, e, ctr, pos, a + b) == {
            let s = ctr_state_after(alg, e, ctr, pos, a);
            ctr_state_after(alg, e, s.0, s.1, b)
        },
    decreases a,
{
    if a == 0 {
    } else {
        let st = ctr_next(alg, e, ctr, pos);
        lemma_ctr_state_add(alg, e, st.0, st.1, (a - 1) as nat, b);
        assert(a + b > 0);
        assert(ctr_state_after(alg, e, ctr, pos, a + b) == ctr_state_after(
            alg,
            e,
            st.0,
            st.1,
            (a + b - 1) as nat,
        ));
    }
}

/// Law: CTR is an involution for a fixed starting state — applying the
/// keystream twice gives back the message, for any message length.
pub proof fn lemma_ctr_round_trip(
    alg: CipherAlg,
    key: Seq<u8>,
    e: CtrEndianness,
    ctr: Seq<u8>,
    pos: nat,
    data: Seq<u8>,
)
    ensures
        ctr_process(alg, key, e, ctr, pos, ctr_process(alg, key, e, ctr, pos, data)) == data,
    decreases data.len(),
{
    if data.len() == 0 {
        assert(ctr_process(alg, key, e, ctr, pos, data) =~= Seq::<u8>::empty());
        assert(ctr_process(alg, key, e, ctr, pos, ctr_process(alg, key, e, ctr, pos, data)) =~= data);
    } else {
        let k = enc_block_of(alg, key, ctr)[pos as int];
        let st = ctr_next(alg, e, ctr, pos);
        let c = ctr_process(alg, key, e, ctr, pos, data);
        let crest = ctr_process(alg, key, e, st.0, st.1, data.skip(1));
        assert(c == seq![(data[0] ^ k)] + crest);
        assert(c.len() > 0);
        assert(c[0] == data[0] ^ k);
        assert(c.skip(1) =~= crest);
        lemma_ctr_round_trip(alg, key, e, st.0, st.1, data.skip(1));
        let d0 = data[0];
        assert((d0 ^ k) ^ k == d0) by (bit_vector);
        assert(ctr_process(alg, key, e, ctr, pos, c) == seq![((data[0] ^ k) ^ k)] + ctr_process(
            alg,
            key,
            e,
            st.0,
            st.1,
            crest,
        ));
        assert(ctr_process(alg, key, e, ctr, pos, c) =~= data);
    }
}

/// Law: CTR output is a function of cipher, key, endianness, counter and
/// message alone — identical inputs give identical ciphertext.
pub proof fn lemma_ctr_deterministic(
    alg: CipherAlg,
    key: Seq<u8>,
    e: CtrEndianness,
    ctr1: Seq<u8>,
    pos1: nat,
    ctr2: Seq<u8>,
    pos2: nat,
    d1: Seq<u8>,
    d2: Seq<u8>,
)
    requires
        ctr1 == ctr2,
        pos1 == pos2,
        d1 == d2,
    ensures
        ctr_process(alg, key, e, ctr1, pos1, d1) == ctr_process(alg, key, e, ctr2, pos2, d2),
{
}

/// Exec increment of a counter buffer in the given endianness.
fn ctr_inc_vec(c: &mut Vec<u8>, e: CtrEndianness)
    ensures
        final(c)@ == ctr_inc(e, old(c)@),
        final(c)@.len() == old(c)@.len(),
{
    proof {
        lemma_ctr_inc_len(e, old(c)@);
    }
    let n: usize = c.len();
    match e {
        CtrEndianness::BigEndian => {
            let mut j: usize = n;
            proof {
                assert(old(c)@.take(n as int) =~= old(c)@);
                assert(c@ =~= old(c)@.take(n as int) + zeros(0));
                assert(ctr_inc_be(old(c)@) =~= ctr_inc_be(old(c)@.take(n as int)) + zeros(0));
            }
            while j > 0
                invariant
                    e == CtrEndianness::BigEndian,
                    j <= n,
                    n == old(c)@.len(),
                    c@.len() == n,
                    c@ =~= old(c)@.take(j as int) + zeros((n - j) as nat),
                    ctr_inc_be(old(c)@) =~= ctr_inc_be(old(c)@.take(j as int)) + zeros(
                        (n - j) as nat,
                    ),
                decreases j,
            {
                let jj = j - 1;
                if c[jj] == 255 {
                    c[jj] = 0;
                    proof {
                        let pre = old(c)@.take(j as int);
                        assert(pre.last() == old(c)@[jj as int]);
                        assert(pre.drop_last() =~= old(c)@.take(jj as int));
                        assert(ctr_inc_be(pre) == ctr_inc_be(old(c)@.take(jj as int)).push(0u8));
                        assert(ctr_inc_be(old(c)@) =~= ctr_inc_be(old(c)@.take(jj as int)) + zeros(
                            (n - jj) as nat,
                        ));
                        assert(c@ =~= old(c)@.take(jj as int) + zeros((n - jj) as nat));
                    }
                    j = jj;
                } else {
                    let v = c[jj];
                    c[jj] = v + 1;
                    proof {
                        let pre = old(c)@.take(j as int);
                        assert(pre.last() == old(c)@[jj as int]);
                        assert(old(c)@[jj as int] == v);
                        assert(ctr_inc_be(pre) == pre.update(jj as int, (v + 1) as u8));
                        assert(c@ =~= pre.update(jj as int, (v + 1) as u8) + zeros((n - j) as nat));
                        assert(c@ =~= ctr_inc_be(old(c)@));
                    }
                    return ;
                }
            }
            proof {
                assert(old(c)@.take(0) =~= Seq::<u8>::empty());
                assert(ctr_inc_be(Seq::<u8>::empty()) =~= Seq::<u8>::empty());
                assert(c@ =~= ctr_inc_be(old(c)@));
            }
        }
        CtrEndianness::LittleEndian => {
            let mut j: usize = 0;
            proof {
                assert(old(c)@.skip(0) =~= old(c)@);
                assert(c@ =~= zeros(0) + old(c)@.skip(0));
                assert(ctr_inc_le(old(c)@) =~= zeros(0) + ctr_inc_le(old(c)@.skip(0)));
            }
            while j < n
                invariant
                    e == CtrEndianness::LittleEndian,
                    j <= n,
                    n == old(c)@.len(),
                    c@.len() == n,
                    c@ =~= zeros(j as nat) + old(c)@.skip(j as int),
                    ctr_inc_le(old(c)@) =~= zeros(j as nat) + ctr_inc_le(old(c)@.skip(j as int)),
                decreases n - j,
            {
                if c[j] == 255 {
                    c[j] = 0;
                    proof {
                        let suf = old(c)@.skip(j as int);
                        assert(suf.first() == old(c)@[j as int]);
                        assert(suf.skip(1) =~= old(c)@.skip((j + 1) as int));
                        assert(ctr_inc_le(suf) == seq![0u8] + ctr_inc_le(old(c)@.skip((j + 1) as int)));
                        assert(ctr_inc_le(old(c)@) =~= zeros((j + 1) as nat) + ctr_inc_le(
                            old(c)@.skip((j + 1) as int),
                        ));
                        assert(c@ =~= zeros((j + 1) as nat) + old(c)@.skip((j + 1) as int));
                    }
                    j = j + 1;
                } else {
                    let v = c[j];
                    c[j] = v + 1;
                    proof {
                        let suf = old(c)@.skip(j as int);
                        assert(suf.first() == old(c)@[j as int]);
                        assert(suf.first() == v);
                        assert(ctr_inc_le(suf) == suf.update(0, (v + 1) as u8));
                        assert(c@ =~= zeros(j as nat) + suf.update(0, (v + 1) as u8));
                        assert(c@ =~= ctr_inc_le(old(c)@));
                    }
                    return ;
                }
            }
            proof {
                assert(old(c)@.skip(n as int) =~= Seq::<u8>::empty());
                assert(ctr_inc_le(Seq::<u8>::empty()) =~= Seq::<u8>::empty());
                assert(c@ =~= ctr_inc_le(old(c)@));
            }
        }
    }
}

/// CTR mode: the cipher only ever encrypts the counter; message bytes are
/// XORed with that keystream, so any message length is accepted and
/// encryption and decryption are the same operation.
pub struct Ctr {
    ks: KeySchedule,
    counter: Vec<u8>,
    pad: Vec<u8>,
    pos: usize,
    endian: CtrEndianness,
}

impl Ctr {
    /// The algorithm of the underlying cipher.
    pub closed spec fn alg(self) -> CipherAlg {
        self.ks.alg()
    }

    /// The key this mode state was built with.
    pub closed spec fn key(self) -> Seq<u8> {
        self.ks.key()
    }

    /// The current counter block.
    pub closed spec fn counter(self) -> Seq<u8> {
        self.counter@
    }

    /// How many bytes of the current keystream block are consumed.
    pub closed spec fn pos(self) -> nat {
        self.pos as nat
    }

    /// The configured counter endianness.
    pub closed spec fn endianness(self) -> CtrEndianness {
        self.endian
    }

    /// Well-formed mode state.
    pub closed spec fn wf(self) -> bool {
        &&& self.ks.wf()
        &&& self.counter@.len() == spec_block_size(self.ks.alg())
        &&& self.pad@ == enc_block_of(self.ks.alg(), self.ks.key(), self.counter@)
        &&& (self.pos as nat) < spec_block_size(self.ks.alg())
    }

    /// Build a CTR state. The IV is the initial counter block and must be
    /// one block long; `mode` fixes the increment endianness.
    pub fn new(
        cipher: Cipher,
        iv: &[u8],
        key: &[u8],
        rounds: Option<u32>,
        mode: CtrEndianness,
    ) -> (r: Result<Ctr, Error>)
        ensures
            r is Ok <==> key_len_ok(cipher.spec_alg(), key@.len()) && rounds_ok(
                cipher.spec_alg(),
                rounds,
            ) && iv@.len() == spec_block_size(cipher.spec_alg()),
            r matches Ok(m) ==> m.wf() && m.alg() == cipher.spec_alg() && m.key() == key@
                && m.counter() == iv@ && m.pos() == 0 && m.endianness() == mode && good_cipher(
                m.alg(),
                m.key(),
            ),
            r matches Err(e) ==> e == Error::InvalidArgument,
    {
        if iv.len() != cipher.block_size() {
            return Err(Error::InvalidArgument);
        }
        if !check_rounds(cipher, rounds) {
            return Err(Error::InvalidArgument);
        }
        match KeySchedule::new(cipher.alg, key) {
            Ok(ks) => {
                let pad = ks.enc_block(iv);
                Ok(Ctr { ks, counter: vstd::slice::slice_to_vec(iv), pad, pos: 0, endian: mode })
            }
            Err(_) => Err(Error::InvalidArgument),
        }
    }

    /// Apply the keystream to a message of any length.
    pub fn encrypt(&mut self, plaintext: &[u8]) -> (r: Result<Vec<u8>, Error>)
        requires
            old(self).wf(),
        ensures
            final(self).wf(),
            final(self).alg() == old(self).alg(),
            final(self).key() == old(self).key(),
            final(self).endianness() == old(self).endianness(),
            r is Ok,
            r matches Ok(c) ==> c@ == ctr_process(
                old(self).alg(),
                old(self).key(),
                old(self).endianness(),
                old(self).counter(),
                old(self).pos(),
                plaintext@,
            ) && c@.len() == plaintext@.len() && (final(self).counter(), final(self).pos())
                == ctr_state_after(
                old(self).alg(),
                old(self).endianness(),
                old(self).counter(),
                old(self).pos(),
                plaintext@.len(),
            ),
    {
        let bs = block_size_of(&self.ks);
        let n = plaintext.len();
        let ghost alg = self.alg();
        let ghost key = self.key();
        let ghost e = self.endian;
        let ghost ctr0 = self.counter();
        let ghost pos0 = self.pos();
        let mut counter = self.counter.clone();
        let mut pad = self.pad.clone();
        let mut pos = self.pos;
        proof {
            assert(counter@ =~= ctr0);
            assert(pad@ =~= enc_block_of(alg, key, ctr0));
            assert(plaintext@.skip(0) =~= plaintext@);
        }
        let mut out: Vec<u8> = Vec::new();
        let mut i: usize = 0;
        while i < n
            invariant
                self.wf(),
                self.alg() == alg,
                self.key() == key,
                self.endian == e,
                bs == spec_block_size(alg),
                n == plaintext@.len(),
                i <= n,
                out@.len() == i,
                counter@.len() == bs,
                pad@ == enc_block_of(alg, key, counter@),
                pos < bs,
                ctr_process(alg, key, e, ctr0, pos0, plaintext@) =~= out@ + ctr_process(
                    alg,
                    key,
                    e,
                    counter@,
                    pos as nat,
                    plaintext@.skip(i as int),
                ),
                ctr_state_after(alg, e, ctr0, pos0, n as nat) == ctr_state_after(
                    alg,
                    e,
                    counter@,
                    pos as nat,
                    (n - i) as nat,
                ),
            decreases n - i,
        {
            proof {
                assert(pad@.len() == bs);
            }
            let b = plaintext[i] ^ pad[pos];
            out.push(b);
            proof {
                let rest = plaintext@.skip(i as int);
                assert(rest[0] == plaintext@[i as int]);
                assert(rest.skip(1) =~= plaintext@.skip((i + 1) as int));
                assert(b == rest[0] ^ enc_block_of(alg, key, counter@)[pos as int]);
            }
            let ghost st = ctr_next(alg, e, counter@, pos as nat);
            pos = pos + 1;
            if pos == bs {
                ctr_inc_vec(&mut counter, self.endian);
                pad = self.ks.enc_block(counter.as_slice());
                pos = 0;
                proof {
                    assert(st == (counter@, pos as nat));
                }
            } else {
                proof {
                    assert(st == (counter@, pos as nat));
                }
            }
            i = i + 1;
        }
        proof {
            assert(plaintext@.skip(n as int) =~= Seq::<u8>::empty());
            assert(ctr_process(alg, key, e, counter@, pos as nat, plaintext@.skip(n as int)) =~= Seq::<
                u8,
            >::empty());
            assert(out@ =~= ctr_process(alg, key, e, ctr0, pos0, plaintext@));
        }
        self.counter = counter;
        self.pad = pad;
        self.pos = pos;
        Ok(out)
    }

    /// Decrypt is the identical XOR operation.
    pub fn decrypt(&mut self, ciphertext: &[u8]) -> (r: Result<Vec<u8>, Error>)
        requires
            old(self).wf(),
        ensures
            final(self).wf(),
            final(self).alg() == old(self).alg(),
            final(self).key() == old(self).key(),
            final(self).endianness() == old(self).endianness(),
            r is Ok,
            r matches Ok(p) ==> p@ == ctr_process(
                old(self).alg(),
                old(self).key(),
                old(self).endianness(),
                old(self).counter(),
                old(self).pos(),
                ciphertext@,
            ) && p@.len() == ciphertext@.len() && (final(self).counter(), final(self).pos())
                == ctr_state_after(
                old(self).alg(),
                old(self).endianness(),
                old(self).counter(),
                old(self).pos(),
                ciphertext@.len(),
            ),
    {
        self.encrypt(ciphertext)
    }

    /// Apply the keystream to a buffer in place.
    pub fn encrypt_in_place(&mut self, buffer: &mut Vec<u8>) -> (r: Result<(), Error>)
        requires
            old(self).wf(),
        ensures
            final(self).wf(),
            final(self).alg() == old(self).alg(),
            final(self).key() == old(self).key(),
            final(self).endianness() == old(self).endianness(),
            r is Ok,
            final(buffer)@ == ctr_process(
                old(self).alg(),
                old(self).key(),
                old(self).endianness(),
                old(self).counter(),
                old(self).pos(),
                old(buffer)@,
            ),
            (final(self).counter(), final(self).pos()) == ctr_state_after(
                old(self).alg(),
                old(self).endianness(),
                old(self).counter(),
                old(self).pos(),
                old(buffer)@.len(),
            ),
    {
        match self.encrypt(buffer.as_slice()) {
            Ok(c) => {
                *buffer = c;
                Ok(())
            }
            Err(e) => Err(e),
        }
    }

    /// Undo the keystream on a buffer in place (the same operation).
    pub fn decrypt_in_place(&mut self, buffer: &mut Vec<u8>) -> (r: Result<(), Error>)
        requires
            old(self).wf(),
        ensures
            final(self).wf(),
            final(self).alg() == old(self).alg(),
            final(self).key() == old(self).key(),
            final(self).endianness() == old(self).endianness(),
            r is Ok,
            final(buffer)@ == ctr_process(
                old(self).alg(),
                old(self).key(),
                old(self).endianness(),
                old(self).counter(),
                old(self).pos(),
                old(buffer)@,
            ),
            (final(self).counter(), final(self).pos()) == ctr_state_after(
                old(self).alg(),
                old(self).endianness(),
                old(self).counter(),
                old(self).pos(),
                old(buffer)@.len(),
            ),
    {
        self.encrypt_in_place(buffer)
    }
}

/// One CFB state step, absorbing one ciphertext byte: the byte joins the
/// feedback register, and a full register is encrypted into the next
/// keystream block.
pub open spec fn cfb_step(alg: CipherAlg, key: Seq<u8>, pad: Seq<u8>, reg: Seq<u8>, b: u8) -> (
    Seq<u8>,
    Seq<u8>,
) {
    let nreg = reg.push(b);
    if nreg.len() >= spec_block_size(alg) {
        (enc_block_of(alg, key, nreg), Seq::empty())
    } else {
        (pad, nreg)
    }
}

/// The CFB state after absorbing a run of ciphertext bytes.
pub open spec fn cfb_state_after(
    alg: CipherAlg,
    key: Seq<u8>,
    pad: Seq<u8>,
    reg: Seq<u8>,
    ct: Seq<u8>,
) -> (Seq<u8>, Seq<u8>)
    decreases ct.len(),
{
    if ct.len() == 0 {
        (pad, reg)
    } else {
        let st = cfb_step(alg, key, pad, reg, ct[0]);
        cfb_state_after(alg, key, st.0, st.1, ct.skip(1))
    }
}

proof fn lemma_cfb_state_append(
    alg: CipherAlg,
    key: Seq<u8>,
    pad: Seq<u8>,
    reg: Seq<u8>,
    x: Seq<u8>,
    b: u8,
)
    ensures
        cfb_state_after(alg, key, pad, reg, x.push(b)) == {
            let s = cfb_state_after(alg, key, pad, reg, x);
            cfb_step(alg, key, s.0, s.1, b)
        },
    decreases x.len(),
{
    if x.len() == 0 {
        let st = cfb_step(alg, key, pad, reg, b);
        assert(x.push(b).len() == 1);
        assert(x.push(b)[0] == b);
        assert(x.push(b).skip(1) =~= Seq::<u8>::empty());
        assert(cfb_state_after(alg, key, st.0, st.1, Seq::<u8>::empty()) == st);
        assert(cfb_state_after(alg, key, pad, reg, x) == (pad, reg));
    } else {
        let st = cfb_step(alg, key, pad, reg, x[0]);
        assert(x.push(b).len() == x.len() + 1);
        assert(x.push(b)[0] == x[0]);
        assert(x.push(b).skip(1) =~= x.skip(1).push(b));
        assert(cfb_state_after(alg, key, pad, reg, x.push(b)) == cfb_state_after(
            alg,
            key,
            st.0,
            st.1,
            x.skip(1).push(b),
        ));
        lemma_cfb_state_append(alg, key, st.0, st.1, x.skip(1), b);
        assert(cfb_state_after(alg, key, pad, reg, x) == cfb_state_after(
            alg,
            key,
            st.0,
            st.1,
            x.skip(1),
        ));
    }
}

/// CFB encryption over a message: each plaintext byte is XORed with a
/// keystream byte derived by encrypting the previous ciphertext block.
pub open spec fn cfb_enc_process(
    alg: CipherAlg,
    key: Seq<u8>,
    pad: Seq<u8>,
    reg: Seq<u8>,
    data: Seq<u8>,
) -> Seq<u8>
    decreases data.len(),
{
    if data.len() == 0 {
        Seq::empty()
    } else {
        let c0 = data[0] ^ pad[reg.len() as int];
        let st = cfb_step(alg, key, pad, reg, c0);
        seq![c0] + cfb_enc_process(alg, key, st.0, st.1, data.skip(1))
    }
}

/// CFB decryption, the inverse: the feedback register absorbs the input
/// ciphertext bytes themselves.
pub open spec fn cfb_dec_process(
    alg: CipherAlg,
    key: Seq<u8>,
    pad: Seq<u8>,
    reg: Seq<u8>,
    data: Seq<u8>,
) -> Seq<u8>
    decreases data.len(),
{
    if data.len() == 0 {
        Seq::empty()
    } else {
        let p0 = data[0] ^ pad[reg.len() as int];
        let st = cfb_step(alg, key, pad, reg, data[0]);
        seq![p0] + cfb_dec_process(alg, key, st.0, st.1, data.skip(1))
    }
}

/// Law: CFB decryption undoes CFB encryption from the same state, for any
/// message length — the feedback register sees the same ciphertext bytes
/// in both directions.
pub proof fn lemma_cfb_round_trip(
    alg: CipherAlg,
    key: Seq<u8>,
    pad: Seq<u8>,
    reg: Seq<u8>,
    data: Seq<u8>,
)
    ensures
        cfb_dec_process(alg, key, pad, reg, cfb_enc_process(alg, key, pad, reg, data)) == data,
    decreases data.len(),
{
    if data.len() == 0 {
        assert(cfb_enc_process(alg, key, pad, reg, data) =~= Seq::<u8>::empty());
        assert(cfb_dec_process(alg, key, pad, reg, cfb_enc_process(alg, key, pad, reg, data))
            =~= data);
    } else {
        let k = pad[reg.len() as int];
        let d0 = data[0];
        let c0 = d0 ^ k;
        let st = cfb_step(alg, key, pad, reg, c0);
        let c = cfb_enc_process(alg, key, pad, reg, data);
        let crest = cfb_enc_process(alg, key, st.0, st.1, data.skip(1));
        assert(c == seq![c0] + crest);
        assert(c[0] == c0);
        assert(c.skip(1) =~= crest);
        lemma_cfb_round_trip(alg, key, st.0, st.1, data.skip(1));
        assert((d0 ^ k) ^ k == d0) by (bit_vector);
        assert(cfb_dec_process(alg, key, pad, reg, c) == seq![(c0 ^ k)] + cfb_dec_process(
            alg,
            key,
            st.0,
            st.1,
            crest,
        ));
        assert(cfb_dec_process(alg, key, pad, reg, c) =~= data);
    }
}

/// CFB mode: a self-synchronizing feedback mode; any message length is
/// accepted.
pub struct Cfb {
    ks: KeySchedule,
    pad: Vec<u8>,
    reg: Vec<u8>,
}

impl Cfb {
    /// The algorithm of the underlying cipher.
    pub closed spec fn alg(self) -> CipherAlg {
        self.ks.alg()
    }

    /// The key this mode state was built with.
    pub closed spec fn key(self) -> Seq<u8> {
        self.ks.key()
    }

    /// The current keystream block.
    pub closed spec fn pad(self) -> Seq<u8> {
        self.pad@
    }

    /// The partially filled feedback register.
    pub closed spec fn reg(self) -> Seq<u8> {
        self.reg@
    }

    /// Well-formed mode state.
    pub closed spec fn wf(self) -> bool {
        &&& self.ks.wf()
        &&& self.pad@.len() == spec_block_size(self.ks.alg())
        &&& self.reg@.len() < spec_block_size(self.ks.alg())
    }

    /// Build a CFB state, validating key length and IV length; the first
    /// keystream block is the encrypted IV.
    pub fn new(cipher: Cipher, iv: &[u8], key: &[u8], rounds: Option<u32>) -> (r: Result<
        Cfb,
        Error,
    >)
        ensures
            r is Ok <==> key_len_ok(cipher.spec_alg(), key@.len()) && rounds_ok(
                cipher.spec_alg(),
                rounds,
            ) && iv@.len() == spec_block_size(cipher.spec_alg()),
            r matches Ok(m) ==> m.wf() && m.alg() == cipher.spec_alg() && m.key() == key@ && m.pad()
                == enc_block_of(cipher.spec_alg(), key@, iv@) && m.reg() == Seq::<u8>::empty()
                && good_cipher(m.alg(), m.key()),
            r matches Err(e) ==> e == Error::InvalidArgument,
    {
        if iv.len() != cipher.block_size() {
            return Err(Error::InvalidArgument);
        }
        if !check_rounds(cipher, rounds) {
            return Err(Error::InvalidArgument);
        }
        match KeySchedule::new(cipher.alg, key) {
            Ok(ks) => {
                let pad = ks.enc_block(iv);
                let m = Cfb { ks, pad, reg: Vec::new() };
                proof {
                    assert(m.reg() =~= Seq::<u8>::empty());
                }
                Ok(m)
            }
            Err(_) => Err(Error::InvalidArgument),
        }
    }

    /// Encrypt a message of any length.
    pub fn encrypt(&mut self, plaintext: &[u8]) -> (r: Result<Vec<u8>, Error>)
        requires
            old(self).wf(),
        ensures
            final(self).wf(),
            final(self).alg() == old(self).alg(),
            final(self).key() == old(self).key(),
            r is Ok,
            r matches Ok(c) ==> c@ == cfb_enc_process(
                old(self).alg(),
                old(self).key(),
                old(self).pad(),
                old(self).reg(),
                plaintext@,
            ) && c@.len() == plaintext@.len() && (final(self).pad(), final(self).reg())
                == cfb_state_after(
                old(self).alg(),
                old(self).key(),
                old(self).pad(),
                old(self).reg(),
                c@,
            ),
    {
        let bs = block_size_of(&self.ks);
        let n = plaintext.len();
        let ghost alg = self.alg();
        let ghost key = self.key();
        let ghost pad0 = self.pad();
        let ghost reg0 = self.reg();
        let mut pad = self.pad.clone();
        let mut reg = self.reg.clone();
        proof {
            assert(pad@ =~= pad0);
            assert(reg@ =~= reg0);
            assert(plaintext@.skip(0) =~= plaintext@);
        }
        let mut out: Vec<u8> = Vec::new();
        let mut i: usize = 0;
        while i < n
            invariant
                self.wf(),
                self.alg() == alg,
                self.key() == key,
                bs == spec_block_size(alg),
                good_cipher(alg, key),
                n == plaintext@.len(),
                i <= n,
                out@.len() == i,
                pad@.len() == bs,
                reg@.len() < bs,
                cfb_enc_process(alg, key, pad0, reg0, plaintext@) =~= out@ + cfb_enc_process(
                    alg,
                    key,
                    pad@,
                    reg@,
                    plaintext@.skip(i as int),
                ),
                (pad@, reg@) == cfb_state_after(alg, key, pad0, reg0, out@),
            decreases n - i,
        {
            let ghost pad_pre = pad@;
            let ghost reg_pre = reg@;
            let ghost out_pre = out@;
            let c0 = plaintext[i] ^ pad[reg.len()];
            out.push(c0);
            reg.push(c0);
            proof {
                let rest = plaintext@.skip(i as int);
                assert(rest[0] == plaintext@[i as int]);
                assert(rest.skip(1) =~= plaintext@.skip((i + 1) as int));
                assert(c0 == rest[0] ^ pad_pre[reg_pre.len() as int]);
            }
            if reg.len() == bs {
                pad = self.ks.enc_block(reg.as_slice());
                reg = Vec::new();
                proof {
                    assert(reg@ =~= Seq::<u8>::empty());
                    assert((pad@, reg@) == cfb_step(alg, key, pad_pre, reg_pre, c0));
                }
            } else {
                proof {
                    assert((pad@, reg@) == cfb_step(alg, key, pad_pre, reg_pre, c0));
                }
            }
            proof {
                lemma_cfb_state_append(alg, key, pad0, reg0, out_pre, c0);
                assert(out_pre.push(c0) =~= out@);
                assert(cfb_state_after(alg, key, pad0, reg0, out_pre) == (pad_pre, reg_pre));
                assert((pad@, reg@) == cfb_state_after(alg, key, pad0, reg0, out@));
            }
            i = i + 1;
        }
        proof {
            assert(plaintext@.skip(n as int) =~= Seq::<u8>::empty());
            assert(out@ =~= cfb_enc_process(alg, key, pad0, reg0, plaintext@));
        }
        self.pad = pad;
        self.reg = reg;
        Ok(out)
    }

    /// Decrypt a message of any length.
    pub fn decrypt(&mut self, ciphertext: &[u8]) -> (r: Result<Vec<u8>, Error>)
        requires
            old(self).wf(),
        ensures
            final(self).wf(),
            final(self).alg() == old(self).alg(),
            final(self).key() == old(self).key(),
            r is Ok,
            r matches Ok(p) ==> p@ == cfb_dec_process(
                old(self).alg(),
                old(self).key(),
                old(self).pad(),
                old(self).reg(),
                ciphertext@,
            ) && p@.len() == ciphertext@.len() && (final(self).pad(), final(self).reg())
                == cfb_state_after(
                old(self).alg(),
                old(self).key(),
                old(self).pad(),
                old(self).reg(),
                ciphertext@,
            ),
    {
        let bs = block_size_of(&self.ks);
        let n = ciphertext.len();
        let ghost alg = self.alg();
        let ghost key = self.key();
        let ghost pad0 = self.pad();
        let ghost reg0 = self.reg();
        let mut pad = self.pad.clone();
        let mut reg = self.reg.clone();
        proof {
            assert(pad@ =~= pad0);
            assert(reg@ =~= reg0);
            assert(ciphertext@.skip(0) =~= ciphertext@);
            assert(ciphertext@.take(0) =~= Seq::<u8>::empty());
        }
        let mut out: Vec<u8> = Vec::new();
        let mut i: usize = 0;
        while i < n
            invariant
                self.wf(),
                self.alg() == alg,
                self.key() == key,
                bs == spec_block_size(alg),
                good_cipher(alg, key),
                n == ciphertext@.len(),
                i <= n,
                out@.len() == i,
                pad@.len() == bs,
                reg@.len() < bs,
                cfb_dec_process(alg, key, pad0, reg0, ciphertext@) =~= out@ + cfb_dec_process(
                    alg,
                    key,
                    pad@,
                    reg@,
                    ciphertext@.skip(i as int),
                ),
                (pad@, reg@) == cfb_state_after(alg, key, pad0, reg0, ciphertext@.take(i as int)),
            decreases n - i,
        {
            let ghost pad_pre = pad@;
            let ghost reg_pre = reg@;
            let cin = ciphertext[i];
            let p0 = cin ^ pad[reg.len()];
            out.push(p0);
            reg.push(cin);
            proof {
                let rest = ciphertext@.skip(i as int);
                assert(rest[0] == ciphertext@[i as int]);
                assert(rest.skip(1) =~= ciphertext@.skip((i + 1) as int));
                assert(p0 == rest[0] ^ pad_pre[reg_pre.len() as int]);
            }
            if reg.len() == bs {
                pad = self.ks.enc_block(reg.as_slice());
                reg = Vec::new();
                proof {
                    assert(reg@ =~= Seq::<u8>::empty());
                    assert((pad@, reg@) == cfb_step(alg, key, pad_pre, reg_pre, cin));
                }
            } else {
                proof {
                    assert((pad@, reg@) == cfb_step(alg, key, pad_pre, reg_pre, cin));
                }
            }
            proof {
                lemma_cfb_state_append(alg, key, pad0, reg0, ciphertext@.take(i as int), cin);
                assert(ciphertext@.take(i as int).push(cin) =~= ciphertext@.take((i + 1) as int));
            }
            i = i + 1;
        }
        proof {
            assert(ciphertext@.skip(n as int) =~= Seq::<u8>::empty());
            assert(ciphertext@.take(n as int) =~= ciphertext@);
            assert(out@ =~= cfb_dec_process(alg, key, pad0, reg0, ciphertext@));
        }
        self.pad = pad;
        self.reg = reg;
        Ok(out)
    }

    /// Encrypt a buffer in place.
    pub fn encrypt_in_place(&mut self, buffer: &mut Vec<u8>) -> (r: Result<(), Error>)
        requires
            old(self).wf(),
        ensures
            final(self).wf(),
            final(self).alg() == old(self).alg(),
            final(self).key() == old(self).key(),
            r is Ok,
            final(buffer)@ == cfb_enc_process(
                old(self).alg(),
                old(self).key(),
                old(self).pad(),
                old(self).reg(),
                old(buffer)@,
            ),
            (final(self).pad(), final(self).reg()) == cfb_state_after(
                old(self).alg(),
                old(self).key(),
                old(self).pad(),
                old(self).reg(),
                final(buffer)@,
            ),
    {
        match self.encrypt(buffer.as_slice()) {
            Ok(c) => {
                *buffer = c;
                Ok(())
            }
            Err(e) => Err(e),
        }
    }

    /// Decrypt a buffer in place.
    pub fn decrypt_in_place(&mut self, buffer: &mut Vec<u8>) -> (r: Result<(), Error>)
        requires
            old(self).wf(),
        ensures
            final(self).wf(),
            final(self).alg() == old(self).alg(),
            final(self).key() == old(self).key(),
            r is Ok,
            final(buffer)@ == cfb_dec_process(
                old(self).alg(),
                old(self).key(),
                old(self).pad(),
                old(self).reg(),
                old(buffer)@,
            ),
            (final(self).pad(), final(self).reg()) == cfb_state_after(
                old(self).alg(),
                old(self).key(),
                old(self).pad(),
                old(self).reg(),
                old(buffer)@,
            ),
    {
        match self.decrypt(buffer.as_slice()) {
            Ok(p) => {
                *buffer = p;
                Ok(())
            }
            Err(e) => Err(e),
        }
    }
}

/// One OFB state step: the position advances, and at a block boundary the
/// keystream block is fed back through the cipher.
pub open spec fn ofb_next(alg: CipherAlg, key: Seq<u8>, pad: Seq<u8>, pos: nat) -> (Seq<u8>, nat) {
    if pos + 1 >= spec_block_size(alg) {
        (enc_block_of(alg, key, pad), 0)
    } else {
        (pad, pos + 1)
    }
}

/// OFB over a message: the keystream is the cipher iterated on its own
/// output, independent of the data; bytes are XORed with it.
pub open spec fn ofb_process(
    alg: CipherAlg,
    key: Seq<u8>,
    pad: Seq<u8>,
    pos: nat,
    data: Seq<u8>,
) -> Seq<u8>
    decreases data.len(),
{
    if data.len() == 0 {
        Seq::empty()
    } else {
        let b = data[0] ^ pad[pos as int];
        let st = ofb_next(alg, key, pad, pos);
        seq![b] + ofb_process(alg, key, st.0, st.1, data.skip(1))
    }
}

/// The OFB (keystream block, position) state after `n` bytes.
pub open spec fn ofb_state_after(
    alg: CipherAlg,
    key: Seq<u8>,
    pad: Seq<u8>,
    pos: nat,
    n: nat,
) -> (Seq<u8>, nat)
    decreases n,
{
    if n == 0 {
        (pad, pos)
    } else {
        let st = ofb_next(alg, key, pad, pos);
        ofb_state_after(alg, key, st.0, st.1, (n - 1) as nat)
    }
}

/// Law: OFB is an involution for a fixed starting state — applying the
/// keystream twice gives back the message, for any message length.
pub proof fn lemma_ofb_round_trip(
    alg: CipherAlg,
    key: Seq<u8>,
    pad: Seq<u8>,
    pos: nat,
    data: Seq<u8>,
)
    ensures
        ofb_process(alg, key, pad, pos, ofb_process(alg, key, pad, pos, data)) == data,
    decreases data.len(),
{
    if data.len() == 0 {
        assert(ofb_process(alg, key, pad, pos, data) =~= Seq::<u8>::empty());
        assert(ofb_process(alg, key, pad, pos, ofb_process(alg, key, pad, pos, data)) =~= data);
    } else {
        let k = pad[pos as int];
        let st = ofb_next(alg, key, pad, pos);
        let c = ofb_process(alg, key, pad, pos, data);
        let crest = ofb_process(alg, key, st.0, st.1, data.skip(1));
        assert(c == seq![(data[0] ^ k)] + crest);
        assert(c[0] == data[0] ^ k);
        assert(c.skip(1) =~= crest);
        lemma_ofb_round_trip(alg, key, st.0, st.1, data.skip(1));
        let d0 = data[0];
        assert((d0 ^ k) ^ k == d0) by (bit_vector);
        assert(ofb_process(alg, key, pad, pos, c) == seq![((d0 ^ k) ^ k)] + ofb_process(
            alg,
            key,
            st.0,
            st.1,
            crest,
        ));
        assert(ofb_process(alg, key, pad, pos, c) =~= data);
    }
}

/// OFB mode: the keystream is independent of the message; any message
/// length is accepted and decryption is the same XOR.
pub struct Ofb {
    ks: KeySchedule,
    pad: Vec<u8>,
    pos: usize,
}

impl Ofb {
    /// The algorithm of the underlying cipher.
    pub closed spec fn alg(self) -> CipherAlg {
        self.ks.alg()
    }

    /// The key this mode state was built with.
    pub closed spec fn key(self) -> Seq<u8> {
        self.ks.key()
    }

    /// The current keystream block.
    pub closed spec fn pad(self) -> Seq<u8> {
        self.pad@
    }

    /// How many bytes of the current keystream block are consumed.
    pub closed spec fn pos(self) -> nat {
        self.pos as nat
    }

    /// Well-formed mode state.
    pub closed spec fn wf(self) -> bool {
        &&& self.ks.wf()
        &&& self.pad@.len() == spec_block_size(self.ks.alg())
        &&& (self.pos as nat) < spec_block_size(self.ks.alg())
    }

    /// Build an OFB state, validating key length and IV length; the first
    /// keystream block is the encrypted IV.
    pub fn new(cipher: Cipher, iv: &[u8], key: &[u8], rounds: Option<u32>) -> (r: Result<
        Ofb,
        Error,
    >)
        ensures
            r is Ok <==> key_len_ok(cipher.spec_alg(), key@.len()) && rounds_ok(
                cipher.spec_alg(),
                rounds,
            ) && iv@.len() == spec_block_size(cipher.spec_alg()),
            r matches Ok(m) ==> m.wf() && m.alg() == cipher.spec_alg() && m.key() == key@ && m.pad()
                == enc_block_of(cipher.spec_alg(), key@, iv@) && m.pos() == 0 && good_cipher(
                m.alg(),
                m.key(),
            ),
            r matches Err(e) ==> e == Error::InvalidArgument,
    {
        if iv.len() != cipher.block_size() {
            return Err(Error::InvalidArgument);
        }
        if !check_rounds(cipher, rounds) {
            return Err(Error::InvalidArgument);
        }
        match KeySchedule::new(cipher.alg, key) {
            Ok(ks) => {
                let pad = ks.enc_block(iv);
                Ok(Ofb { ks, pad, pos: 0 })
            }
            Err(_) => Err(Error::InvalidArgument),
        }
    }

    /// Apply the keystream to a message of any length.
    pub fn encrypt(&mut self, plaintext: &[u8]) -> (r: Result<Vec<u8>, Error>)
        requires
            old(self).wf(),
        ensures
            final(self).wf(),
            final(self).alg() == old(self).alg(),
            final(self).key() == old(self).key(),
            r is Ok,
            r matches Ok(c) ==> c@ == ofb_process(
                old(self).alg(),
                old(self).key(),
                old(self).pad(),
                old(self).pos(),
                plaintext@,
            ) && c@.len() == plaintext@.len() && (final(self).pad(), final(self).pos())
                == ofb_state_after(
                old(self).alg(),
                old(self).key(),
                old(self).pad(),
                old(self).pos(),
                plaintext@.len(),
            ),
    {
        let bs = block_size_of(&self.ks);
        let n = plaintext.len();
        let ghost alg = self.alg();
        let ghost key = self.key();
        let ghost pad0 = self.pad();
        let ghost pos0 = self.pos();
        let mut pad = self.pad.clone();
        let mut pos = self.pos;
        proof {
            assert(pad@ =~= pad0);
            assert(plaintext@.skip(0) =~= plaintext@);
        }
        let mut out: Vec<u8> = Vec::new();
        let mut i: usize = 0;
        while i < n
            invariant
                self.wf(),
                self.alg() == alg,
                self.key() == key,
                bs == spec_block_size(alg),
                good_cipher(alg, key),
                n == plaintext@.len(),
                i <= n,
                out@.len() == i,
                pad@.len() == bs,
                pos < bs,
                ofb_process(alg, key, pad0, pos0, plaintext@) =~= out@ + ofb_process(
                    alg,
                    key,
                    pad@,
                    pos as nat,
                    plaintext@.skip(i as int),
                ),
                ofb_state_after(alg, key, pad0, pos0, n as nat) == ofb_state_after(
                    alg,
                    key,
                    pad@,
                    pos as nat,
                    (n - i) as nat,
                ),
            decreases n - i,
        {
            let b = plaintext[i] ^ pad[pos];
            out.push(b);
            proof {
                let rest = plaintext@.skip(i as int);
                assert(rest[0] == plaintext@[i as int]);
                assert(rest.skip(1) =~= plaintext@.skip((i + 1) as int));
                assert(b == rest[0] ^ pad@[pos as int]);
            }
            let ghost st = ofb_next(alg, key, pad@, pos as nat);
            pos = pos + 1;
            if pos == bs {
                pad = self.ks.enc_block(pad.as_slice());
                pos = 0;
                proof {
                    assert(st == (pad@, pos as nat));
                }
            } else {
                proof {
                    assert(st == (pad@, pos as nat));
                }
            }
            i = i + 1;
        }
        proof {
            assert(plaintext@.skip(n as int) =~= Seq::<u8>::empty());
            assert(out@ =~= ofb_process(alg, key, pad0, pos0, plaintext@));
        }
        self.pad = pad;
        self.pos = pos;
        Ok(out)
    }

    /// Decrypt is the identical XOR operation.
    pub fn decrypt(&mut self, ciphertext: &[u8]) -> (r: Result<Vec<u8>, Error>)
        requires
            old(self).wf(),
        ensures
            final(self).wf(),
            final(self).alg() == old(self).alg(),
            final(self).key() == old(self).key(),
            r is Ok,
            r matches Ok(p) ==> p@ == ofb_process(
                old(self).alg(),
                old(self).key(),
                old(self).pad(),
                old(self).pos(),
                ciphertext@,
            ) && p@.len() == ciphertext@.len() && (final(self).pad(), final(self).pos())
                == ofb_state_after(
                old(self).alg(),
                old(self).key(),
                old(self).pad(),
                old(self).pos(),
                ciphertext@.len(),
            ),
    {
        self.encrypt(ciphertext)
    }

    /// Apply the keystream to a buffer in place.
    pub fn encrypt_in_place(&mut self, buffer: &mut Vec<u8>) -> (r: Result<(), Error>)
        requires
            old(self).wf(),
        ensures
            final(self).wf(),
            final(self).alg() == old(self).alg(),
            final(self).key() == old(self).key(),
            r is Ok,
            final(buffer)@ == ofb_process(
                old(self).alg(),
                old(self).key(),
                old(self).pad(),
                old(self).pos(),
                old(buffer)@,
            ),
            (final(self).pad(), final(self).pos()) == ofb_state_after(
                old(self).alg(),
                old(self).key(),
                old(self).pad(),
                old(self).pos(),
                old(buffer)@.len(),
            ),
    {
        match self.encrypt(buffer.as_slice()) {
            Ok(c) => {
                *buffer = c;
                Ok(())
            }
            Err(e) => Err(e),
        }
    }

    /// Undo the keystream on a buffer in place (the same operation).
    pub fn decrypt_in_place(&mut self, buffer: &mut Vec<u8>) -> (r: Result<(), Error>)
        requires
            old(self).wf(),
        ensures
            final(self).wf(),
            final(self).alg() == old(self).alg(),
            final(self).key() == old(self).key(),
            r is Ok,
            final(buffer)@ == ofb_process(
                old(self).alg(),
                old(self).key(),
                old(self).pad(),
                old(self).pos(),
                old(buffer)@,
            ),
            (final(self).pad(), final(self).pos()) == ofb_state_after(
                old(self).alg(),
                old(self).key(),
                old(self).pad(),
                old(self).pos(),
                old(buffer)@.len(),
            ),
    {
        self.encrypt_in_place(buffer)
    }
}

/// Block size of a schedule, as an exec value.
pub(crate) fn block_size_of(ks: &KeySchedule) -> (r: usize)
    requires
        ks.wf(),
    ensures
        r == spec_block_size(ks.alg()),
        r == 8 || r == 16,
{
    Cipher { alg: ks.alg_exec() }.block_size()
}

} // verus!

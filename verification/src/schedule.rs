//! The trusted boundary to the block-cipher crates: key schedules and the
//! raw one-block operations. Everything above this module is verified;
//! each item here states, over the names `enc_block_of` / `dec_block_of`,
//! no more than the outside crates implement: a keyed, length-preserving
//! permutation of blocks whose inverse is decryption.

use vstd::prelude::*;

use aes::cipher::{BlockCipherDecrypt, BlockCipherEncrypt, KeyInit};

use crate::error::Error;
use crate::symmetric::{
    dec_block_of, enc_block_of, good_cipher, key_len_ok, spec_block_size, CipherAlg,
};

verus! {

#[verifier::external_type_specification]
#[verifier::external_body]
pub struct ExAes128(aes::Aes128);

#[verifier::external_type_specification]
#[verifier::external_body]
pub struct ExAes192(aes::Aes192);

#[verifier::external_type_specification]
#[verifier::external_body]
pub struct ExAes256(aes::Aes256);

#[verifier::external_type_specification]
#[verifier::external_body]
pub struct ExDes(des::Des);

/// Opaque holder for a scheduled Blowfish cipher. The outside type carries
/// a generic byte-order parameter whose trait Verus cannot see, so the
/// value is held behind this opaque struct instead of a type declaration.
#[verifier::external_body]
pub(crate) struct BlowfishBox {
    inner: blowfish::Blowfish<byteorder::BigEndian>,
}

/// An AES-128 key schedule, keeping the key it was built from so that
/// contracts can speak of it.
pub(crate) struct AesKs128 {
    pub(crate) inner: aes::Aes128,
    pub(crate) key: Vec<u8>,
}

pub(crate) struct AesKs192 {
    pub(crate) inner: aes::Aes192,
    pub(crate) key: Vec<u8>,
}

pub(crate) struct AesKs256 {
    pub(crate) inner: aes::Aes256,
    pub(crate) key: Vec<u8>,
}

pub(crate) struct DesKs {
    pub(crate) inner: des::Des,
    pub(crate) key: Vec<u8>,
}

pub(crate) struct BfKs {
    pub(crate) inner: BlowfishBox,
    pub(crate) key: Vec<u8>,
}

/// Relies on aes::Aes128::new_from_slice (the FIPS 197 key schedule); the
/// scheduled cipher is a keyed permutation of 16-byte blocks, with
/// encrypt_block and decrypt_block as mutual inverses.
#[verifier::external_body]
fn aes128_new(key: &[u8]) -> (r: AesKs128)
    requires
        key@.len() == 16,
    ensures
        r.key@ == key@,
        good_cipher(CipherAlg::Aes, r.key@),
{
    AesKs128 { inner: aes::Aes128::new_from_slice(key).unwrap(), key: key.to_vec() }
}

/// Relies on aes::Aes192::new_from_slice; see `aes128_new`.
#[verifier::external_body]
fn aes192_new(key: &[u8]) -> (r: AesKs192)
    requires
        key@.len() == 24,
    ensures
        r.key@ == key@,
        good_cipher(CipherAlg::Aes, r.key@),
{
    AesKs192 { inner: aes::Aes192::new_from_slice(key).unwrap(), key: key.to_vec() }
}

/// Relies on aes::Aes256::new_from_slice; see `aes128_new`.
#[verifier::external_body]
fn aes256_new(key: &[u8]) -> (r: AesKs256)
    requires
        key@.len() == 32,
    ensures
        r.key@ == key@,
        good_cipher(CipherAlg::Aes, r.key@),
{
    AesKs256 { inner: aes::Aes256::new_from_slice(key).unwrap(), key: key.to_vec() }
}

/// Relies on des::Des::new_from_slice (the FIPS 46-3 key schedule); the
/// scheduled cipher is a keyed permutation of 8-byte blocks.
#[verifier::external_body]
fn des_new(key: &[u8]) -> (r: DesKs)
    requires
        key@.len() == 8,
    ensures
        r.key@ == key@,
        good_cipher(CipherAlg::Des, r.key@),
{
    DesKs { inner: des::Des::new_from_slice(key).unwrap(), key: key.to_vec() }
}

/// Relies on blowfish::Blowfish::new_from_slice (Schneier's key expansion,
/// big-endian variant, keys of 8 to 56 bytes); the scheduled cipher is a
/// keyed permutation of 8-byte blocks.
#[verifier::external_body]
fn blowfish_new(key: &[u8]) -> (r: BfKs)
    requires
        8 <= key@.len() <= 56,
    ensures
        r.key@ == key@,
        good_cipher(CipherAlg::Blowfish, r.key@),
{
    BfKs {
        inner: BlowfishBox {
            inner: <blowfish::Blowfish<byteorder::BigEndian>>::new_from_slice(key).unwrap(),
        },
        key: key.to_vec(),
    }
}

/// Relies on aes::Aes128 encrypt_block: one 16-byte block through AES-128.
#[verifier::external_body]
fn aes128_enc(ks: &AesKs128, block: &[u8]) -> (r: Vec<u8>)
    requires
        block@.len() == 16,
    ensures
        r@ == enc_block_of(CipherAlg::Aes, ks.key@, block@),
        r@.len() == 16,
{
    let mut b: aes::Block = Default::default();
    b.copy_from_slice(block);
    ks.inner.encrypt_block(&mut b);
    b.to_vec()
}

/// Relies on aes::Aes128 decrypt_block: the inverse of `aes128_enc`.
#[verifier::external_body]
fn aes128_dec(ks: &AesKs128, block: &[u8]) -> (r: Vec<u8>)
    requires
        block@.len() == 16,
    ensures
        r@ == dec_block_of(CipherAlg::Aes, ks.key@, block@),
        r@.len() == 16,
{
    let mut b: aes::Block = Default::default();
    b.copy_from_slice(block);
    ks.inner.decrypt_block(&mut b);
    b.to_vec()
}

/// Relies on aes::Aes192 encrypt_block: one 16-byte block through AES-192.
#[verifier::external_body]
fn aes192_enc(ks: &AesKs192, block: &[u8]) -> (r: Vec<u8>)
    requires
        block@.len() == 16,
    ensures
        r@ == enc_block_of(CipherAlg::Aes, ks.key@, block@),
        r@.len() == 16,
{
    let mut b: aes::Block = Default::default();
    b.copy_from_slice(block);
    ks.inner.encrypt_block(&mut b);
    b.to_vec()
}

/// Relies on aes::Aes192 decrypt_block: the inverse of `aes192_enc`.
#[verifier::external_body]
fn aes192_dec(ks: &AesKs192, block: &[u8]) -> (r: Vec<u8>)
    requires
        block@.len() == 16,
    ensures
        r@ == dec_block_of(CipherAlg::Aes, ks.key@, block@),
        r@.len() == 16,
{
    let mut b: aes::Block = Default::default();
    b.copy_from_slice(block);
    ks.inner.decrypt_block(&mut b);
    b.to_vec()
}

/// Relies on aes::Aes256 encrypt_block: one 16-byte block through AES-256.
#[verifier::external_body]
fn aes256_enc(ks: &AesKs256, block: &[u8]) -> (r: Vec<u8>)
    requires
        block@.len() == 16,
    ensures
        r@ == enc_block_of(CipherAlg::Aes, ks.key@, block@),
        r@.len() == 16,
{
    let mut b: aes::Block = Default::default();
    b.copy_from_slice(block);
    ks.inner.encrypt_block(&mut b);
    b.to_vec()
}

/// Relies on aes::Aes256 decrypt_block: the inverse of `aes256_enc`.
#[verifier::external_body]
fn aes256_dec(ks: &AesKs256, block: &[u8]) -> (r: Vec<u8>)
    requires
        block@.len() == 16,
    ensures
        r@ == dec_block_of(CipherAlg::Aes, ks.key@, block@),
        r@.len() == 16,
{
    let mut b: aes::Block = Default::default();
    b.copy_from_slice(block);
    ks.inner.decrypt_block(&mut b);
    b.to_vec()
}

/// Relies on des::Des encrypt_block: one 8-byte block through DES.
#[verifier::external_body]
fn des_enc(ks: &DesKs, block: &[u8]) -> (r: Vec<u8>)
    requires
        block@.len() == 8,
    ensures
        r@ == enc_block_of(CipherAlg::Des, ks.key@, block@),
        r@.len() == 8,
{
    let mut b: des::cipher::Block<des::Des> = Default::default();
    b.copy_from_slice(block);
    ks.inner.encrypt_block(&mut b);
    b.to_vec()
}

/// Relies on des::Des decrypt_block: the inverse of `des_enc`.
#[verifier::external_body]
fn des_dec(ks: &DesKs, block: &[u8]) -> (r: Vec<u8>)
    requires
        block@.len() == 8,
    ensures
        r@ == dec_block_of(CipherAlg::Des, ks.key@, block@),
        r@.len() == 8,
{
    let mut b: des::cipher::Block<des::Des> = Default::default();
    b.copy_from_slice(block);
    ks.inner.decrypt_block(&mut b);
    b.to_vec()
}

/// Relies on blowfish::Blowfish encrypt_block: one 8-byte block through
/// Blowfish.
#[verifier::external_body]
fn blowfish_enc(ks: &BfKs, block: &[u8]) -> (r: Vec<u8>)
    requires
        block@.len() == 8,
    ensures
        r@ == enc_block_of(CipherAlg::Blowfish, ks.key@, block@),
        r@.len() == 8,
{
    let mut b: blowfish::cipher::Block<blowfish::Blowfish<byteorder::BigEndian>> =
        Default::default();
    b.copy_from_slice(block);
    ks.inner.inner.encrypt_block(&mut b);
    b.to_vec()
}

/// Relies on blowfish::Blowfish decrypt_block: the inverse of
/// `blowfish_enc`.
#[verifier::external_body]
fn blowfish_dec(ks: &BfKs, block: &[u8]) -> (r: Vec<u8>)
    requires
        block@.len() == 8,
    ensures
        r@ == dec_block_of(CipherAlg::Blowfish, ks.key@, block@),
        r@.len() == 8,
{
    let mut b: blowfish::cipher::Block<blowfish::Blowfish<byteorder::BigEndian>> =
        Default::default();
    b.copy_from_slice(block);
    ks.inner.inner.decrypt_block(&mut b);
    b.to_vec()
}

/// A scheduled key: the verified face of the trusted cipher backends.
pub(crate) enum KeySchedule {
    Aes128(AesKs128),
    Aes192(AesKs192),
    Aes256(AesKs256),
    Des(DesKs),
    Blowfish(BfKs),
}

impl KeySchedule {
    /// Which algorithm this key schedule drives.
    pub(crate) open spec fn alg(self) -> CipherAlg {
        match self {
            KeySchedule::Aes128(_) => CipherAlg::Aes,
            KeySchedule::Aes192(_) => CipherAlg::Aes,
            KeySchedule::Aes256(_) => CipherAlg::Aes,
            KeySchedule::Des(_) => CipherAlg::Des,
            KeySchedule::Blowfish(_) => CipherAlg::Blowfish,
        }
    }

    /// The key this schedule was built from.
    pub(crate) open spec fn key(self) -> Seq<u8> {
        match self {
            KeySchedule::Aes128(k) => k.key@,
            KeySchedule::Aes192(k) => k.key@,
            KeySchedule::Aes256(k) => k.key@,
            KeySchedule::Des(k) => k.key@,
            KeySchedule::Blowfish(k) => k.key@,
        }
    }

    /// Well-formed: the stored variant matches the key length and the
    /// backend behaves as a keyed permutation.
    pub(crate) open spec fn wf(self) -> bool {
        &&& good_cipher(self.alg(), self.key())
        &&& key_len_ok(self.alg(), self.key().len())
        &&& match self {
            KeySchedule::Aes128(k) => k.key@.len() == 16,
            KeySchedule::Aes192(k) => k.key@.len() == 24,
            KeySchedule::Aes256(k) => k.key@.len() == 32,
            KeySchedule::Des(k) => k.key@.len() == 8,
            KeySchedule::Blowfish(k) => 8 <= k.key@.len() <= 56,
        }
    }

    /// The algorithm, as an exec value.
    pub(crate) fn alg_exec(&self) -> (r: CipherAlg)
        ensures
            r == self.alg(),
    {
        match self {
            KeySchedule::Aes128(_) => CipherAlg::Aes,
            KeySchedule::Aes192(_) => CipherAlg::Aes,
            KeySchedule::Aes256(_) => CipherAlg::Aes,
            KeySchedule::Des(_) => CipherAlg::Des,
            KeySchedule::Blowfish(_) => CipherAlg::Blowfish,
        }
    }

    /// Schedule a key, validating its length against the algorithm.
    pub(crate) fn new(alg: CipherAlg, key: &[u8]) -> (r: Result<KeySchedule, Error>)
        ensures
            r is Ok <==> key_len_ok(alg, key@.len()),
            r matches Ok(ks) ==> ks.wf() && ks.alg() == alg && ks.key() == key@ && good_cipher(
                alg,
                key@,
            ),
    {
        match alg {
            CipherAlg::Aes => {
                if key.len() == 16 {
                    Ok(KeySchedule::Aes128(aes128_new(key)))
                } else if key.len() == 24 {
                    Ok(KeySchedule::Aes192(aes192_new(key)))
                } else if key.len() == 32 {
                    Ok(KeySchedule::Aes256(aes256_new(key)))
                } else {
                    Err(Error::InvalidArgument)
                }
            }
            CipherAlg::Des => {
                if key.len() == 8 {
                    Ok(KeySchedule::Des(des_new(key)))
                } else {
                    Err(Error::InvalidArgument)
                }
            }
            CipherAlg::Blowfish => {
                if 8 <= key.len() && key.len() <= 56 {
                    Ok(KeySchedule::Blowfish(blowfish_new(key)))
                } else {
                    Err(Error::InvalidArgument)
                }
            }
        }
    }

    /// Encrypt one block.
    pub(crate) fn enc_block(&self, block: &[u8]) -> (r: Vec<u8>)
        requires
            self.wf(),
            block@.len() == spec_block_size(self.alg()),
        ensures
            r@ == enc_block_of(self.alg(), self.key(), block@),
            r@.len() == spec_block_size(self.alg()),
    {
        match self {
            KeySchedule::Aes128(k) => aes128_enc(k, block),
            KeySchedule::Aes192(k) => aes192_enc(k, block),
            KeySchedule::Aes256(k) => aes256_enc(k, block),
            KeySchedule::Des(k) => des_enc(k, block),
            KeySchedule::Blowfish(k) => blowfish_enc(k, block),
        }
    }

    /// Decrypt one block.
    pub(crate) fn dec_block(&self, block: &[u8]) -> (r: Vec<u8>)
        requires
            self.wf(),
            block@.len() == spec_block_size(self.alg()),
        ensures
            r@ == dec_block_of(self.alg(), self.key(), block@),
            r@.len() == spec_block_size(self.alg()),
    {
        match self {
            KeySchedule::Aes128(k) => aes128_dec(k, block),
            KeySchedule::Aes192(k) => aes192_dec(k, block),
            KeySchedule::Aes256(k) => aes256_dec(k, block),
            KeySchedule::Des(k) => des_dec(k, block),
            KeySchedule::Blowfish(k) => blowfish_dec(k, block),
        }
    }
}

} // verus!

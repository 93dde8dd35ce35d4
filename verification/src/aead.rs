//! Authenticated encryption with associated data: the EAX mode.
//!
//! EAX composes a block cipher into CTR-style encryption plus three
//! OMAC accumulators with domain-separating tweak blocks: one over the
//! nonce (whose tag seeds the counter), one over the optional header, one
//! over the ciphertext. `finish` folds the three tags together by XOR and
//! truncates to the caller's length.

use vstd::prelude::*;

use crate::error::Error;
use crate::mac::{omac_tag, Omac};
use crate::symmetric::{
    ctr_process, ctr_state_after, good_cipher, key_len_ok, lemma_ctr_state_add, spec_block_size,
    Cipher, CipherAlg, Ctr, CtrEndianness,
};
use crate::util;
use crate::util::{xor_bytes, zeros};

verus! {

/// The domain-separation block for one of EAX's three accumulators: a
/// whole block of zeros ending in the tweak byte.
pub open spec fn eax_tweak(bs: nat, t: u8) -> Seq<u8> {
    zeros((bs - 1) as nat).push(t)
}

/// The nonce tag: the OMAC of the tweak-0 block followed by the nonce.
/// It doubles as the starting CTR counter.
pub open spec fn eax_n(alg: CipherAlg, key: Seq<u8>, nonce: Seq<u8>) -> Seq<u8> {
    omac_tag(alg, key, eax_tweak(spec_block_size(alg), 0) + nonce)
}

/// The header tag: the OMAC of the tweak-1 block followed by the header.
pub open spec fn eax_h(alg: CipherAlg, key: Seq<u8>, header: Seq<u8>) -> Seq<u8> {
    omac_tag(alg, key, eax_tweak(spec_block_size(alg), 1) + header)
}

/// The ciphertext tag: the OMAC of the tweak-2 block followed by the
/// ciphertext.
pub open spec fn eax_c(alg: CipherAlg, key: Seq<u8>, ct: Seq<u8>) -> Seq<u8> {
    omac_tag(alg, key, eax_tweak(spec_block_size(alg), 2) + ct)
}

/// The full-length EAX tag: the three accumulator tags folded together by
/// XOR in fixed order.
pub open spec fn eax_tag(
    alg: CipherAlg,
    key: Seq<u8>,
    nonce: Seq<u8>,
    header: Seq<u8>,
    ct: Seq<u8>,
) -> Seq<u8> {
    xor_bytes(xor_bytes(eax_n(alg, key, nonce), eax_h(alg, key, header)), eax_c(alg, key, ct))
}

/// The keystream EAX applies to message bytes, starting `from` bytes into
/// the stream seeded by the nonce tag: encryption and decryption are both
/// an XOR with this.
pub open spec fn eax_stream(
    alg: CipherAlg,
    key: Seq<u8>,
    nonce: Seq<u8>,
    from: nat,
    data: Seq<u8>,
) -> Seq<u8> {
    let st = ctr_state_after(alg, CtrEndianness::BigEndian, eax_n(alg, key, nonce), 0, from);
    ctr_process(alg, key, CtrEndianness::BigEndian, st.0, st.1, data)
}

/// Law: for a fixed cipher, key, nonce and stream position, applying the
/// EAX keystream twice gives back the message — so decrypting what
/// `encrypt` produced, from an equally positioned state, recovers the
/// plaintext.
pub proof fn lemma_eax_round_trip(
    alg: CipherAlg,
    key: Seq<u8>,
    nonce: Seq<u8>,
    from: nat,
    data: Seq<u8>,
)
    ensures
        eax_stream(alg, key, nonce, from, eax_stream(alg, key, nonce, from, data)) == data,
{
    let st = ctr_state_after(alg, CtrEndianness::BigEndian, eax_n(alg, key, nonce), 0, from);
    crate::symmetric::lemma_ctr_round_trip(alg, key, CtrEndianness::BigEndian, st.0, st.1, data);
}

/// Authenticated encryption (EAX) state.
pub struct EaxState {
    ctr: Ctr,
    comac: Omac,
    tag_n: Vec<u8>,
    tag_h: Vec<u8>,
    nonce: Ghost<Seq<u8>>,
    header: Ghost<Seq<u8>>,
}

impl EaxState {
    /// The algorithm of the underlying cipher.
    pub closed spec fn alg(self) -> CipherAlg {
        self.ctr.alg()
    }

    /// The key this state was built with.
    pub closed spec fn key(self) -> Seq<u8> {
        self.ctr.key()
    }

    /// The nonce this state was built with.
    pub closed spec fn nonce(self) -> Seq<u8> {
        self.nonce@
    }

    /// The header this state authenticates.
    pub closed spec fn header(self) -> Seq<u8> {
        self.header@
    }

    /// The ciphertext fed to the ciphertext accumulator so far.
    pub closed spec fn ct(self) -> Seq<u8> {
        self.comac.absorbed().skip(spec_block_size(self.ctr.alg()) as int)
    }

    /// Well-formed state: the three accumulators and the counter agree on
    /// cipher and key, and the counter stands exactly where processing
    /// the absorbed ciphertext left it.
    pub closed spec fn wf(self) -> bool {
        let alg = self.ctr.alg();
        let key = self.ctr.key();
        let bs = spec_block_size(alg);
        &&& self.ctr.wf()
        &&& self.comac.wf()
        &&& self.comac.spec_alg() == alg
        &&& self.comac.key() == key
        &&& good_cipher(alg, key)
        &&& self.comac.absorbed().len() >= bs
        &&& self.comac.absorbed().take(bs as int) == eax_tweak(bs, 2)
        &&& self.tag_n@ == eax_n(alg, key, self.nonce@)
        &&& self.tag_n@.len() == bs
        &&& self.tag_h@ == eax_h(alg, key, self.header@)
        &&& self.tag_h@.len() == bs
        &&& self.ctr.endianness() == CtrEndianness::BigEndian
        &&& (self.ctr.counter(), self.ctr.pos()) == ctr_state_after(
            alg,
            CtrEndianness::BigEndian,
            self.tag_n@,
            0,
            self.ct().len(),
        )
    }

    /// Create a new EAX state from a cipher, key and nonce. The optional
    /// header is public data that is authenticated but never encrypted.
    pub fn new(cipher: Cipher, key: &[u8], nonce: &[u8], header: Option<&[u8]>) -> (r: Result<
        EaxState,
        Error,
    >)
        ensures
            r is Ok <==> key_len_ok(cipher.spec_alg(), key@.len()),
            r matches Ok(s) ==> s.wf() && s.alg() == cipher.spec_alg() && s.key() == key@
                && s.nonce() == nonce@ && s.header() == (match header {
                Some(h) => h@,
                None => Seq::<u8>::empty(),
            }) && s.ct() == Seq::<u8>::empty(),
            r matches Err(e) ==> e == Error::InvalidArgument,
    {
        let ghost alg = cipher.spec_alg();
        let bs = cipher.block_size();
        let mut n_omac = match Omac::new(cipher, key) {
            Ok(o) => o,
            Err(e) => {
                return Err(e);
            }
        };
        let tweak0 = util::zero_vec(bs);
        proof {
            assert(tweak0@ =~= eax_tweak(bs as nat, 0));
        }
        let _ = n_omac.process(tweak0.as_slice());
        let _ = n_omac.process(nonce);
        proof {
            assert(n_omac.absorbed() == eax_tweak(bs as nat, 0) + nonce@);
        }
        let tag_n = match n_omac.done() {
            Ok(t) => t,
            Err(_) => {
                proof {
                    assert(false);
                }
                return Err(Error::InvalidArgument);
            }
        };
        let mut h_omac = match Omac::new(cipher, key) {
            Ok(o) => o,
            Err(_) => {
                proof {
                    assert(false);
                }
                return Err(Error::InvalidArgument);
            }
        };
        let mut tweak1 = util::zero_vec(bs);
        tweak1[bs - 1] = 1;
        proof {
            assert(tweak1@ =~= eax_tweak(bs as nat, 1));
        }
        let _ = h_omac.process(tweak1.as_slice());
        let ghost header_view = match header {
            Some(h) => h@,
            None => Seq::<u8>::empty(),
        };
        match header {
            Some(h) => {
                let _ = h_omac.process(h);
            }
            None => {}
        }
        proof {
            assert(h_omac.absorbed() == eax_tweak(bs as nat, 1) + header_view);
        }
        let tag_h = match h_omac.done() {
            Ok(t) => t,
            Err(_) => {
                proof {
                    assert(false);
                }
                return Err(Error::InvalidArgument);
            }
        };
        let ctr = match Ctr::new(cipher, tag_n.as_slice(), key, None, CtrEndianness::BigEndian) {
            Ok(c) => c,
            Err(_) => {
                proof {
                    assert(false);
                }
                return Err(Error::InvalidArgument);
            }
        };
        let mut comac = match Omac::new(cipher, key) {
            Ok(o) => o,
            Err(_) => {
                proof {
                    assert(false);
                }
                return Err(Error::InvalidArgument);
            }
        };
        let mut tweak2 = util::zero_vec(bs);
        tweak2[bs - 1] = 2;
        proof {
            assert(tweak2@ =~= eax_tweak(bs as nat, 2));
        }
        let _ = comac.process(tweak2.as_slice());
        let s = EaxState {
            ctr,
            comac,
            tag_n,
            tag_h,
            nonce: Ghost(nonce@),
            header: Ghost(header_view),
        };
        proof {
            let bsn = spec_block_size(alg);
            assert(s.comac.absorbed() == Seq::<u8>::empty() + eax_tweak(bsn, 2));
            assert(Seq::<u8>::empty() + eax_tweak(bsn, 2) =~= eax_tweak(bsn, 2));
            assert(s.comac.absorbed().take(bsn as int) =~= eax_tweak(bsn, 2));
            assert(s.ct() =~= Seq::<u8>::empty());
        }
        Ok(s)
    }

    /// Encrypt data with the CTR keystream, feeding the produced
    /// ciphertext into the ciphertext accumulator.
    pub fn encrypt(&mut self, data: &[u8]) -> (r: Result<Vec<u8>, Error>)
        requires
            old(self).wf(),
        ensures
            final(self).wf(),
            final(self).alg() == old(self).alg(),
            final(self).key() == old(self).key(),
            final(self).nonce() == old(self).nonce(),
            final(self).header() == old(self).header(),
            r is Ok,
            r matches Ok(c) ==> c@ == eax_stream(
                old(self).alg(),
                old(self).key(),
                old(self).nonce(),
                old(self).ct().len(),
                data@,
            ) && c@.len() == data@.len() && final(self).ct() == old(self).ct() + c@,
    {
        let ghost alg = self.alg();
        let ghost key = self.key();
        let ghost from = self.ct().len();
        let ct = match self.ctr.encrypt(data) {
            Ok(c) => c,
            Err(e) => {
                return Err(e);
            }
        };
        let _ = self.comac.process(ct.as_slice());
        proof {
            let bs = spec_block_size(alg) as int;
            assert(self.comac.absorbed().take(bs) =~= old(self).comac.absorbed().take(bs));
            assert(self.ct() =~= old(self).ct() + ct@);
            lemma_ctr_state_add(
                alg,
                CtrEndianness::BigEndian,
                self.tag_n@,
                0,
                from,
                ct@.len(),
            );
        }
        Ok(ct)
    }

    /// Encrypt a buffer in place.
    pub fn encrypt_in_place(&mut self, data: &mut Vec<u8>) -> (r: Result<(), Error>)
        requires
            old(self).wf(),
        ensures
            final(self).wf(),
            final(self).alg() == old(self).alg(),
            final(self).key() == old(self).key(),
            final(self).nonce() == old(self).nonce(),
            final(self).header() == old(self).header(),
            r is Ok,
            final(data)@ == eax_stream(
                old(self).alg(),
                old(self).key(),
                old(self).nonce(),
                old(self).ct().len(),
                old(data)@,
            ),
            final(self).ct() == old(self).ct() + final(data)@,
    {
        match self.encrypt(data.as_slice()) {
            Ok(c) => {
                *data = c;
                Ok(())
            }
            Err(e) => Err(e),
        }
    }

    /// Decrypt data: the input ciphertext goes into the ciphertext
    /// accumulator first, then the identical CTR keystream recovers the
    /// plaintext — so the accumulated tag matches the encrypting side for
    /// the same byte stream.
    pub fn decrypt(&mut self, data: &[u8]) -> (r: Result<Vec<u8>, Error>)
        requires
            old(self).wf(),
        ensures
            final(self).wf(),
            final(self).alg() == old(self).alg(),
            final(self).key() == old(self).key(),
            final(self).nonce() == old(self).nonce(),
            final(self).header() == old(self).header(),
            r is Ok,
            r matches Ok(p) ==> p@ == eax_stream(
                old(self).alg(),
                old(self).key(),
                old(self).nonce(),
                old(self).ct().len(),
                data@,
            ) && p@.len() == data@.len() && final(self).ct() == old(self).ct() + data@,
    {
        let ghost alg = self.alg();
        let ghost from = self.ct().len();
        let _ = self.comac.process(data);
        let pt = match self.ctr.decrypt(data) {
            Ok(p) => p,
            Err(e) => {
                return Err(e);
            }
        };
        proof {
            let bs = spec_block_size(alg) as int;
            assert(self.comac.absorbed().take(bs) =~= old(self).comac.absorbed().take(bs));
            assert(self.ct() =~= old(self).ct() + data@);
            lemma_ctr_state_add(
                alg,
                CtrEndianness::BigEndian,
                self.tag_n@,
                0,
                from,
                data@.len(),
            );
        }
        Ok(pt)
    }

    /// Decrypt a buffer in place.
    pub fn decrypt_in_place(&mut self, data: &mut Vec<u8>) -> (r: Result<(), Error>)
        requires
            old(self).wf(),
        ensures
            final(self).wf(),
            final(self).alg() == old(self).alg(),
            final(self).key() == old(self).key(),
            final(self).nonce() == old(self).nonce(),
            final(self).header() == old(self).header(),
            r is Ok,
            final(data)@ == eax_stream(
                old(self).alg(),
                old(self).key(),
                old(self).nonce(),
                old(self).ct().len(),
                old(data)@,
            ),
            final(self).ct() == old(self).ct() + old(data)@,
    {
        match self.decrypt(data.as_slice()) {
            Ok(p) => {
                *data = p;
                Ok(())
            }
            Err(e) => Err(e),
        }
    }

    /// Consume the state and produce the authentication tag, truncated to
    /// `tag_len` bytes. Asking for more than the natural tag length (one
    /// cipher block) is an `InvalidArgument` failure, never a silently
    /// short or extended tag.
    pub fn finish(self, tag_len: usize) -> (r: Result<Vec<u8>, Error>)
        requires
            self.wf(),
        ensures
            r is Ok <==> tag_len <= spec_block_size(self.alg()),
            r matches Ok(t) ==> t@ == eax_tag(
                self.alg(),
                self.key(),
                self.nonce(),
                self.header(),
                self.ct(),
            ).take(tag_len as int) && t@.len() == tag_len,
            r matches Err(e) ==> e == Error::InvalidArgument,
    {
        let ghost alg = self.alg();
        let ghost key = self.key();
        let bs = self.tag_n.len();
        if tag_len > bs {
            return Err(Error::InvalidArgument);
        }
        proof {
            let bsn = spec_block_size(alg) as int;
            let absorbed = self.comac.absorbed();
            assert(absorbed =~= absorbed.take(bsn) + absorbed.skip(bsn));
            assert(absorbed == eax_tweak(bsn as nat, 2) + self.ct());
        }
        let tag_c = match self.comac.done() {
            Ok(t) => t,
            Err(_) => {
                proof {
                    assert(false);
                }
                return Err(Error::InvalidArgument);
            }
        };
        let full = util::xor_vec(
            util::xor_vec(self.tag_n.as_slice(), self.tag_h.as_slice()).as_slice(),
            tag_c.as_slice(),
        );
        let t = util::sub_vec(full.as_slice(), 0, tag_len);
        proof {
            assert(full@.subrange(0, tag_len as int) =~= eax_tag(
                alg,
                key,
                self.nonce(),
                self.header(),
                self.ct(),
            ).take(tag_len as int));
        }
        Ok(t)
    }
}

} // verus!

//! Random generation: a catalog of pseudo-random generator algorithms and
//! a generator state. Randomness itself comes from the operating system's
//! generator, an outside collaborator: every listed algorithm reads from
//! it, and nothing is (or can be) promised of the bytes it returns. The
//! deterministic mode, MAC and AEAD engines never draw from it.

use vstd::prelude::*;

use crate::error::{Error, TomcryptError, CRYPT_ERROR};
use crate::util;

verus! {

/// The generator algorithms of the built-in catalog.
#[derive(Clone, Copy, Debug, PartialEq, Eq, Structural)]
pub enum PrngAlg {
    Sprng,
    Chacha20,
    Fortuna,
}

/// Name of an algorithm in the catalog.
pub open spec fn spec_prng_name(alg: PrngAlg) -> Seq<char> {
    match alg {
        PrngAlg::Sprng => "sprng"@,
        PrngAlg::Chacha20 => "chacha20"@,
        PrngAlg::Fortuna => "fortuna"@,
    }
}

/// A pseudo-random number generator algorithm: a handle into the built-in
/// catalog.
#[derive(Clone, Copy, Debug, PartialEq, Eq, Structural)]
pub struct PrngAlgorithm {
    alg: PrngAlg,
}

impl PrngAlgorithm {
    /// The algorithm this handle refers to.
    pub closed spec fn spec_alg(self) -> PrngAlg {
        self.alg
    }

    /// Find a generator algorithm by name. An unknown name is a normal
    /// empty result, not an error.
    pub fn find(name: &str) -> (r: Option<PrngAlgorithm>)
        ensures
            match r {
                Some(p) => name@ == spec_prng_name(p.spec_alg()),
                None => forall|alg: PrngAlg| name@ != spec_prng_name(alg),
            },
    {
        if util::str_eq(name, "sprng") {
            Some(PrngAlgorithm { alg: PrngAlg::Sprng })
        } else if util::str_eq(name, "chacha20") {
            Some(PrngAlgorithm { alg: PrngAlg::Chacha20 })
        } else if util::str_eq(name, "fortuna") {
            Some(PrngAlgorithm { alg: PrngAlg::Fortuna })
        } else {
            proof {
                assert forall|alg: PrngAlg| name@ != spec_prng_name(alg) by {
                    match alg {
                        PrngAlg::Sprng => {}
                        PrngAlg::Chacha20 => {}
                        PrngAlg::Fortuna => {}
                    }
                }
            }
            None
        }
    }

    /// Secure generator reading straight from the system generator;
    /// adding entropy to it does nothing.
    pub fn sprng() -> (r: PrngAlgorithm)
        ensures
            r.spec_alg() == PrngAlg::Sprng,
    {
        PrngAlgorithm { alg: PrngAlg::Sprng }
    }

    /// The ChaCha20-style generator handle.
    pub fn chacha20() -> (r: PrngAlgorithm)
        ensures
            r.spec_alg() == PrngAlg::Chacha20,
    {
        PrngAlgorithm { alg: PrngAlg::Chacha20 }
    }

    /// The Fortuna-style generator handle.
    pub fn fortuna() -> (r: PrngAlgorithm)
        ensures
            r.spec_alg() == PrngAlg::Fortuna,
    {
        PrngAlgorithm { alg: PrngAlg::Fortuna }
    }

    /// The name of this generator.
    pub fn name(&self) -> (r: &'static str)
        ensures
            r@ == spec_prng_name(self.spec_alg()),
    {
        match self.alg {
            PrngAlg::Sprng => "sprng",
            PrngAlg::Chacha20 => "chacha20",
            PrngAlg::Fortuna => "fortuna",
        }
    }
}

impl Default for PrngAlgorithm {
    /// The recommended default generator.
    fn default() -> (r: PrngAlgorithm)
        ensures
            r.spec_alg() == PrngAlg::Chacha20,
    {
        PrngAlgorithm { alg: PrngAlg::Chacha20 }
    }
}

/// Relies on getrandom::fill: the buffer is filled from the operating
/// system's random generator. Nothing is promised of the bytes; a system
/// failure is an empty result.
#[verifier::external_body]
fn os_random(n: usize) -> (r: Option<Vec<u8>>)
    ensures
        r matches Some(v) ==> v@.len() == n,
{
    let mut buf = vec![0u8; n];
    match getrandom::fill(&mut buf) {
        Ok(()) => Some(buf),
        Err(_) => None,
    }
}

/// A pseudo-random number generator. All catalog algorithms draw their
/// output from the system generator, which gathers entropy on its own;
/// entropy handed in through `add_entropy` is accepted and has no further
/// effect, as with the pass-through system generator. A generator other
/// than `sprng` must be made `ready` before it yields output.
pub struct Prng {
    algorithm: PrngAlgorithm,
    ready: bool,
}

impl Prng {
    /// The algorithm of this generator.
    pub closed spec fn spec_algorithm(self) -> PrngAlgorithm {
        self.algorithm
    }

    /// Whether the generator has been made ready to read from.
    pub closed spec fn is_ready(self) -> bool {
        self.ready
    }

    /// Whether reads will produce output: always for `sprng`, after
    /// `ready` otherwise.
    pub open spec fn can_read(self) -> bool {
        self.is_ready() || self.spec_algorithm().spec_alg() == PrngAlg::Sprng
    }

    /// Create a new generator using the given algorithm.
    pub fn new(algorithm: PrngAlgorithm) -> (r: Prng)
        ensures
            r.spec_algorithm() == algorithm,
            !r.is_ready(),
    {
        Prng { algorithm, ready: false }
    }

    /// The algorithm used by this generator.
    pub fn algorithm(&self) -> (r: &PrngAlgorithm)
        ensures
            *r == self.spec_algorithm(),
    {
        &self.algorithm
    }

    /// Add entropy to the generator state.
    pub fn add_entropy(&mut self, input: &[u8]) -> (r: Result<(), Error>)
        ensures
            r is Ok,
            final(self).spec_algorithm() == old(self).spec_algorithm(),
            final(self).is_ready() == old(self).is_ready(),
    {
        let _ = input;
        Ok(())
    }

    /// Make the generator ready to read from.
    pub fn ready(&mut self) -> (r: Result<(), Error>)
        ensures
            r is Ok,
            final(self).spec_algorithm() == old(self).spec_algorithm(),
            final(self).is_ready(),
    {
        self.ready = true;
        Ok(())
    }

    /// Read `n` random bytes. A generator that is not ready (and is not
    /// `sprng`) yields no bytes; a system generator failure is a
    /// primitive failure.
    pub fn read(&mut self, n: usize) -> (r: Result<Vec<u8>, Error>)
        ensures
            *final(self) == *old(self),
            r matches Ok(v) ==> v@.len() == (if old(self).can_read() {
                n as int
            } else {
                0
            }),
            r is Err ==> old(self).can_read(),
            r matches Err(e) ==> e == Error::Tomcrypt(TomcryptError { code: CRYPT_ERROR }),
    {
        let sprng = match self.algorithm.alg {
            PrngAlg::Sprng => true,
            PrngAlg::Chacha20 => false,
            PrngAlg::Fortuna => false,
        };
        if self.ready || sprng {
            match os_random(n) {
                Some(v) => Ok(v),
                None => Err(Error::from_code(CRYPT_ERROR)),
            }
        } else {
            Ok(Vec::new())
        }
    }
}

} // verus!

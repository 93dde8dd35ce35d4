//! Byte-level helpers shared by the whole library: the constant-time
//! comparator, zeroization, and XOR over byte strings.

use vstd::prelude::*;

verus! {

/// Pointwise XOR of two byte strings; the result has the length of the
/// first argument.
pub open spec fn xor_bytes(a: Seq<u8>, b: Seq<u8>) -> Seq<u8>
    recommends
        a.len() == b.len(),
{
    Seq::new(a.len(), |i: int| a[i] ^ b[i])
}

/// The all-zero byte string of length `n`.
pub open spec fn zeros(n: nat) -> Seq<u8> {
    Seq::new(n, |i: int| 0u8)
}

proof fn lemma_u8_xor_cancel(x: u8, y: u8)
    ensures
        (x ^ y) ^ y == x,
        x ^ x == 0,
{
    assert((x ^ y) ^ y == x) by (bit_vector);
    assert(x ^ x == 0) by (bit_vector);
}

/// XOR is its own inverse: masking twice with the same byte string gives
/// back the original.
pub proof fn lemma_xor_bytes_cancel(a: Seq<u8>, b: Seq<u8>)
    requires
        a.len() == b.len(),
    ensures
        xor_bytes(xor_bytes(a, b), b) == a,
{
    let l = xor_bytes(xor_bytes(a, b), b);
    assert forall|i: int| 0 <= i < a.len() implies l[i] == a[i] by {
        lemma_u8_xor_cancel(a[i], b[i]);
    }
    assert(l =~= a);
}

/// Compare two byte buffers without data-dependent short-circuiting.
///
/// A length mismatch returns `false` at once (lengths are public in this
/// threat model); otherwise every byte pair is folded into one accumulator
/// so that the time taken does not depend on where the buffers differ.
/// The result is `true` exactly for byte-identical inputs of equal length.
pub fn compare_slices(lhs: &[u8], rhs: &[u8]) -> (r: bool)
    ensures
        r == (lhs@ == rhs@),
{
    if lhs.len() != rhs.len() {
        proof {
            assert(lhs@.len() != rhs@.len());
        }
        return false;
    }
    let n: usize = lhs.len();
    let mut acc: u8 = 0;
    let mut i: usize = 0;
    while i < n
        invariant
            n == lhs@.len(),
            n == rhs@.len(),
            i <= n,
            (acc == 0) <==> (forall|j: int| 0 <= j < i ==> lhs@[j] == rhs@[j]),
        decreases n - i,
    {
        let x = lhs[i] ^ rhs[i];
        proof {
            let a0 = acc;
            let l = lhs@[i as int];
            let y = rhs@[i as int];
            assert((a0 | x) == 0 <==> (a0 == 0 && x == 0)) by (bit_vector);
            assert((l ^ y) == 0 <==> l == y) by (bit_vector);
        }
        acc = acc | x;
        i = i + 1;
    }
    proof {
        if acc == 0 {
            assert(lhs@ =~= rhs@);
        }
    }
    acc == 0
}

/// Overwrite the whole buffer with zeros, keeping its length.
pub fn zeromem_slice(x: &mut Vec<u8>)
    ensures
        final(x)@ == zeros(old(x)@.len()),
{
    let n: usize = x.len();
    let mut v: Vec<u8> = Vec::new();
    let mut i: usize = 0;
    while i < n
        invariant
            i <= n,
            v@ =~= zeros(i as nat),
        decreases n - i,
    {
        v.push(0u8);
        proof {
            assert(v@ =~= zeros((i + 1) as nat));
        }
        i = i + 1;
    }
    *x = v;
}

/// A fresh all-zero buffer of length `n`.
pub fn zero_vec(n: usize) -> (r: Vec<u8>)
    ensures
        r@ == zeros(n as nat),
{
    let mut v: Vec<u8> = Vec::new();
    let mut i: usize = 0;
    while i < n
        invariant
            i <= n,
            v@ =~= zeros(i as nat),
        decreases n - i,
    {
        v.push(0u8);
        proof {
            assert(v@ =~= zeros((i + 1) as nat));
        }
        i = i + 1;
    }
    v
}

/// Pointwise XOR of two equal-length buffers into a fresh one.
pub fn xor_vec(a: &[u8], b: &[u8]) -> (r: Vec<u8>)
    requires
        a@.len() == b@.len(),
    ensures
        r@ == xor_bytes(a@, b@),
{
    let n: usize = a.len();
    let mut v: Vec<u8> = Vec::new();
    let mut i: usize = 0;
    while i < n
        invariant
            n == a@.len(),
            n == b@.len(),
            i <= n,
            v@ =~= xor_bytes(a@, b@).take(i as int),
        decreases n - i,
    {
        v.push(a[i] ^ b[i]);
        proof {
            assert(v@ =~= xor_bytes(a@, b@).take((i + 1) as int));
        }
        i = i + 1;
    }
    proof {
        assert(v@ =~= xor_bytes(a@, b@));
    }
    v
}

/// The byte string of length `n` holding `v` at every position.
pub open spec fn rep_byte(n: nat, v: u8) -> Seq<u8> {
    Seq::new(n, |i: int| v)
}

/// XOR every byte of a buffer with one constant byte.
pub(crate) fn xor_const(a: &[u8], v: u8) -> (r: Vec<u8>)
    ensures
        r@ == xor_bytes(a@, rep_byte(a@.len(), v)),
{
    let n: usize = a.len();
    let mut out: Vec<u8> = Vec::new();
    let mut i: usize = 0;
    while i < n
        invariant
            n == a@.len(),
            i <= n,
            out@ =~= xor_bytes(a@, rep_byte(a@.len(), v)).take(i as int),
        decreases n - i,
    {
        out.push(a[i] ^ v);
        proof {
            assert(out@ =~= xor_bytes(a@, rep_byte(a@.len(), v)).take((i + 1) as int));
        }
        i = i + 1;
    }
    proof {
        assert(out@ =~= xor_bytes(a@, rep_byte(a@.len(), v)));
    }
    out
}

/// Copy the byte range `[start, end)` of a slice into a fresh buffer.
pub(crate) fn sub_vec(a: &[u8], start: usize, end: usize) -> (r: Vec<u8>)
    requires
        start <= end <= a@.len(),
    ensures
        r@ == a@.subrange(start as int, end as int),
{
    let mut v: Vec<u8> = Vec::new();
    let mut j: usize = start;
    while j < end
        invariant
            start <= j <= end <= a@.len(),
            v@ =~= a@.subrange(start as int, j as int),
        decreases end - j,
    {
        v.push(a[j]);
        proof {
            assert(v@ =~= a@.subrange(start as int, (j + 1) as int));
        }
        j = j + 1;
    }
    v
}

/// Append all bytes of `src` to `dst`.
pub(crate) fn append_vec(dst: &mut Vec<u8>, src: &[u8])
    ensures
        final(dst)@ == old(dst)@ + src@,
{
    let n: usize = src.len();
    let mut j: usize = 0;
    while j < n
        invariant
            n == src@.len(),
            j <= n,
            dst@ =~= old(dst)@ + src@.take(j as int),
        decreases n - j,
    {
        dst.push(src[j]);
        proof {
            assert(dst@ =~= old(dst)@ + src@.take((j + 1) as int));
        }
        j = j + 1;
    }
    proof {
        assert(dst@ =~= old(dst)@ + src@);
    }
}

/// Equality of two string slices, decided bytewise on their UTF-8 forms.
pub(crate) fn str_eq(a: &str, b: &str) -> (r: bool)
    ensures
        r == (a@ == b@),
{
    let r = compare_slices(a.as_bytes(), b.as_bytes());
    proof {
        if r {
            vstd::utf8::encode_utf8_decode_utf8(a@);
            vstd::utf8::encode_utf8_decode_utf8(b@);
        }
    }
    r
}

} // verus!

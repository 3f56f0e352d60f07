//! The MD5 digest used to salt login credentials, rendered as lower-case
//! hexadecimal text, as the server expects it.

use vstd::prelude::*;

verus! {

use crate::json::hex_digit;

/// The 16 bytes of the MD5 digest of `data`. The digest is a function of the
/// input alone; its definition lives in the outside crate that computes it.
pub uninterp spec fn md5_digest_of(data: Seq<u8>) -> Seq<u8>;

/// The lower-case hexadecimal rendering of a byte string, two digits a byte.
pub open spec fn hex_bytes(s: Seq<u8>) -> Seq<u8>
    decreases s.len(),
{
    if s.len() == 0 {
        Seq::empty()
    } else {
        seq![hex_digit(s[0] as int / 16), hex_digit(s[0] as int % 16)] + hex_bytes(s.skip(1))
    }
}

/// The hexadecimal text of the MD5 digest of `data`: what the protocol calls
/// the hash of a string.
pub open spec fn md5_hex(data: Seq<u8>) -> Seq<u8> {
    hex_bytes(md5_digest_of(data))
}

/// Relies on md5::compute: the MD5 digest of the input, 16 bytes, a function
/// of the input bytes alone.
#[verifier::external_body]
fn md5_digest(data: &[u8]) -> (r: Vec<u8>)
    ensures
        r@ == md5_digest_of(data@),
        r@.len() == 16,
{
    md5::compute(data).0.to_vec()
}

/// `hex_bytes` distributes over concatenation.
proof fn lemma_hex_bytes_append(a: Seq<u8>, b: Seq<u8>)
    ensures
        hex_bytes(a + b) == hex_bytes(a) + hex_bytes(b),
    decreases a.len(),
{
    if a.len() == 0 {
        assert(a + b =~= b);
        assert(hex_bytes(a) + hex_bytes(b) =~= hex_bytes(b));
    } else {
        assert((a + b)[0] == a[0]);
        assert((a + b).skip(1) =~= a.skip(1) + b);
        lemma_hex_bytes_append(a.skip(1), b);
        assert(hex_bytes(a + b) =~= hex_bytes(a) + hex_bytes(b));
    }
}

/// The lower-case hexadecimal rendering of `data`.
pub fn to_hex(data: &[u8]) -> (r: Vec<u8>)
    ensures
        r@ == hex_bytes(data@),
{
    let mut out: Vec<u8> = Vec::new();
    let mut i: usize = 0;
    while i < data.len()
        invariant
            0 <= i <= data@.len(),
            out@ == hex_bytes(data@.take(i as int)),
        decreases data@.len() - i,
    {
        let b = data[i];
        if b / 16 < 10 {
            out.push(48 + b / 16);
        } else {
            out.push(87 + b / 16);
        }
        if b % 16 < 10 {
            out.push(48 + b % 16);
        } else {
            out.push(87 + b % 16);
        }
        proof {
            assert(data@.take(i + 1) =~= data@.take(i as int) + seq![data@[i as int]]);
            lemma_hex_bytes_append(data@.take(i as int), seq![data@[i as int]]);
            assert(seq![data@[i as int]].skip(1) =~= Seq::<u8>::empty());
            assert(hex_bytes(seq![data@[i as int]].skip(1)) =~= Seq::<u8>::empty());
            assert(hex_bytes(seq![data@[i as int]]) =~= seq![
                hex_digit(data@[i as int] as int / 16),
                hex_digit(data@[i as int] as int % 16),
            ]);
            assert(out@ =~= hex_bytes(data@.take(i + 1)));
        }
        i = i + 1;
    }
    assert(data@.take(i as int) =~= data@);
    out
}

/// A byte string renders as two hexadecimal characters per byte.
proof fn lemma_hex_bytes_len(s: Seq<u8>)
    ensures
        hex_bytes(s).len() == 2 * s.len(),
    decreases s.len(),
{
    if s.len() > 0 {
        lemma_hex_bytes_len(s.skip(1));
    }
}

/// The MD5 digest of `p` as exactly 32 lower-case hexadecimal characters.
pub fn md5(p: &[u8]) -> (r: Vec<u8>)
    ensures
        r@ == md5_hex(p@),
        r@.len() == 32,
{
    let digest = md5_digest(p);
    proof {
        lemma_hex_bytes_len(digest@);
    }
    to_hex(digest.as_slice())
}

} // verus!

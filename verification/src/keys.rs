//! Field-level key encodings. Unlike value encodings these preserve order:
//! integers are fixed-width big-endian, a string in non-trailing position is
//! escape-terminated, a trailing string is its raw UTF-8 bytes.

use vstd::prelude::*;
use vstd::utf8::encode_utf8;
use crate::codec::{be_bytes, pow256, enc_be, enc_term, term_bytes, lemma_be_roundtrip};
use crate::values::lemma_pow256_vals;

verus! {

/// The key encoding of a `u128` field.
pub open spec fn ks_u128(x: u128) -> Seq<u8> {
    be_bytes(x as nat, 16)
}

/// The key encoding of a `u64` field.
pub open spec fn ks_u64(x: u64) -> Seq<u8> {
    be_bytes(x as nat, 8)
}

/// The key encoding of a `u32` field.
pub open spec fn ks_u32(x: u32) -> Seq<u8> {
    be_bytes(x as nat, 4)
}

/// The key encoding of a string field in non-trailing position.
pub open spec fn ks_str_term(s: Seq<char>) -> Seq<u8> {
    term_bytes(encode_utf8(s))
}

/// The key encoding of a trailing string field.
pub open spec fn ks_str_raw(s: Seq<char>) -> Seq<u8> {
    encode_utf8(s)
}

/// The key encoding of a trailing optional `u128` field; nothing sorts
/// before something.
pub open spec fn ks_opt_u128(o: Option<u128>) -> Seq<u8> {
    match o {
        None => seq![0u8],
        Some(x) => seq![1u8] + be_bytes(x as nat, 16),
    }
}

/// Equal fixed-width encodings come from equal values.
pub proof fn lemma_ks_fixed_injective(x: nat, y: nat, n: nat)
    requires
        x < pow256(n),
        y < pow256(n),
        be_bytes(x, n) == be_bytes(y, n),
    ensures
        x == y,
{
    lemma_be_roundtrip(x, n);
    lemma_be_roundtrip(y, n);
}

/// Append the key encoding of a `u128` field.
pub fn ke_u128(x: u128, out: &mut Vec<u8>)
    ensures
        final(out)@ == old(out)@ + ks_u128(x),
{
    proof {
        lemma_pow256_vals();
    }
    enc_be(x, 16, out);
}

/// Append the key encoding of a `u64` field.
pub fn ke_u64(x: u64, out: &mut Vec<u8>)
    ensures
        final(out)@ == old(out)@ + ks_u64(x),
{
    proof {
        lemma_pow256_vals();
    }
    enc_be(x as u128, 8, out);
}

/// Append the key encoding of a `u32` field.
pub fn ke_u32(x: u32, out: &mut Vec<u8>)
    ensures
        final(out)@ == old(out)@ + ks_u32(x),
{
    proof {
        lemma_pow256_vals();
    }
    enc_be(x as u128, 4, out);
}

/// Append the key encoding of a non-trailing string field.
pub fn ke_str_term(s: &str, out: &mut Vec<u8>)
    ensures
        final(out)@ == old(out)@ + ks_str_term(s@),
{
    enc_term(s.as_bytes(), out);
}

/// Append the key encoding of a trailing string field.
pub fn ke_str_raw(s: &str, out: &mut Vec<u8>)
    ensures
        final(out)@ == old(out)@ + ks_str_raw(s@),
{
    let b = s.as_bytes();
    let n: usize = b.len();
    let ghost pre = out@;
    let mut i: usize = 0;
    while i < n
        invariant
            0 <= i <= n,
            n == b@.len(),
            out@ == pre + b@.take(i as int),
        decreases n - i,
    {
        out.push(b[i]);
        proof {
            assert(out@ =~= pre + b@.take(i + 1));
        }
        i = i + 1;
    }
    proof {
        assert(b@.take(n as int) =~= b@);
    }
}

/// Append the key encoding of a trailing optional `u128` field.
pub fn ke_opt_u128(o: &Option<u128>, out: &mut Vec<u8>)
    ensures
        final(out)@ == old(out)@ + ks_opt_u128(*o),
{
    let ghost pre = out@;
    match o {
        None => {
            out.push(0);
            proof {
                assert(out@ =~= pre + ks_opt_u128(None));
            }
        },
        Some(x) => {
            out.push(1);
            ke_u128(*x, out);
            proof {
                assert(out@ =~= pre + ks_opt_u128(Some(*x)));
            }
        },
    }
}

} // verus!

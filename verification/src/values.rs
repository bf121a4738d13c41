//! Field-level value encodings: fixed-width integers, length-prefixed
//! byte strings, tagged options. Values need not preserve order; they need
//! only round-trip, and every decoder accepts exactly the valid encodings.

use vstd::prelude::*;
use vstd::utf8::{encode_utf8, valid_utf8, encode_utf8_valid_utf8, encode_utf8_decode_utf8};
use crate::codec::{
    be_bytes,
    be_val,
    pow256,
    enc_be,
    dec_be,
    lemma_be_bytes_len,
    lemma_be_roundtrip,
    lemma_be_val_bound,
    lemma_pow256_increases,
};

verus! {

/// The specific powers of 256 the field encoders use.
pub proof fn lemma_pow256_vals()
    ensures
        pow256(1) == 0x100,
        pow256(4) == 0x100000000,
        pow256(8) == 0x10000000000000000,
        pow256(16) == 0x100000000000000000000000000000000,
{
    reveal_with_fuel(pow256, 17);
}

/// Reading an encoding back gives the bytes themselves: the big-endian map
/// is a bijection between values and fixed-width byte strings.
pub proof fn lemma_be_bytes_of_val(s: Seq<u8>)
    ensures
        be_bytes(be_val(s), s.len()) == s,
    decreases s.len(),
{
    if s.len() > 0 {
        let d = s.drop_last();
        lemma_be_bytes_of_val(d);
        let x = be_val(s);
        lemma_be_val_bound(d);
        assert(x == 256 * be_val(d) + s.last());
        assert(x % 256 == s.last() && x / 256 == be_val(d)) by (nonlinear_arith)
            requires
                x == 256 * be_val(d) + s.last(),
                0 <= s.last() < 256,
                be_val(d) >= 0,
        ;
        lemma_be_bytes_len(x / 256, (s.len() - 1) as nat);
        assert(be_bytes(x, s.len()) =~= s);
    } else {
        assert(be_bytes(be_val(s), s.len()) =~= s);
    }
}

/// Splitting a concatenation after the first part's length recovers both.
pub proof fn lemma_concat_split(a: Seq<u8>, b: Seq<u8>)
    ensures
        (a + b).len() == a.len() + b.len(),
        (a + b).take(a.len() as int) == a,
        (a + b).skip(a.len() as int) == b,
{
    assert((a + b).take(a.len() as int) =~= a);
    assert((a + b).skip(a.len() as int) =~= b);
}

/// Consecutive subranges concatenate to the enclosing one.
pub proof fn lemma_subrange_join(s: Seq<u8>, a: int, b: int, c: int)
    requires
        0 <= a <= b <= c <= s.len(),
    ensures
        s.subrange(a, b) + s.subrange(b, c) == s.subrange(a, c),
{
    assert(s.subrange(a, b) + s.subrange(b, c) =~= s.subrange(a, c));
}

/// The encoding of a `u128` field.
pub open spec fn vs_u128(x: u128) -> Seq<u8> {
    be_bytes(x as nat, 16)
}

/// The encoding of a `u64` field.
pub open spec fn vs_u64(x: u64) -> Seq<u8> {
    be_bytes(x as nat, 8)
}

/// The encoding of a `u32` field.
pub open spec fn vs_u32(x: u32) -> Seq<u8> {
    be_bytes(x as nat, 4)
}

/// The encoding of an `i32` field, shifted into unsigned range.
pub open spec fn vs_i32(x: i32) -> Seq<u8> {
    be_bytes((x + 0x80000000) as nat, 4)
}

/// The encoding of a `bool` field.
pub open spec fn vs_bool(x: bool) -> Seq<u8> {
    if x {
        seq![1u8]
    } else {
        seq![0u8]
    }
}

/// The encoding of a byte-string field: an 8-byte length, then the bytes.
pub open spec fn vs_bytes(s: Seq<u8>) -> Seq<u8> {
    be_bytes(s.len(), 8) + s
}

/// The encoding of a string field: its UTF-8 bytes, length-prefixed.
pub open spec fn vs_str(s: Seq<char>) -> Seq<u8> {
    vs_bytes(encode_utf8(s))
}

/// The encoding of an optional field: a tag byte, then the value if any.
pub open spec fn vs_opt_str(o: Option<Seq<char>>) -> Seq<u8> {
    match o {
        None => seq![0u8],
        Some(s) => seq![1u8] + vs_str(s),
    }
}

pub open spec fn vs_opt_i32(o: Option<i32>) -> Seq<u8> {
    match o {
        None => seq![0u8],
        Some(x) => seq![1u8] + vs_i32(x),
    }
}

pub open spec fn vs_opt_u128(o: Option<u128>) -> Seq<u8> {
    match o {
        None => seq![0u8],
        Some(x) => seq![1u8] + vs_u128(x),
    }
}

/// Append the encoding of a `u128` field.
pub fn ve_u128(x: u128, out: &mut Vec<u8>)
    ensures
        final(out)@ == old(out)@ + vs_u128(x),
{
    proof {
        lemma_pow256_vals();
    }
    enc_be(x, 16, out);
}

/// Append the encoding of a `u64` field.
pub fn ve_u64(x: u64, out: &mut Vec<u8>)
    ensures
        final(out)@ == old(out)@ + vs_u64(x),
{
    proof {
        lemma_pow256_vals();
    }
    enc_be(x as u128, 8, out);
}

/// Append the encoding of a `u32` field.
pub fn ve_u32(x: u32, out: &mut Vec<u8>)
    ensures
        final(out)@ == old(out)@ + vs_u32(x),
{
    proof {
        lemma_pow256_vals();
    }
    enc_be(x as u128, 4, out);
}

/// Append the encoding of an `i32` field.
pub fn ve_i32(x: i32, out: &mut Vec<u8>)
    ensures
        final(out)@ == old(out)@ + vs_i32(x),
{
    proof {
        lemma_pow256_vals();
    }
    let shifted: u128 = ((x as i64) + 0x80000000) as u128;
    enc_be(shifted, 4, out);
}

/// Append the encoding of a `bool` field.
pub fn ve_bool(x: bool, out: &mut Vec<u8>)
    ensures
        final(out)@ == old(out)@ + vs_bool(x),
{
    let ghost pre = out@;
    if x {
        out.push(1);
    } else {
        out.push(0);
    }
    proof {
        assert(out@ =~= pre + vs_bool(x));
    }
}

/// Append the encoding of a string field.
pub fn ve_str(s: &str, out: &mut Vec<u8>)
    ensures
        final(out)@ == old(out)@ + vs_str(s@),
{
    let b = s.as_bytes();
    let n: usize = b.len();
    proof {
        lemma_pow256_vals();
        lemma_pow256_increases(8, 16);
    }
    enc_be(n as u128, 8, out);
    let ghost pre = out@;
    let mut i: usize = 0;
    while i < n
        invariant
            0 <= i <= n,
            n == b@.len(),
            out@ == pre + b@.take(i as int),
        decreases n - i,
    {
        out.push(b[i]);
        proof {
            assert(out@ =~= pre + b@.take(i + 1));
        }
        i = i + 1;
    }
    proof {
        assert(b@.take(n as int) =~= b@);
        assert(out@ =~= old(out)@ + vs_str(s@));
    }
}

/// Append the encoding of an optional string field.
pub fn ve_opt_str(o: &Option<String>, out: &mut Vec<u8>)
    ensures
        final(out)@ == old(out)@ + vs_opt_str(match *o {
            Some(ref s) => Some(s@),
            None => None,
        }),
{
    let ghost pre = out@;
    match o {
        None => {
            out.push(0);
            proof {
                assert(out@ =~= pre + vs_opt_str(None));
            }
        },
        Some(s) => {
            out.push(1);
            ve_str(s.as_str(), out);
            proof {
                assert(out@ =~= pre + vs_opt_str(Some(s@)));
            }
        },
    }
}

/// Append the encoding of an optional `i32` field.
pub fn ve_opt_i32(o: &Option<i32>, out: &mut Vec<u8>)
    ensures
        final(out)@ == old(out)@ + vs_opt_i32(*o),
{
    let ghost pre = out@;
    match o {
        None => {
            out.push(0);
            proof {
                assert(out@ =~= pre + vs_opt_i32(None));
            }
        },
        Some(x) => {
            out.push(1);
            ve_i32(*x, out);
            proof {
                assert(out@ =~= pre + vs_opt_i32(Some(*x)));
            }
        },
    }
}

/// Append the encoding of an optional `u128` field.
pub fn ve_opt_u128(o: &Option<u128>, out: &mut Vec<u8>)
    ensures
        final(out)@ == old(out)@ + vs_opt_u128(*o),
{
    let ghost pre = out@;
    match o {
        None => {
            out.push(0);
            proof {
                assert(out@ =~= pre + vs_opt_u128(None));
            }
        },
        Some(x) => {
            out.push(1);
            ve_u128(*x, out);
            proof {
                assert(out@ =~= pre + vs_opt_u128(Some(*x)));
            }
        },
    }
}


#[verifier::external_type_specification]
#[verifier::external_body]
pub struct ExFromUtf8Error(std::string::FromUtf8Error);

/// Relies on String::from_utf8: it succeeds exactly on valid UTF-8 and the
/// returned string's bytes are the input bytes.
pub assume_specification[ String::from_utf8 ](v: Vec<u8>) -> (r: Result<
    String,
    std::string::FromUtf8Error,
>)
    ensures
        r is Ok <==> valid_utf8(v@),
        r is Ok ==> encode_utf8(r.unwrap()@) == v@,
;

/// Read a fixed-width big-endian field.
pub fn dv_fixed(b: &[u8], pos: usize, n: usize) -> (r: Option<(u128, usize)>)
    requires
        n <= 16,
        pos <= b@.len(),
    ensures
        r is Some <==> pos + n <= b@.len(),
        r is Some ==> {
            &&& be_bytes(r.unwrap().0 as nat, n as nat) == b@.subrange(
                pos as int,
                pos as int + n as int,
            )
            &&& r.unwrap().1 == pos + n
            &&& (r.unwrap().0 as nat) < pow256(n as nat)
        },
        forall|x: nat, rest: Seq<u8>|
            x < pow256(n as nat) && b@.skip(pos as int) == be_bytes(x, n as nat) + rest ==> {
                &&& r is Some
                &&& (r.unwrap().0 as nat) == x
                &&& r.unwrap().1 == pos + n
            },
{
    let blen: usize = b.len();
    if blen - pos < n {
        proof {
            assert forall|x: nat, rest: Seq<u8>|
                x < pow256(n as nat) && b@.skip(pos as int) == be_bytes(x, n as nat) + rest implies
                false by {
                lemma_be_bytes_len(x, n as nat);
                assert(b@.skip(pos as int).len() == blen - pos);
            }
        }
        return None;
    }
    let (u, p2) = dec_be(b, pos, n);
    proof {
        let sub = b@.subrange(pos as int, pos as int + n as int);
        assert(sub.len() == n);
        lemma_be_val_bound(sub);
        lemma_be_bytes_of_val(sub);
        assert forall|x: nat, rest: Seq<u8>|
            x < pow256(n as nat) && b@.skip(pos as int) == be_bytes(x, n as nat) + rest implies (u
            as nat) == x by {
            lemma_be_bytes_len(x, n as nat);
            assert(sub =~= (be_bytes(x, n as nat) + rest).take(n as int));
            assert((be_bytes(x, n as nat) + rest).take(n as int) =~= be_bytes(x, n as nat));
            lemma_be_roundtrip(x, n as nat);
        }
    }
    Some((u, p2))
}

/// Read a `u128` field.
pub fn dv_u128(b: &[u8], pos: usize) -> (r: Option<(u128, usize)>)
    requires
        pos <= b@.len(),
    ensures
        r is Some <==> pos + 16 <= b@.len(),
        r is Some ==> vs_u128(r.unwrap().0) == b@.subrange(pos as int, pos as int + 16)
            && r.unwrap().1 == pos + 16,
        forall|x: u128, rest: Seq<u8>|
            b@.skip(pos as int) == vs_u128(x) + rest ==> r is Some && r.unwrap().0 == x
                && r.unwrap().1 == pos + 16,
{
    proof {
        lemma_pow256_vals();
    }
    dv_fixed(b, pos, 16)
}

/// Read a `u64` field.
pub fn dv_u64(b: &[u8], pos: usize) -> (r: Option<(u64, usize)>)
    requires
        pos <= b@.len(),
    ensures
        r is Some <==> pos + 8 <= b@.len(),
        r is Some ==> vs_u64(r.unwrap().0) == b@.subrange(pos as int, pos as int + 8)
            && r.unwrap().1 == pos + 8,
        forall|x: u64, rest: Seq<u8>|
            b@.skip(pos as int) == vs_u64(x) + rest ==> r is Some && r.unwrap().0 == x
                && r.unwrap().1 == pos + 8,
{
    proof {
        lemma_pow256_vals();
    }
    match dv_fixed(b, pos, 8) {
        Some((u, p)) => Some((u as u64, p)),
        None => None,
    }
}

/// Read a `u32` field.
pub fn dv_u32(b: &[u8], pos: usize) -> (r: Option<(u32, usize)>)
    requires
        pos <= b@.len(),
    ensures
        r is Some <==> pos + 4 <= b@.len(),
        r is Some ==> vs_u32(r.unwrap().0) == b@.subrange(pos as int, pos as int + 4)
            && r.unwrap().1 == pos + 4,
        forall|x: u32, rest: Seq<u8>|
            b@.skip(pos as int) == vs_u32(x) + rest ==> r is Some && r.unwrap().0 == x
                && r.unwrap().1 == pos + 4,
{
    proof {
        lemma_pow256_vals();
    }
    match dv_fixed(b, pos, 4) {
        Some((u, p)) => Some((u as u32, p)),
        None => None,
    }
}

/// Read an `i32` field.
pub fn dv_i32(b: &[u8], pos: usize) -> (r: Option<(i32, usize)>)
    requires
        pos <= b@.len(),
    ensures
        r is Some <==> pos + 4 <= b@.len(),
        r is Some ==> vs_i32(r.unwrap().0) == b@.subrange(pos as int, pos as int + 4)
            && r.unwrap().1 == pos + 4,
        forall|x: i32, rest: Seq<u8>|
            b@.skip(pos as int) == vs_i32(x) + rest ==> r is Some && r.unwrap().0 == x
                && r.unwrap().1 == pos + 4,
{
    proof {
        lemma_pow256_vals();
    }
    match dv_fixed(b, pos, 4) {
        Some((u, p)) => {
            let x: i32 = ((u as i64) - 0x80000000) as i32;
            proof {
                assert((x + 0x80000000) as nat == u as nat);
            }
            Some((x, p))
        },
        None => None,
    }
}

/// Read a `bool` field; only the canonical tags are accepted.
pub fn dv_bool(b: &[u8], pos: usize) -> (r: Option<(bool, usize)>)
    requires
        pos <= b@.len(),
    ensures
        r is Some <==> (pos < b@.len() && (b@[pos as int] == 0 || b@[pos as int] == 1)),
        r is Some ==> vs_bool(r.unwrap().0) == b@.subrange(pos as int, pos as int + 1)
            && r.unwrap().1 == pos + 1,
        forall|x: bool, rest: Seq<u8>|
            b@.skip(pos as int) == vs_bool(x) + rest ==> r is Some && r.unwrap().0 == x
                && r.unwrap().1 == pos + 1,
{
    let blen: usize = b.len();
    if pos >= blen {
        proof {
            assert forall|x: bool, rest: Seq<u8>|
                b@.skip(pos as int) == vs_bool(x) + rest implies false by {
                assert(b@.skip(pos as int).len() == 0);
            }
        }
        return None;
    }
    let c: u8 = b[pos];
    proof {
        assert(b@.skip(pos as int)[0] == c);
        assert(b@.subrange(pos as int, pos as int + 1) =~= seq![c]);
    }
    if c == 0 {
        proof {
            assert(vs_bool(false) =~= b@.subrange(pos as int, pos as int + 1));
        }
        Some((false, pos + 1))
    } else if c == 1 {
        proof {
            assert(vs_bool(true) =~= b@.subrange(pos as int, pos as int + 1));
        }
        Some((true, pos + 1))
    } else {
        proof {
            assert forall|x: bool, rest: Seq<u8>|
                b@.skip(pos as int) == vs_bool(x) + rest implies false by {
                assert((vs_bool(x) + rest)[0] == vs_bool(x)[0]);
            }
        }
        None
    }
}

/// Read a length-prefixed byte-string field.
pub fn dv_bytes(b: &[u8], pos: usize) -> (r: Option<(Vec<u8>, usize)>)
    requires
        pos <= b@.len(),
    ensures
        r is Some ==> {
            &&& pos <= r.unwrap().1 <= b@.len()
            &&& vs_bytes(r.unwrap().0@) == b@.subrange(pos as int, r.unwrap().1 as int)
        },
        forall|s: Seq<u8>, rest: Seq<u8>|
            b@.skip(pos as int) == vs_bytes(s) + rest ==> r is Some && r.unwrap().0@ == s
                && r.unwrap().1 == pos + 8 + s.len(),
{
    proof {
        lemma_pow256_vals();
    }
    let blen: usize = b.len();
    match dv_fixed(b, pos, 8) {
        Some((lenv, p1)) => {
            if ((blen - p1) as u128) < lenv {
                proof {
                    assert forall|s: Seq<u8>, rest: Seq<u8>|
                        b@.skip(pos as int) == vs_bytes(s) + rest implies false by {
                        lemma_be_bytes_len(s.len(), 8);
                        lemma_concat_split(be_bytes(s.len(), 8), s);
                        assert(b@.skip(pos as int) == (be_bytes(s.len(), 8) + s) + rest);
                        assert(((be_bytes(s.len(), 8) + s) + rest).take(8) =~= be_bytes(
                            s.len(),
                            8,
                        ));
                        assert(b@.subrange(pos as int, pos as int + 8) =~= b@.skip(
                            pos as int,
                        ).take(8));
                        assert(b@.skip(pos as int).len() == blen - pos);
                        assert(s.len() <= blen);
                        lemma_pow256_vals();
                        lemma_be_roundtrip(s.len(), 8);
                        lemma_be_roundtrip(lenv as nat, 8);
                        assert(lenv as nat == s.len());
                        assert(b@.skip(pos as int).len() >= 8 + s.len());
                    }
                }
                return None;
            }
            let l: usize = lenv as usize;
            let mut v: Vec<u8> = Vec::new();
            let mut i: usize = 0;
            while i < l
                invariant
                    0 <= i <= l,
                    p1 + l <= blen,
                    blen == b@.len(),
                    v@ == b@.subrange(p1 as int, p1 as int + i as int),
                decreases l - i,
            {
                v.push(b[p1 + i]);
                proof {
                    assert(v@ =~= b@.subrange(p1 as int, p1 as int + i + 1));
                }
                i = i + 1;
            }
            proof {
                assert(v@.len() == l);
                lemma_subrange_join(b@, pos as int, p1 as int, p1 as int + l as int);
                assert(vs_bytes(v@) =~= b@.subrange(pos as int, (p1 + l) as int));
                assert forall|s: Seq<u8>, rest: Seq<u8>|
                    b@.skip(pos as int) == vs_bytes(s) + rest implies v@ == s && p1 + l == pos + 8
                    + s.len() by {
                    lemma_be_bytes_len(s.len(), 8);
                    lemma_concat_split(be_bytes(s.len(), 8), s);
                    assert(b@.skip(pos as int) == (be_bytes(s.len(), 8) + s) + rest);
                    assert(((be_bytes(s.len(), 8) + s) + rest).take(8) =~= be_bytes(s.len(), 8));
                    assert(b@.subrange(pos as int, pos as int + 8) =~= b@.skip(pos as int).take(
                        8,
                    ));
                    assert(b@.skip(pos as int).len() == blen - pos);
                    assert(s.len() <= blen);
                    lemma_pow256_vals();
                    lemma_be_roundtrip(s.len(), 8);
                    lemma_be_roundtrip(lenv as nat, 8);
                    assert(lenv as nat == s.len());
                    assert(v@ =~= s) by {
                        assert forall|q: int| 0 <= q < s.len() implies v@[q] == s[q] by {
                            assert(v@[q] == b@[p1 + q]);
                            assert(b@[p1 + q] == b@.skip(pos as int)[8 + q]);
                            assert(((be_bytes(s.len(), 8) + s) + rest)[8 + q] == s[q]);
                        }
                    }
                }
            }
            Some((v, p1 + l))
        },
        None => {
            proof {
                assert forall|s: Seq<u8>, rest: Seq<u8>|
                    b@.skip(pos as int) == vs_bytes(s) + rest implies false by {
                    lemma_be_bytes_len(s.len(), 8);
                    assert(b@.skip(pos as int).len() >= 8);
                }
            }
            None
        },
    }
}

/// Read a string field.
pub fn dv_str(b: &[u8], pos: usize) -> (r: Option<(String, usize)>)
    requires
        pos <= b@.len(),
    ensures
        r is Some ==> {
            &&& pos <= r.unwrap().1 <= b@.len()
            &&& vs_str(r.unwrap().0@) == b@.subrange(pos as int, r.unwrap().1 as int)
        },
        forall|sm: Seq<char>, rest: Seq<u8>|
            b@.skip(pos as int) == vs_str(sm) + rest ==> r is Some && r.unwrap().0@ == sm
                && r.unwrap().1 == pos + 8 + encode_utf8(sm).len(),
{
    match dv_bytes(b, pos) {
        Some((bytes, p)) => {
            let ghost bm = bytes@;
            let parsed = String::from_utf8(bytes);
            match parsed {
                Ok(st) => {
                    proof {
                        assert forall|sm: Seq<char>, rest: Seq<u8>|
                            b@.skip(pos as int) == vs_str(sm) + rest implies st@ == sm by {
                            assert(bm == encode_utf8(sm));
                            encode_utf8_decode_utf8(sm);
                            encode_utf8_decode_utf8(st@);
                        }
                    }
                    Some((st, p))
                },
                Err(_) => {
                    proof {
                        assert forall|sm: Seq<char>, rest: Seq<u8>|
                            b@.skip(pos as int) == vs_str(sm) + rest implies false by {
                            assert(bm == encode_utf8(sm));
                            encode_utf8_valid_utf8(sm);
                        }
                    }
                    None
                },
            }
        },
        None => None,
    }
}

/// Read an optional string field.
pub fn dv_opt_str(b: &[u8], pos: usize) -> (r: Option<(Option<String>, usize)>)
    requires
        pos <= b@.len(),
    ensures
        r is Some ==> {
            &&& pos <= r.unwrap().1 <= b@.len()
            &&& vs_opt_str(match r.unwrap().0 {
                Some(ref s) => Some(s@),
                None => None,
            }) == b@.subrange(pos as int, r.unwrap().1 as int)
        },
        forall|om: Option<Seq<char>>, rest: Seq<u8>|
            b@.skip(pos as int) == vs_opt_str(om) + rest ==> r is Some && (match r.unwrap().0 {
                Some(ref s) => Some(s@),
                None => None,
            }) == om && r.unwrap().1 == pos + vs_opt_str(om).len(),
{
    let blen: usize = b.len();
    if pos >= blen {
        proof {
            assert forall|om: Option<Seq<char>>, rest: Seq<u8>|
                b@.skip(pos as int) == vs_opt_str(om) + rest implies false by {
                assert(b@.skip(pos as int).len() == 0);
                assert(vs_opt_str(om).len() >= 1);
            }
        }
        return None;
    }
    let c: u8 = b[pos];
    proof {
        assert(b@.skip(pos as int)[0] == c);
    }
    if c == 0 {
        proof {
            assert(vs_opt_str(None) =~= b@.subrange(pos as int, pos as int + 1));
            assert forall|om: Option<Seq<char>>, rest: Seq<u8>|
                b@.skip(pos as int) == vs_opt_str(om) + rest implies om is None by {
                assert((vs_opt_str(om) + rest)[0] == vs_opt_str(om)[0]);
                if om is Some {
                    assert(vs_opt_str(om)[0] == 1);
                }
            }
        }
        Some((None, pos + 1))
    } else if c == 1 {
        let inner = dv_str(b, pos + 1);
        proof {
            assert forall|om: Option<Seq<char>>, rest: Seq<u8>|
                b@.skip(pos as int) == vs_opt_str(om) + rest implies om is Some && b@.skip(
                pos as int + 1,
            ) == vs_str(om.unwrap()) + rest by {
                assert((vs_opt_str(om) + rest)[0] == vs_opt_str(om)[0]);
                if om is None {
                    assert(vs_opt_str(om)[0] == 0);
                }
                assert(vs_opt_str(om) == seq![1u8] + vs_str(om.unwrap()));
                assert(b@.skip(pos as int).skip(1) =~= b@.skip(pos as int + 1));
                assert((seq![1u8] + vs_str(om.unwrap()) + rest).skip(1) =~= vs_str(om.unwrap())
                    + rest);
                assert(b@.skip(pos as int) == (seq![1u8] + vs_str(om.unwrap())) + rest);
                assert(((seq![1u8] + vs_str(om.unwrap())) + rest).skip(1) =~= vs_str(om.unwrap())
                    + rest);
            }
        }
        match inner {
            Some((st, p)) => {
                proof {
                    assert(seq![1u8] + vs_str(st@) =~= b@.subrange(pos as int, p as int)) by {
                        assert(vs_str(st@) == b@.subrange(pos as int + 1, p as int));
                        assert(b@.subrange(pos as int, pos as int + 1) =~= seq![c]);
                        lemma_subrange_join(b@, pos as int, pos as int + 1, p as int);
                    }
                }
                Some((Some(st), p))
            },
            None => None,
        }
    } else {
        proof {
            assert forall|om: Option<Seq<char>>, rest: Seq<u8>|
                b@.skip(pos as int) == vs_opt_str(om) + rest implies false by {
                assert((vs_opt_str(om) + rest)[0] == vs_opt_str(om)[0]);
                if om is Some {
                    assert(vs_opt_str(om)[0] == 1);
                } else {
                    assert(vs_opt_str(om)[0] == 0);
                }
            }
        }
        None
    }
}

/// Read an optional `i32` field.
pub fn dv_opt_i32(b: &[u8], pos: usize) -> (r: Option<(Option<i32>, usize)>)
    requires
        pos <= b@.len(),
    ensures
        r is Some ==> {
            &&& pos <= r.unwrap().1 <= b@.len()
            &&& vs_opt_i32(r.unwrap().0) == b@.subrange(pos as int, r.unwrap().1 as int)
        },
        forall|om: Option<i32>, rest: Seq<u8>|
            b@.skip(pos as int) == vs_opt_i32(om) + rest ==> r is Some && r.unwrap().0 == om
                && r.unwrap().1 == pos + vs_opt_i32(om).len(),
{
    let blen: usize = b.len();
    if pos >= blen {
        proof {
            assert forall|om: Option<i32>, rest: Seq<u8>|
                b@.skip(pos as int) == vs_opt_i32(om) + rest implies false by {
                assert(b@.skip(pos as int).len() == 0);
                assert(vs_opt_i32(om).len() >= 1);
            }
        }
        return None;
    }
    let c: u8 = b[pos];
    proof {
        assert(b@.skip(pos as int)[0] == c);
    }
    if c == 0 {
        proof {
            assert(vs_opt_i32(None) =~= b@.subrange(pos as int, pos as int + 1));
            assert forall|om: Option<i32>, rest: Seq<u8>|
                b@.skip(pos as int) == vs_opt_i32(om) + rest implies om is None by {
                assert((vs_opt_i32(om) + rest)[0] == vs_opt_i32(om)[0]);
                if om is Some {
                    assert(vs_opt_i32(om)[0] == 1);
                }
            }
        }
        Some((None, pos + 1))
    } else if c == 1 {
        let inner = dv_i32(b, pos + 1);
        proof {
            assert forall|om: Option<i32>, rest: Seq<u8>|
                b@.skip(pos as int) == vs_opt_i32(om) + rest implies om is Some && b@.skip(
                pos as int + 1,
            ) == vs_i32(om.unwrap()) + rest by {
                assert((vs_opt_i32(om) + rest)[0] == vs_opt_i32(om)[0]);
                if om is None {
                    assert(vs_opt_i32(om)[0] == 0);
                }
                assert(b@.skip(pos as int).skip(1) =~= b@.skip(pos as int + 1));
                assert(b@.skip(pos as int) == (seq![1u8] + vs_i32(om.unwrap())) + rest);
                assert(((seq![1u8] + vs_i32(om.unwrap())) + rest).skip(1) =~= vs_i32(om.unwrap())
                    + rest);
            }
            lemma_pow256_vals();
        }
        match inner {
            Some((x, p)) => {
                proof {
                    assert(seq![1u8] + vs_i32(x) =~= b@.subrange(pos as int, p as int)) by {
                        assert(vs_i32(x) == b@.subrange(pos as int + 1, p as int));
                        assert(b@.subrange(pos as int, pos as int + 1) =~= seq![c]);
                        lemma_subrange_join(b@, pos as int, pos as int + 1, p as int);
                    }
                    lemma_be_bytes_len(0, 4);
                    assert forall|om: Option<i32>, rest: Seq<u8>|
                        b@.skip(pos as int) == vs_opt_i32(om) + rest implies vs_opt_i32(om).len()
                        == 5 by {
                        lemma_be_bytes_len((om.unwrap() + 0x80000000) as nat, 4);
                    }
                }
                Some((Some(x), p))
            },
            None => None,
        }
    } else {
        proof {
            assert forall|om: Option<i32>, rest: Seq<u8>|
                b@.skip(pos as int) == vs_opt_i32(om) + rest implies false by {
                assert((vs_opt_i32(om) + rest)[0] == vs_opt_i32(om)[0]);
                if om is Some {
                    assert(vs_opt_i32(om)[0] == 1);
                } else {
                    assert(vs_opt_i32(om)[0] == 0);
                }
            }
        }
        None
    }
}

/// Read an optional `u128` field.
pub fn dv_opt_u128(b: &[u8], pos: usize) -> (r: Option<(Option<u128>, usize)>)
    requires
        pos <= b@.len(),
    ensures
        r is Some ==> {
            &&& pos <= r.unwrap().1 <= b@.len()
            &&& vs_opt_u128(r.unwrap().0) == b@.subrange(pos as int, r.unwrap().1 as int)
        },
        forall|om: Option<u128>, rest: Seq<u8>|
            b@.skip(pos as int) == vs_opt_u128(om) + rest ==> r is Some && r.unwrap().0 == om
                && r.unwrap().1 == pos + vs_opt_u128(om).len(),
{
    let blen: usize = b.len();
    if pos >= blen {
        proof {
            assert forall|om: Option<u128>, rest: Seq<u8>|
                b@.skip(pos as int) == vs_opt_u128(om) + rest implies false by {
                assert(b@.skip(pos as int).len() == 0);
                assert(vs_opt_u128(om).len() >= 1);
            }
        }
        return None;
    }
    let c: u8 = b[pos];
    proof {
        assert(b@.skip(pos as int)[0] == c);
    }
    if c == 0 {
        proof {
            assert(vs_opt_u128(None) =~= b@.subrange(pos as int, pos as int + 1));
            assert forall|om: Option<u128>, rest: Seq<u8>|
                b@.skip(pos as int) == vs_opt_u128(om) + rest implies om is None by {
                assert((vs_opt_u128(om) + rest)[0] == vs_opt_u128(om)[0]);
                if om is Some {
                    assert(vs_opt_u128(om)[0] == 1);
                }
            }
        }
        Some((None, pos + 1))
    } else if c == 1 {
        let inner = dv_u128(b, pos + 1);
        proof {
            assert forall|om: Option<u128>, rest: Seq<u8>|
                b@.skip(pos as int) == vs_opt_u128(om) + rest implies om is Some && b@.skip(
                pos as int + 1,
            ) == vs_u128(om.unwrap()) + rest by {
                assert((vs_opt_u128(om) + rest)[0] == vs_opt_u128(om)[0]);
                if om is None {
                    assert(vs_opt_u128(om)[0] == 0);
                }
                assert(b@.skip(pos as int).skip(1) =~= b@.skip(pos as int + 1));
                assert(b@.skip(pos as int) == (seq![1u8] + vs_u128(om.unwrap())) + rest);
                assert(((seq![1u8] + vs_u128(om.unwrap())) + rest).skip(1) =~= vs_u128(om.unwrap())
                    + rest);
            }
            lemma_pow256_vals();
        }
        match inner {
            Some((x, p)) => {
                proof {
                    assert(seq![1u8] + vs_u128(x) =~= b@.subrange(pos as int, p as int)) by {
                        assert(vs_u128(x) == b@.subrange(pos as int + 1, p as int));
                        assert(b@.subrange(pos as int, pos as int + 1) =~= seq![c]);
                        lemma_subrange_join(b@, pos as int, pos as int + 1, p as int);
                    }
                    assert forall|om: Option<u128>, rest: Seq<u8>|
                        b@.skip(pos as int) == vs_opt_u128(om) + rest implies vs_opt_u128(om).len()
                        == 17 by {
                        lemma_be_bytes_len(om.unwrap() as nat, 16);
                    }
                }
                Some((Some(x), p))
            },
            None => None,
        }
    } else {
        proof {
            assert forall|om: Option<u128>, rest: Seq<u8>|
                b@.skip(pos as int) == vs_opt_u128(om) + rest implies false by {
                assert((vs_opt_u128(om) + rest)[0] == vs_opt_u128(om)[0]);
                if om is Some {
                    assert(vs_opt_u128(om)[0] == 1);
                } else {
                    assert(vs_opt_u128(om)[0] == 0);
                }
            }
        }
        None
    }
}
} // verus!

//! Order-preserving key encodings and round-tripping value encodings.
//!
//! Keys are encoded so that the lexicographic order of the encodings equals
//! the semantic order of the keys: fixed-width big-endian bytes for unsigned
//! integers, escape-terminated bytes for strings in non-trailing position,
//! raw bytes for a trailing string.

use vstd::prelude::*;
use vstd::arithmetic::div_mod::{
    lemma_fundamental_div_mod,
    lemma_div_is_ordered,
    lemma_multiply_divide_lt,
    lemma_mod_bound,
    lemma_div_denominator,
};
use crate::lex::{lex_lt, lemma_lex_lt_from_diff, lemma_lex_prepend};

verus! {

/// 256 to the power `n`: the number of distinct `n`-byte strings.
pub open spec fn pow256(n: nat) -> nat
    decreases n,
{
    if n == 0 {
        1
    } else {
        256 * pow256((n - 1) as nat)
    }
}

pub proof fn lemma_pow256_pos(n: nat)
    ensures
        pow256(n) >= 1,
    decreases n,
{
    if n > 0 {
        lemma_pow256_pos((n - 1) as nat);
    }
}

pub proof fn lemma_pow256_increases(i: nat, j: nat)
    requires
        i <= j,
    ensures
        pow256(i) <= pow256(j),
    decreases j,
{
    if i < j {
        lemma_pow256_increases(i, (j - 1) as nat);
        lemma_pow256_pos((j - 1) as nat);
    }
}

/// The largest powers of 256 a `u128` can hold.
pub proof fn lemma_pow256_fits()
    ensures
        pow256(15) == 0x1000000000000000000000000000000,
        pow256(16) == 0x100000000000000000000000000000000,
{
    reveal_with_fuel(pow256, 17);
}

/// The fixed-width big-endian encoding of `x` in `n` bytes: the most
/// significant byte comes first, so byte order equals numeric order.
pub open spec fn be_bytes(x: nat, n: nat) -> Seq<u8>
    decreases n,
{
    if n == 0 {
        Seq::empty()
    } else {
        be_bytes(x / 256, (n - 1) as nat).push((x % 256) as u8)
    }
}

/// The value a big-endian byte string denotes.
pub open spec fn be_val(s: Seq<u8>) -> nat
    decreases s.len(),
{
    if s.len() == 0 {
        0
    } else {
        (256 * be_val(s.drop_last()) + s.last()) as nat
    }
}

pub proof fn lemma_be_bytes_len(x: nat, n: nat)
    ensures
        be_bytes(x, n).len() == n,
    decreases n,
{
    if n > 0 {
        lemma_be_bytes_len(x / 256, (n - 1) as nat);
    }
}

/// Reading an encoding back yields the encoded value: nothing is lost.
pub proof fn lemma_be_roundtrip(x: nat, n: nat)
    requires
        x < pow256(n),
    ensures
        be_val(be_bytes(x, n)) == x,
    decreases n,
{
    if n > 0 {
        let m = (n - 1) as nat;
        lemma_pow256_pos(m);
        lemma_multiply_divide_lt(x as int, 256, pow256(m) as int);
        lemma_be_roundtrip(x / 256, m);
        lemma_be_bytes_len(x / 256, m);
        let s = be_bytes(x, n);
        assert(s.drop_last() =~= be_bytes(x / 256, m));
        assert(s.last() == (x % 256) as u8);
        lemma_mod_bound(x as int, 256);
        lemma_fundamental_div_mod(x as int, 256);
    }
}

/// Appending a byte multiplies the value by 256 and adds the byte.
pub proof fn lemma_be_val_push(s: Seq<u8>, c: u8)
    ensures
        be_val(s.push(c)) == 256 * be_val(s) + c,
{
    assert(s.push(c).drop_last() =~= s);
    assert(s.push(c).last() == c);
}

/// Every `n`-byte string denotes a value below `pow256(n)`.
pub proof fn lemma_be_val_bound(s: Seq<u8>)
    ensures
        be_val(s) < pow256(s.len()),
    decreases s.len(),
{
    if s.len() > 0 {
        lemma_be_val_bound(s.drop_last());
        let m = (s.len() - 1) as nat;
        assert(256 * be_val(s.drop_last()) + s.last() < 256 * pow256(m)) by (nonlinear_arith)
            requires
                be_val(s.drop_last()) < pow256(m),
                s.last() < 256,
        ;
    }
}

/// With equal lengths, a strict prefix comparison survives any suffixes.
pub proof fn lemma_lex_append_lt(a: Seq<u8>, b: Seq<u8>, u: Seq<u8>, v: Seq<u8>)
    requires
        a.len() == b.len(),
        lex_lt(a, b),
    ensures
        lex_lt(a + u, b + v),
    decreases a.len(),
{
    if a.len() > 0 {
        assert((a + u).len() != 0);
        assert((b + v).len() != 0);
        assert((a + u)[0] == a[0]);
        assert((b + v)[0] == b[0]);
        if a[0] == b[0] {
            lemma_lex_append_lt(a.skip(1), b.skip(1), u, v);
            assert((a + u).skip(1) =~= a.skip(1) + u);
            assert((b + v).skip(1) =~= b.skip(1) + v);
        }
    }
}

/// Big-endian encodings of equal width compare as the values do.
pub proof fn lemma_be_order(x: nat, y: nat, n: nat)
    requires
        x < y,
        y < pow256(n),
    ensures
        lex_lt(be_bytes(x, n), be_bytes(y, n)),
    decreases n,
{
    if n == 0 {
        assert(false);
    } else {
        let m = (n - 1) as nat;
        lemma_pow256_pos(m);
        lemma_multiply_divide_lt(x as int, 256, pow256(m) as int);
        lemma_multiply_divide_lt(y as int, 256, pow256(m) as int);
        lemma_be_bytes_len(x / 256, m);
        lemma_be_bytes_len(y / 256, m);
        lemma_be_bytes_len(x, n);
        lemma_be_bytes_len(y, n);
        let px = be_bytes(x / 256, m);
        let py = be_bytes(y / 256, m);
        let sx = be_bytes(x, n);
        let sy = be_bytes(y, n);
        lemma_div_is_ordered(x as int, y as int, 256);
        if x / 256 < y / 256 {
            lemma_be_order(x / 256, y / 256, m);
            assert(sx =~= px + seq![(x % 256) as u8]);
            assert(sy =~= py + seq![(y % 256) as u8]);
            lemma_lex_append_lt(px, py, seq![(x % 256) as u8], seq![(y % 256) as u8]);
        } else {
            assert(x / 256 == y / 256);
            lemma_fundamental_div_mod(x as int, 256);
            lemma_fundamental_div_mod(y as int, 256);
            assert(x % 256 < y % 256);
            assert(forall|j: int| 0 <= j < m ==> sx[j] == px[j] && sy[j] == py[j]);
            assert(sx[n - 1] == (x % 256) as u8);
            assert(sy[n - 1] == (y % 256) as u8);
            lemma_lex_lt_from_diff(sx, sy, n as int - 1);
        }
    }
}

/// Each output byte is a base-256 digit of the value.
pub proof fn lemma_be_bytes_index(x: nat, n: nat, i: int)
    requires
        0 <= i < n,
    ensures
        be_bytes(x, n)[i] == ((x / pow256((n - 1 - i) as nat)) % 256) as u8,
    decreases n,
{
    let m = (n - 1) as nat;
    lemma_be_bytes_len(x / 256, m);
    if i == n - 1 {
        assert(pow256(0) == 1);
        assert(x / 1 == x) by (nonlinear_arith);
        assert(be_bytes(x, n)[i] == (x % 256) as u8);
    } else {
        lemma_be_bytes_index(x / 256, m, i);
        let k = (m - 1 - i) as nat;
        lemma_pow256_pos(k);
        lemma_div_denominator(x as int, 256, pow256(k) as int);
        assert(256 * pow256(k) == pow256((k + 1) as nat));
        assert(be_bytes(x, n)[i] == be_bytes(x / 256, m)[i]);
    }
}

/// 256 to the power `n`, as a machine word.
pub fn pow256_exec(n: usize) -> (r: u128)
    requires
        n <= 15,
    ensures
        r as nat == pow256(n as nat),
{
    let mut r: u128 = 1;
    let mut i: usize = 0;
    while i < n
        invariant
            0 <= i <= n <= 15,
            r as nat == pow256(i as nat),
        decreases n - i,
    {
        proof {
            lemma_pow256_increases((i + 1) as nat, 15);
            lemma_pow256_fits();
        }
        r = r * 256;
        i = i + 1;
    }
    r
}

/// Append the `n`-byte big-endian encoding of `x` to `out`.
pub fn enc_be(x: u128, n: usize, out: &mut Vec<u8>)
    requires
        n <= 16,
        (x as nat) < pow256(n as nat),
    ensures
        final(out)@ == old(out)@ + be_bytes(x as nat, n as nat),
{
    let ghost s = be_bytes(x as nat, n as nat);
    let ghost orig = out@;
    proof {
        lemma_be_bytes_len(x as nat, n as nat);
        assert(out@ =~= orig + s.take(0));
    }
    let mut i: usize = 0;
    while i < n
        invariant
            0 <= i <= n <= 16,
            (x as nat) < pow256(n as nat),
            s == be_bytes(x as nat, n as nat),
            s.len() == n,
            out@ == orig + s.take(i as int),
        decreases n - i,
    {
        let sh: usize = n - 1 - i;
        let p: u128 = pow256_exec(sh);
        proof {
            lemma_pow256_pos(sh as nat);
            lemma_be_bytes_index(x as nat, n as nat, i as int);
            lemma_mod_bound((x as nat / pow256(sh as nat)) as int, 256);
        }
        let byte: u8 = ((x / p) % 256) as u8;
        out.push(byte);
        proof {
            assert(s.take(i + 1) =~= s.take(i as int).push(s[i as int]));
            assert(out@ =~= orig + s.take(i + 1));
        }
        i = i + 1;
    }
    proof {
        assert(s.take(n as int) =~= s);
    }
}

/// The escaped form of one byte: 0x00 and 0x01 are written as two-byte pairs
/// led by 0x01, so an escaped stream never holds a bare 0x00.
pub open spec fn esc_byte(b: u8) -> Seq<u8> {
    if b == 0 {
        seq![1u8, 2u8]
    } else if b == 1 {
        seq![1u8, 3u8]
    } else {
        seq![b]
    }
}

/// The escaped form of a byte string.
pub open spec fn esc(s: Seq<u8>) -> Seq<u8>
    decreases s.len(),
{
    if s.len() == 0 {
        Seq::empty()
    } else {
        esc_byte(s[0]) + esc(s.skip(1))
    }
}

/// The encoding of a string field in non-trailing key position: escaped
/// bytes closed by a 0x00 terminator, so that field boundaries are
/// unambiguous and shorter strings sort first.
pub open spec fn term_bytes(s: Seq<u8>) -> Seq<u8> {
    esc(s) + seq![0u8]
}

pub proof fn lemma_esc_push(s: Seq<u8>, c: u8)
    ensures
        esc(s.push(c)) == esc(s) + esc_byte(c),
    decreases s.len(),
{
    if s.len() == 0 {
        assert(esc(s) == Seq::<u8>::empty());
        assert(s.push(c)[0] == c);
        assert(s.push(c).skip(1) =~= Seq::<u8>::empty());
        assert(esc(s.push(c).skip(1)) == Seq::<u8>::empty());
        assert(esc(s.push(c)) == esc_byte(s.push(c)[0]) + esc(s.push(c).skip(1)));
        assert(esc(s.push(c)) =~= esc(s) + esc_byte(c));
    } else {
        assert(s.push(c)[0] == s[0]);
        assert(s.push(c).skip(1) =~= s.skip(1).push(c));
        lemma_esc_push(s.skip(1), c);
        assert(esc(s.skip(1).push(c)) == esc(s.skip(1)) + esc_byte(c));
        assert(esc(s.push(c)) == esc_byte(s.push(c)[0]) + esc(s.push(c).skip(1)));
        assert(esc(s) == esc_byte(s[0]) + esc(s.skip(1)));
        assert(esc(s.push(c)) =~= esc(s) + esc_byte(c));
    }
}

/// Escape-terminated fields order their keys: the raw byte order of the
/// strings decides, whatever follows each terminator.
pub proof fn lemma_term_order(a: Seq<u8>, b: Seq<u8>, u: Seq<u8>, v: Seq<u8>)
    requires
        lex_lt(a, b),
    ensures
        lex_lt(term_bytes(a) + u, term_bytes(b) + v),
    decreases a.len(),
{
    let la = term_bytes(a) + u;
    let lb = term_bytes(b) + v;
    if a.len() == 0 {
        assert(la[0] == 0u8);
        assert(lb[0] == esc_byte(b[0])[0]);
        assert(esc_byte(b[0])[0] >= 1);
        lemma_lex_lt_from_diff(la, lb, 0);
    } else if a[0] == b[0] {
        lemma_term_order(a.skip(1), b.skip(1), u, v);
        let h = esc_byte(a[0]);
        lemma_lex_prepend(h, term_bytes(a.skip(1)) + u, term_bytes(b.skip(1)) + v);
        assert(la =~= h + (term_bytes(a.skip(1)) + u));
        assert(lb =~= h + (term_bytes(b.skip(1)) + v));
    } else {
        assert(a[0] < b[0]);
        if a[0] == 0 && b[0] == 1 {
            assert(la[0] == 1u8 && la[1] == 2u8);
            assert(lb[0] == 1u8 && lb[1] == 3u8);
            lemma_lex_lt_from_diff(la, lb, 1);
        } else {
            assert(b[0] >= 2);
            assert(la[0] == esc_byte(a[0])[0]);
            assert(lb[0] == b[0]);
            assert(la[0] < lb[0]);
            lemma_lex_lt_from_diff(la, lb, 0);
        }
    }
}

/// What an escaped stream decodes to: the recovered bytes and how many
/// encoded bytes the field occupied, or nothing if the stream is malformed.
pub open spec fn unesc(b: Seq<u8>) -> Option<(Seq<u8>, nat)>
    decreases b.len(),
{
    if b.len() == 0 {
        None
    } else if b[0] == 0 {
        Some((Seq::empty(), 1nat))
    } else if b[0] == 1 {
        if b.len() >= 2 && (b[1] == 2 || b[1] == 3) {
            match unesc(b.skip(2)) {
                Some(r) => Some(
                    (
                        seq![
                            if b[1] == 2 {
                                0u8
                            } else {
                                1u8
                            },
                        ] + r.0,
                        (r.1 + 2) as nat,
                    ),
                ),
                None => None,
            }
        } else {
            None
        }
    } else {
        match unesc(b.skip(1)) {
            Some(r) => Some((seq![b[0]] + r.0, (r.1 + 1) as nat)),
            None => None,
        }
    }
}

/// Decoding inverts the escape-terminated encoding, whatever follows it.
pub proof fn lemma_unesc_term(s: Seq<u8>, rest: Seq<u8>)
    ensures
        unesc(term_bytes(s) + rest) is Some,
        unesc(term_bytes(s) + rest).unwrap().0 == s,
        unesc(term_bytes(s) + rest).unwrap().1 == term_bytes(s).len(),
    decreases s.len(),
{
    let b = term_bytes(s) + rest;
    if s.len() == 0 {
        assert(b[0] == 0u8);
        assert(unesc(b).unwrap().0 =~= s);
    } else {
        lemma_unesc_term(s.skip(1), rest);
        let h = esc_byte(s[0]);
        let inner = term_bytes(s.skip(1)) + rest;
        assert(b =~= h + inner);
        if s[0] == 0 {
            assert(b[0] == 1u8 && b[1] == 2u8);
            assert(b.skip(2) =~= inner);
            assert(unesc(b).unwrap().0 =~= seq![0u8] + s.skip(1));
            assert(seq![0u8] + s.skip(1) =~= s);
        } else if s[0] == 1 {
            assert(b[0] == 1u8 && b[1] == 3u8);
            assert(b.skip(2) =~= inner);
            assert(unesc(b).unwrap().0 =~= seq![1u8] + s.skip(1));
            assert(seq![1u8] + s.skip(1) =~= s);
        } else {
            assert(b[0] == s[0]);
            assert(b.skip(1) =~= inner);
            assert(unesc(b).unwrap().0 =~= seq![s[0]] + s.skip(1));
            assert(seq![s[0]] + s.skip(1) =~= s);
        }
    }
}

/// Append the escape-terminated encoding of `b` to `out`.
pub fn enc_term(b: &[u8], out: &mut Vec<u8>)
    ensures
        final(out)@ == old(out)@ + term_bytes(b@),
{
    let ghost orig = out@;
    let blen: usize = b.len();
    let mut i: usize = 0;
    proof {
        assert(b@.take(0) =~= Seq::<u8>::empty());
        assert(out@ =~= orig + esc(b@.take(0)));
    }
    while i < blen
        invariant
            0 <= i <= blen,
            blen == b@.len(),
            out@ == orig + esc(b@.take(i as int)),
        decreases blen - i,
    {
        proof {
            lemma_esc_push(b@.take(i as int), b@[i as int]);
            assert(b@.take(i + 1) =~= b@.take(i as int).push(b@[i as int]));
        }
        let c: u8 = b[i];
        if c == 0 {
            out.push(1);
            out.push(2);
        } else if c == 1 {
            out.push(1);
            out.push(3);
        } else {
            out.push(c);
        }
        proof {
            assert(out@ =~= orig + esc(b@.take(i + 1)));
        }
        i = i + 1;
    }
    out.push(0);
    proof {
        assert(b@.take(blen as int) =~= b@);
        assert(out@ =~= orig + term_bytes(b@));
    }
}

/// Read the escape-terminated field at `pos`, appending the recovered bytes
/// to `out`; the result is the position after the terminator.
pub fn dec_term(b: &[u8], pos: usize, out: &mut Vec<u8>) -> (r: Option<usize>)
    requires
        pos <= b@.len(),
    ensures
        match unesc(b@.skip(pos as int)) {
            Some(t) => r == Some((pos + t.1) as usize) && final(out)@ == old(out)@ + t.0,
            None => r is None,
        },
{
    let ghost orig = out@;
    let blen: usize = b.len();
    let mut cur: usize = pos;
    loop
        invariant
            pos <= cur <= blen,
            blen == b@.len(),
            match unesc(b@.skip(cur as int)) {
                Some(t) => {
                    &&& unesc(b@.skip(pos as int)) is Some
                    &&& unesc(b@.skip(pos as int)).unwrap().0 == out@.skip(orig.len() as int) + t.0
                    &&& unesc(b@.skip(pos as int)).unwrap().1 == (cur - pos) + t.1
                },
                None => unesc(b@.skip(pos as int)) is None,
            },
            orig == old(out)@,
            orig.is_prefix_of(out@),
        decreases blen - cur,
    {
        if cur >= blen {
            proof {
                assert(b@.skip(cur as int) =~= Seq::<u8>::empty());
            }
            return None;
        }
        let c: u8 = b[cur];
        let ghost suf = b@.skip(cur as int);
        proof {
            assert(suf[0] == c);
        }
        if c == 0 {
            proof {
                assert(unesc(suf).unwrap().0 == Seq::<u8>::empty());
                assert(unesc(suf).unwrap().1 == 1nat);
                assert(unesc(b@.skip(pos as int)).unwrap().0 =~= out@.skip(orig.len() as int));
                assert(out@ =~= orig + out@.skip(orig.len() as int));
                assert(out@ == old(out)@ + unesc(b@.skip(pos as int)).unwrap().0);
                assert(pos + unesc(b@.skip(pos as int)).unwrap().1 == cur + 1);
            }
            return Some(cur + 1);
        } else if c == 1 {
            if cur + 1 >= blen {
                proof {
                    assert(suf.len() < 2);
                }
                return None;
            }
            let d: u8 = b[cur + 1];
            proof {
                assert(suf[1] == d);
            }
            if d == 2 || d == 3 {
                let decoded: u8 = if d == 2 {
                    0
                } else {
                    1
                };
                let ghost pre = out@;
                out.push(decoded);
                proof {
                    assert(suf.skip(2) =~= b@.skip(cur + 2));
                    match unesc(b@.skip(cur + 2)) {
                        Some(t) => {
                            assert(unesc(suf).unwrap().0 =~= seq![decoded] + t.0);
                            assert(out@.skip(orig.len() as int) =~= pre.skip(
                                orig.len() as int,
                            ).push(decoded));
                            assert(pre.skip(orig.len() as int) + (seq![decoded] + t.0) =~= out@.skip(
                                orig.len() as int,
                            ) + t.0);
                        },
                        None => {
                            assert(unesc(suf) is None);
                        },
                    }
                    assert(orig.is_prefix_of(out@));
                }
                cur = cur + 2;
            } else {
                proof {
                    assert(unesc(suf) is None);
                }
                return None;
            }
        } else {
            let ghost pre = out@;
            out.push(c);
            proof {
                assert(suf.skip(1) =~= b@.skip(cur + 1));
                match unesc(b@.skip(cur + 1)) {
                    Some(t) => {
                        assert(unesc(suf).unwrap().0 =~= seq![c] + t.0);
                        assert(out@.skip(orig.len() as int) =~= pre.skip(orig.len() as int).push(
                            c,
                        ));
                        assert(pre.skip(orig.len() as int) + (seq![c] + t.0) =~= out@.skip(
                            orig.len() as int,
                        ) + t.0);
                    },
                    None => {
                        assert(unesc(suf) is None);
                    },
                }
                assert(orig.is_prefix_of(out@));
            }
            cur = cur + 1;
        }
    }
}

/// Read the `n`-byte big-endian value at `pos`.
pub fn dec_be(b: &[u8], pos: usize, n: usize) -> (r: (u128, usize))
    requires
        n <= 16,
        pos + n <= b@.len(),
    ensures
        r.0 as nat == be_val(b@.subrange(pos as int, pos as int + n as int)),
        r.1 == pos + n,
{
    let blen: usize = b.len();
    let mut acc: u128 = 0;
    let mut i: usize = 0;
    while i < n
        invariant
            0 <= i <= n <= 16,
            pos + n <= blen,
            blen == b@.len(),
            acc as nat == be_val(b@.subrange(pos as int, pos as int + i as int)),
            (acc as nat) < pow256(i as nat),
        decreases n - i,
    {
        let ghost pre = b@.subrange(pos as int, pos as int + i as int);
        proof {
            lemma_be_val_push(pre, b@[pos as int + i as int]);
            assert(b@.subrange(pos as int, pos as int + i as int + 1) =~= pre.push(
                b@[pos as int + i as int],
            ));
            lemma_pow256_increases((i + 1) as nat, 16);
            lemma_pow256_fits();
        }
        acc = acc * 256 + (b[pos + i] as u128);
        i = i + 1;
    }
    (acc, pos + n)
}

} // verus!

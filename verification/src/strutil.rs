//! Verified string substitution: the URL templating the repolist expansion
//! relies on.

use vstd::prelude::*;

verus! {

/// Every occurrence of `pat` in `h` replaced by `val`, scanning left to
/// right without rescanning what was substituted.
pub open spec fn replace_spec(h: Seq<char>, pat: Seq<char>, val: Seq<char>) -> Seq<char>
    recommends
        pat.len() > 0,
    decreases h.len(),
{
    if h.len() == 0 {
        Seq::empty()
    } else if pat.len() > 0 && h.len() >= pat.len() && h.take(pat.len() as int) == pat {
        val + replace_spec(h.skip(pat.len() as int), pat, val)
    } else {
        h.take(1) + replace_spec(h.skip(1), pat, val)
    }
}

/// Whether `pat` occurs in `h` starting at `at`.
fn match_at(h: &str, hn: usize, at: usize, pat: &str, pn: usize) -> (r: bool)
    requires
        hn == h@.len(),
        pn == pat@.len(),
        at + pn <= hn,
    ensures
        r == (h@.subrange(at as int, at as int + pn as int) == pat@),
{
    let mut j: usize = 0;
    while j < pn
        invariant
            0 <= j <= pn,
            hn == h@.len(),
            pn == pat@.len(),
            at + pn <= hn,
            forall|q: int| 0 <= q < j ==> h@[at + q] == pat@[q],
        decreases pn - j,
    {
        if h.get_char(at + j) != pat.get_char(j) {
            proof {
                assert(h@.subrange(at as int, at as int + pn as int)[j as int] != pat@[j as int]);
            }
            return false;
        }
        j = j + 1;
    }
    proof {
        assert(h@.subrange(at as int, at as int + pn as int) =~= pat@);
    }
    true
}

/// Replace every occurrence of `pat` in `h` by `val`.
pub fn substitute(h: &str, pat: &str, val: &str) -> (r: String)
    requires
        pat@.len() > 0,
    ensures
        r@ == replace_spec(h@, pat@, val@),
{
    let hn = h.unicode_len();
    let pn = pat.unicode_len();
    let mut out = String::new();
    proof {
        assert(h@.skip(0) =~= h@);
        assert(out@ + replace_spec(h@, pat@, val@) =~= replace_spec(h@, pat@, val@));
    }
    let mut i: usize = 0;
    while i < hn
        invariant
            0 <= i <= hn,
            hn == h@.len(),
            pn == pat@.len(),
            pn > 0,
            out@ + replace_spec(h@.skip(i as int), pat@, val@) == replace_spec(h@, pat@, val@),
        decreases hn - i,
    {
        let ghost suf = h@.skip(i as int);
        if pn <= hn - i && match_at(h, hn, i, pat, pn) {
            proof {
                assert(suf.take(pn as int) =~= h@.subrange(i as int, i as int + pn as int));
                assert(suf.skip(pn as int) =~= h@.skip(i as int + pn as int));
                assert(replace_spec(suf, pat@, val@) == val@ + replace_spec(
                    h@.skip(i as int + pn as int),
                    pat@,
                    val@,
                ));
            }
            out.append(val);
            proof {
                assert(out@ + replace_spec(h@.skip(i as int + pn as int), pat@, val@) =~= (out@
                    + replace_spec(h@.skip(i as int + pn as int), pat@, val@)));
                assert(out@ + replace_spec(h@.skip(i as int + pn as int), pat@, val@) =~= replace_spec(
                    h@,
                    pat@,
                    val@,
                ));
            }
            i = i + pn;
        } else {
            proof {
                assert(suf.len() > 0);
                if pn <= suf.len() {
                    if suf.take(pn as int) == pat@ {
                        assert(suf.take(pn as int) =~= h@.subrange(
                            i as int,
                            i as int + pn as int,
                        ));
                        assert(false);
                    }
                }
                assert(replace_spec(suf, pat@, val@) == suf.take(1) + replace_spec(
                    suf.skip(1),
                    pat@,
                    val@,
                ));
                assert(suf.skip(1) =~= h@.skip(i as int + 1));
                assert(suf.take(1) =~= seq![h@[i as int]]);
            }
            let piece = h.substring_char(i, i + 1);
            out.append(piece);
            proof {
                assert(piece@ =~= seq![h@[i as int]]);
                assert(out@ + replace_spec(h@.skip(i as int + 1), pat@, val@) =~= replace_spec(
                    h@,
                    pat@,
                    val@,
                ));
            }
            i = i + 1;
        }
    }
    proof {
        assert(h@.skip(hn as int) =~= Seq::<char>::empty());
        assert(out@ =~= replace_spec(h@, pat@, val@));
    }
    out
}


/// Whether two strings hold the same characters.
pub fn str_eq(a: &str, b: &str) -> (r: bool)
    ensures
        r == (a@ == b@),
{
    let an = a.unicode_len();
    let bn = b.unicode_len();
    if an != bn {
        proof {
            if a@ == b@ {
                assert(a@.len() == b@.len());
            }
        }
        return false;
    }
    let mut i: usize = 0;
    while i < an
        invariant
            0 <= i <= an,
            an == a@.len(),
            an == b@.len(),
            forall|q: int| 0 <= q < i ==> a@[q] == b@[q],
        decreases an - i,
    {
        if a.get_char(i) != b.get_char(i) {
            proof {
                if a@ == b@ {
                    assert(a@[i as int] == b@[i as int]);
                }
            }
            return false;
        }
        i = i + 1;
    }
    proof {
        assert(a@ =~= b@);
    }
    true
}
} // verus!

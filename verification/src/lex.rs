//! Lexicographic order on byte strings.
//!
//! The engine keeps every sub-database sorted by this order, so that range
//! scans enumerate entries in ascending byte order.

use vstd::prelude::*;

verus! {

/// Three-way comparison result.
#[derive(Clone, Copy, Debug, PartialEq, Eq, Structural)]
pub enum Cmp {
    Lt,
    Eq,
    Gt,
}

/// Strict lexicographic order on byte sequences: a proper prefix sorts first,
/// otherwise the first differing byte decides.
pub open spec fn lex_lt(a: Seq<u8>, b: Seq<u8>) -> bool
    decreases a.len(),
{
    if b.len() == 0 {
        false
    } else if a.len() == 0 {
        true
    } else if a[0] < b[0] {
        true
    } else if a[0] > b[0] {
        false
    } else {
        lex_lt(a.skip(1), b.skip(1))
    }
}

pub open spec fn lex_le(a: Seq<u8>, b: Seq<u8>) -> bool {
    lex_lt(a, b) || a == b
}

/// A difference at position `i`, after a common prefix, decides the order.
pub proof fn lemma_lex_lt_from_diff(a: Seq<u8>, b: Seq<u8>, i: int)
    requires
        0 <= i < a.len(),
        i < b.len(),
        forall|j: int| 0 <= j < i ==> a[j] == b[j],
        a[i] < b[i],
    ensures
        lex_lt(a, b),
    decreases i,
{
    if i > 0 {
        lemma_lex_lt_from_diff(a.skip(1), b.skip(1), i - 1);
    }
}

/// A proper prefix sorts strictly first.
pub proof fn lemma_lex_lt_prefix(a: Seq<u8>, b: Seq<u8>)
    requires
        a.len() < b.len(),
        forall|j: int| 0 <= j < a.len() ==> a[j] == b[j],
    ensures
        lex_lt(a, b),
    decreases a.len(),
{
    if a.len() > 0 {
        lemma_lex_lt_prefix(a.skip(1), b.skip(1));
    }
}

/// Equal prefixes of equal length are equal sequences.
pub proof fn lemma_lex_eq(a: Seq<u8>, b: Seq<u8>)
    requires
        a.len() == b.len(),
        forall|j: int| 0 <= j < a.len() ==> a[j] == b[j],
    ensures
        a == b,
{
    assert(a =~= b);
}

/// The order is asymmetric, hence also irreflexive.
pub proof fn lemma_lex_asym(a: Seq<u8>, b: Seq<u8>)
    requires
        lex_lt(a, b),
    ensures
        !lex_lt(b, a),
        a != b,
    decreases a.len(),
{
    if b.len() == 0 {
    } else if a.len() == 0 {
    } else if a[0] == b[0] {
        lemma_lex_asym(a.skip(1), b.skip(1));
        assert(a != b) by {
            if a == b {
                assert(a.skip(1) =~= b.skip(1));
            }
        }
    }
}

/// The order is transitive.
pub proof fn lemma_lex_trans(a: Seq<u8>, b: Seq<u8>, c: Seq<u8>)
    requires
        lex_lt(a, b),
        lex_lt(b, c),
    ensures
        lex_lt(a, c),
    decreases a.len() + b.len() + c.len(),
{
    if a.len() == 0 {
    } else if b.len() == 0 {
    } else if c.len() == 0 {
    } else if a[0] == b[0] && b[0] == c[0] {
        lemma_lex_trans(a.skip(1), b.skip(1), c.skip(1));
    }
}

/// Any two distinct byte sequences are ordered one way or the other.
pub proof fn lemma_lex_total(a: Seq<u8>, b: Seq<u8>)
    requires
        a != b,
    ensures
        lex_lt(a, b) || lex_lt(b, a),
    decreases a.len(),
{
    if a.len() == 0 {
        assert(b.len() != 0) by {
            if b.len() == 0 {
                assert(a =~= b);
            }
        }
    } else if b.len() == 0 {
    } else if a[0] == b[0] {
        assert(a.skip(1) != b.skip(1)) by {
            if a.skip(1) == b.skip(1) {
                assert(a.skip(1).len() == b.skip(1).len());
                assert(a.len() == b.len());
                assert forall|i: int| 0 <= i < a.len() implies a[i] == b[i] by {
                    if i >= 1 {
                        assert(a[i] == a.skip(1)[i - 1]);
                        assert(b[i] == b.skip(1)[i - 1]);
                    }
                }
                assert(a =~= b);
            }
        }
        lemma_lex_total(a.skip(1), b.skip(1));
    }
}

/// A shared prefix does not affect the comparison of the suffixes.
pub proof fn lemma_lex_prepend(p: Seq<u8>, s: Seq<u8>, t: Seq<u8>)
    requires
        lex_lt(s, t),
    ensures
        lex_lt(p + s, p + t),
    decreases p.len(),
{
    if p.len() == 0 {
        assert(p + s =~= s);
        assert(p + t =~= t);
    } else {
        lemma_lex_prepend(p.skip(1), s, t);
        assert((p + s).skip(1) =~= p.skip(1) + s);
        assert((p + t).skip(1) =~= p.skip(1) + t);
        assert((p + s)[0] == (p + t)[0]);
        assert((p + t).len() != 0);
    }
}

/// Compare two byte strings; the result names the lexicographic relation.
pub fn lex_cmp(a: &[u8], b: &[u8]) -> (r: Cmp)
    ensures
        (r == Cmp::Lt) == lex_lt(a@, b@),
        (r == Cmp::Gt) == lex_lt(b@, a@),
        (r == Cmp::Eq) == (a@ == b@),
{
    let an: usize = a.len();
    let bn: usize = b.len();
    let n: usize = if an < bn {
        an
    } else {
        bn
    };
    let mut i: usize = 0;
    while i < n
        invariant
            0 <= i <= n,
            n <= a@.len(),
            n <= b@.len(),
            n == if a@.len() < b@.len() {
                a@.len()
            } else {
                b@.len()
            },
            forall|j: int| 0 <= j < i ==> a@[j] == b@[j],
        decreases n - i,
    {
        if a[i] < b[i] {
            proof {
                lemma_lex_lt_from_diff(a@, b@, i as int);
                lemma_lex_asym(a@, b@);
            }
            return Cmp::Lt;
        }
        if a[i] > b[i] {
            proof {
                lemma_lex_lt_from_diff(b@, a@, i as int);
                lemma_lex_asym(b@, a@);
            }
            return Cmp::Gt;
        }
        i = i + 1;
    }
    if an < bn {
        proof {
            lemma_lex_lt_prefix(a@, b@);
            lemma_lex_asym(a@, b@);
        }
        Cmp::Lt
    } else if an > bn {
        proof {
            lemma_lex_lt_prefix(b@, a@);
            lemma_lex_asym(b@, a@);
        }
        Cmp::Gt
    } else {
        proof {
            lemma_lex_eq(a@, b@);
            if lex_lt(a@, b@) {
                lemma_lex_asym(a@, b@);
            }
        }
        Cmp::Eq
    }
}

} // verus!

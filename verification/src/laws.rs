//! The store's global guarantees, stated and proved over the byte-level
//! model: index consistency across writes, idempotence of upsert-by-index,
//! and the ordering of scans.

use vstd::prelude::*;
use crate::store::{Database, has_key, val_of, sorted};
use crate::table::{Table, tbl, tbl_idx, values_ok, val_model_of};
use crate::ops::{put_effect, delete_effect, lemma_at_sorted};
use crate::lex::{lex_lt, lemma_lex_asym};
use crate::codec::{be_bytes, pow256, lemma_be_order};

verus! {

/// The index key of the stored row under `kb`, for index slot `i`.
pub open spec fn row_ikey<T: Table>(db: &Database, kb: Seq<u8>, i: int) -> Seq<u8> {
    T::index_keys_spec(val_model_of::<T>(val_of(tbl::<T>(db), kb)))[i]
}

/// Every row is indexed: each index slot maps the row's index key back to
/// the row's primary key.
pub open spec fn index_complete<T: Table>(db: &Database) -> bool {
    forall|kb: Seq<u8>, i: int|
        #![trigger row_ikey::<T>(db, kb, i)]
        has_key(tbl::<T>(db), kb) && 0 <= i < T::index_names_spec().len() ==> has_key(
            tbl_idx::<T>(db, i),
            row_ikey::<T>(db, kb, i),
        ) && val_of(tbl_idx::<T>(db, i), row_ikey::<T>(db, kb, i)) == kb
}

/// Every index entry is backed: it points at a live row that projects to
/// exactly this index key.
pub open spec fn index_exact<T: Table>(db: &Database) -> bool {
    forall|ik: Seq<u8>, i: int|
        #![trigger has_key(tbl_idx::<T>(db, i), ik)]
        0 <= i < T::index_names_spec().len() && has_key(tbl_idx::<T>(db, i), ik) ==> {
            &&& has_key(tbl::<T>(db), val_of(tbl_idx::<T>(db, i), ik))
            &&& row_ikey::<T>(db, val_of(tbl_idx::<T>(db, i), ik), i) == ik
        }
}

/// No two rows share an index key: each index is unique.
pub open spec fn index_unique<T: Table>(db: &Database) -> bool {
    forall|kb1: Seq<u8>, kb2: Seq<u8>, i: int|
        #![trigger row_ikey::<T>(db, kb1, i), row_ikey::<T>(db, kb2, i)]
        has_key(tbl::<T>(db), kb1) && has_key(tbl::<T>(db), kb2) && 0 <= i
            < T::index_names_spec().len() && row_ikey::<T>(db, kb1, i) == row_ikey::<T>(db, kb2, i)
            ==> kb1 == kb2
}

/// The whole index invariant: table and indices agree in both directions.
pub open spec fn index_ok<T: Table>(db: &Database) -> bool {
    index_complete::<T>(db) && index_exact::<T>(db) && index_unique::<T>(db)
}

/// An empty table trivially satisfies the index invariant, provided its
/// index sub-databases are empty too.
pub proof fn lemma_index_ok_empty<T: Table>(db: &Database)
    requires
        tbl::<T>(db).len() == 0,
        forall|i: int|
            0 <= i < T::index_names_spec().len() ==> (#[trigger] tbl_idx::<T>(db, i)).len() == 0,
    ensures
        index_ok::<T>(db),
{
    assert forall|kb: Seq<u8>| !has_key(tbl::<T>(db), kb) by {}
    assert forall|ik: Seq<u8>, i: int|
        0 <= i < T::index_names_spec().len() implies !(#[trigger] has_key(
        tbl_idx::<T>(db, i),
        ik,
    )) by {}
}

/// A `put` preserves the index invariant when the written row's primary key
/// is fresh or keeps its index keys, and its index keys collide with no
/// other row. This is exactly where plain `put` is safe; `put_by` arranges
/// these conditions itself.
pub proof fn lemma_put_index_ok<T: Table>(pre: Database, post: Database, m: <T as View>::V)
    requires
        put_effect::<T>(pre, post, m),
        values_ok::<T>(&pre),
        index_ok::<T>(&pre),
        T::enc_val_spec(m).len() <= usize::MAX,
        // a row overwritten in place keeps its index keys
        has_key(tbl::<T>(&pre), T::enc_key_spec(T::row_key_model(m))) ==> T::index_keys_spec(
            val_model_of::<T>(val_of(tbl::<T>(&pre), T::enc_key_spec(T::row_key_model(m)))),
        ) == T::index_keys_spec(m),
        // the row's index keys belong to no other row
        forall|kb2: Seq<u8>, i: int|
            #![trigger row_ikey::<T>(&pre, kb2, i)]
            has_key(tbl::<T>(&pre), kb2) && kb2 != T::enc_key_spec(T::row_key_model(m)) && 0 <= i
                < T::index_names_spec().len() ==> row_ikey::<T>(&pre, kb2, i)
                != T::index_keys_spec(m)[i],
    ensures
        index_ok::<T>(&post),
{
    let kb = T::enc_key_spec(T::row_key_model(m));
    let iks = T::index_keys_spec(m);
    T::index_arity(m);
    // the new row's stored model is m itself
    assert(val_of(tbl::<T>(&post), kb) == T::enc_val_spec(m));
    assert(T::enc_val_spec(val_model_of::<T>(val_of(tbl::<T>(&post), kb))) == T::enc_val_spec(m));
    T::enc_val_injective(val_model_of::<T>(val_of(tbl::<T>(&post), kb)), m);
    assert forall|kb2: Seq<u8>, i: int|
        has_key(tbl::<T>(&post), kb2) && kb2 != kb && 0 <= i < T::index_names_spec().len() implies
        #[trigger] row_ikey::<T>(&post, kb2, i) == row_ikey::<T>(&pre, kb2, i) by {
        assert(val_of(tbl::<T>(&post), kb2) == val_of(tbl::<T>(&pre), kb2));
    }
    assert forall|kb2: Seq<u8>, i: int|
        #![trigger row_ikey::<T>(&post, kb2, i)]
        has_key(tbl::<T>(&post), kb2) && 0 <= i < T::index_names_spec().len() implies has_key(
        tbl_idx::<T>(&post, i),
        row_ikey::<T>(&post, kb2, i),
    ) && val_of(tbl_idx::<T>(&post, i), row_ikey::<T>(&post, kb2, i)) == kb2 by {
        if kb2 == kb {
            assert(row_ikey::<T>(&post, kb, i) == iks[i]);
        } else {
            assert(has_key(tbl::<T>(&pre), kb2));
            assert(row_ikey::<T>(&pre, kb2, i) != iks[i]);
            assert(row_ikey::<T>(&post, kb2, i) == row_ikey::<T>(&pre, kb2, i));
        }
    }
    assert(index_complete::<T>(&post));
    assert forall|ik: Seq<u8>, i: int|
        0 <= i < T::index_names_spec().len() && #[trigger] has_key(tbl_idx::<T>(&post, i), ik)
        implies {
        &&& has_key(tbl::<T>(&post), val_of(tbl_idx::<T>(&post, i), ik))
        &&& row_ikey::<T>(&post, val_of(tbl_idx::<T>(&post, i), ik), i) == ik
    } by {
        if ik == iks[i] {
            assert(val_of(tbl_idx::<T>(&post, i), ik) == kb);
            assert(row_ikey::<T>(&post, kb, i) == iks[i]);
        } else {
            assert(has_key(tbl_idx::<T>(&pre, i), ik));
            let pk = val_of(tbl_idx::<T>(&pre, i), ik);
            assert(has_key(tbl::<T>(&pre), pk) && row_ikey::<T>(&pre, pk, i) == ik);
            assert(pk != kb || row_ikey::<T>(&pre, kb, i) == ik);
            if pk == kb {
                assert(has_key(tbl::<T>(&pre), kb));
                assert(row_ikey::<T>(&pre, kb, i) == iks[i]);
                assert(false);
            }
            assert(row_ikey::<T>(&post, pk, i) == ik);
            assert(val_of(tbl_idx::<T>(&post, i), ik) == pk);
        }
    }
    assert(index_exact::<T>(&post));
    assert forall|kb1: Seq<u8>, kb2: Seq<u8>, i: int|
        has_key(tbl::<T>(&post), kb1) && has_key(tbl::<T>(&post), kb2) && 0 <= i
            < T::index_names_spec().len() && #[trigger] row_ikey::<T>(&post, kb1, i)
            == #[trigger] row_ikey::<T>(&post, kb2, i) implies kb1 == kb2 by {
        if kb1 != kb && kb2 != kb {
            assert(row_ikey::<T>(&pre, kb1, i) == row_ikey::<T>(&post, kb1, i));
            assert(row_ikey::<T>(&pre, kb2, i) == row_ikey::<T>(&post, kb2, i));
        } else if kb1 == kb && kb2 != kb {
            assert(row_ikey::<T>(&post, kb2, i) == row_ikey::<T>(&pre, kb2, i));
            assert(row_ikey::<T>(&pre, kb2, i) != iks[i]);
            assert(row_ikey::<T>(&post, kb, i) == iks[i]);
        } else if kb2 == kb && kb1 != kb {
            assert(row_ikey::<T>(&post, kb1, i) == row_ikey::<T>(&pre, kb1, i));
            assert(row_ikey::<T>(&pre, kb1, i) != iks[i]);
            assert(row_ikey::<T>(&post, kb, i) == iks[i]);
        }
    }
}

/// A `delete` preserves the index invariant unconditionally.
pub proof fn lemma_delete_index_ok<T: Table>(
    pre: Database,
    post: Database,
    km: <T::Key as View>::V,
)
    requires
        delete_effect::<T>(pre, post, km),
        index_ok::<T>(&pre),
    ensures
        index_ok::<T>(&post),
{
    let kb = T::enc_key_spec(km);
    if has_key(tbl::<T>(&pre), kb) {
        let om = val_model_of::<T>(val_of(tbl::<T>(&pre), kb));
        let iks = T::index_keys_spec(om);
        assert forall|kb2: Seq<u8>, i: int|
            has_key(tbl::<T>(&post), kb2) && 0 <= i < T::index_names_spec().len() implies
            #[trigger] row_ikey::<T>(&post, kb2, i) == row_ikey::<T>(&pre, kb2, i) && kb2 != kb by {
            assert(val_of(tbl::<T>(&post), kb2) == val_of(tbl::<T>(&pre), kb2));
        }
        assert forall|kb2: Seq<u8>, i: int|
            #![trigger row_ikey::<T>(&post, kb2, i)]
            has_key(tbl::<T>(&post), kb2) && 0 <= i < T::index_names_spec().len() implies has_key(
            tbl_idx::<T>(&post, i),
            row_ikey::<T>(&post, kb2, i),
        ) && val_of(tbl_idx::<T>(&post, i), row_ikey::<T>(&post, kb2, i)) == kb2 by {
            assert(has_key(tbl::<T>(&pre), kb2));
            assert(row_ikey::<T>(&pre, kb2, i) != iks[i]) by {
                assert(has_key(tbl::<T>(&pre), kb));
                assert(row_ikey::<T>(&pre, kb, i) == iks[i]);
            }
        }
        assert(index_complete::<T>(&post));
        assert forall|ik: Seq<u8>, i: int|
            0 <= i < T::index_names_spec().len() && #[trigger] has_key(tbl_idx::<T>(&post, i), ik)
            implies {
            &&& has_key(tbl::<T>(&post), val_of(tbl_idx::<T>(&post, i), ik))
            &&& row_ikey::<T>(&post, val_of(tbl_idx::<T>(&post, i), ik), i) == ik
        } by {
            assert(ik != iks[i]);
            assert(has_key(tbl_idx::<T>(&pre, i), ik));
            let pk = val_of(tbl_idx::<T>(&pre, i), ik);
            assert(has_key(tbl::<T>(&pre), pk) && row_ikey::<T>(&pre, pk, i) == ik);
            assert(pk != kb) by {
                if pk == kb {
                    assert(row_ikey::<T>(&pre, kb, i) == iks[i]);
                }
            }
            assert(has_key(tbl::<T>(&post), pk));
            assert(val_of(tbl::<T>(&post), pk) == val_of(tbl::<T>(&pre), pk));
            assert(val_of(tbl_idx::<T>(&post, i), ik) == pk);
        }
        assert(index_exact::<T>(&post));
        assert forall|kb1: Seq<u8>, kb2: Seq<u8>, i: int|
            has_key(tbl::<T>(&post), kb1) && has_key(tbl::<T>(&post), kb2) && 0 <= i
                < T::index_names_spec().len() && #[trigger] row_ikey::<T>(&post, kb1, i)
                == #[trigger] row_ikey::<T>(&post, kb2, i) implies kb1 == kb2 by {
            assert(row_ikey::<T>(&pre, kb1, i) == row_ikey::<T>(&post, kb1, i));
            assert(row_ikey::<T>(&pre, kb2, i) == row_ikey::<T>(&post, kb2, i));
        }
    } else {
        assert forall|kb2: Seq<u8>, i: int|
            has_key(tbl::<T>(&post), kb2) && 0 <= i < T::index_names_spec().len() implies
            #[trigger] row_ikey::<T>(&post, kb2, i) == row_ikey::<T>(&pre, kb2, i) by {
            assert(val_of(tbl::<T>(&post), kb2) == val_of(tbl::<T>(&pre), kb2));
        }
        assert(index_complete::<T>(&post));
        assert(index_exact::<T>(&post)) by {
            assert forall|ik: Seq<u8>, i: int|
                0 <= i < T::index_names_spec().len() && #[trigger] has_key(
                    tbl_idx::<T>(&post, i),
                    ik,
                ) implies {
                &&& has_key(tbl::<T>(&post), val_of(tbl_idx::<T>(&post, i), ik))
                &&& row_ikey::<T>(&post, val_of(tbl_idx::<T>(&post, i), ik), i) == ik
            } by {
                assert(tbl_idx::<T>(&post, i) == tbl_idx::<T>(&pre, i));
                let pk = val_of(tbl_idx::<T>(&pre, i), ik);
                assert(has_key(tbl::<T>(&pre), pk) && row_ikey::<T>(&pre, pk, i) == ik);
                assert(pk != kb);
            }
        }
        assert(index_unique::<T>(&post));
    }
}

/// Scans enumerate keys in strictly ascending byte order: there are no
/// duplicates and the order is total.
pub proof fn lemma_scan_ordered<T: Table>(db: &Database)
    requires
        db.db_wf(),
        db.holds(T::table_name()),
    ensures
        forall|j1: int, j2: int|
            0 <= j1 < j2 < tbl::<T>(db).len() ==> lex_lt(
                (#[trigger] tbl::<T>(db)[j1]).0,
                (#[trigger] tbl::<T>(db)[j2]).0,
            ),
{
    lemma_at_sorted(db, T::table_name());
}

/// Fixed-width big-endian keys order exactly as the integers they encode.
pub proof fn lemma_fixed_key_order(x: nat, y: nat, n: nat)
    requires
        x < pow256(n),
        y < pow256(n),
    ensures
        (x < y) <==> lex_lt(be_bytes(x, n), be_bytes(y, n)),
{
    if x < y {
        lemma_be_order(x, y, n);
    } else if y < x {
        lemma_be_order(y, x, n);
        lemma_lex_asym(be_bytes(y, n), be_bytes(x, n));
    } else {
        if lex_lt(be_bytes(x, n), be_bytes(y, n)) {
            lemma_lex_asym(be_bytes(x, n), be_bytes(y, n));
        }
    }
}


/// Two stores look the same to every read: same rows under same keys, same
/// index entries, everything outside the table untouched relative to each
/// other.
pub open spec fn same_visible<T: Table>(a: &Database, b: &Database) -> bool {
    &&& forall|kb: Seq<u8>| #[trigger] has_key(tbl::<T>(a), kb) == has_key(tbl::<T>(b), kb)
    &&& forall|kb: Seq<u8>|
        has_key(tbl::<T>(a), kb) ==> #[trigger] val_of(tbl::<T>(a), kb) == val_of(tbl::<T>(b), kb)
    &&& forall|i: int, ik: Seq<u8>|
        0 <= i < T::index_names_spec().len() ==> #[trigger] has_key(tbl_idx::<T>(a, i), ik)
            == has_key(tbl_idx::<T>(b, i), ik)
    &&& forall|i: int, ik: Seq<u8>|
        0 <= i < T::index_names_spec().len() && has_key(tbl_idx::<T>(a, i), ik) ==> #[trigger] val_of(
            tbl_idx::<T>(a, i),
            ik,
        ) == val_of(tbl_idx::<T>(b, i), ik)
    &&& forall|n2: Seq<char>|
        a.holds(n2) && !crate::ops::touches::<T>(n2) ==> #[trigger] a.at(n2) == b.at(n2)
}

/// What `put_by` decides to write, given the store it runs against.
pub open spec fn put_by_row<T: Table>(db: &Database, m: <T as View>::V, islot: int) -> <T as View>::V {
    let ik = T::index_keys_spec(m)[islot];
    let iat = db.at(T::index_names_spec()[islot]);
    if has_key(iat, ik) && has_key(tbl::<T>(db), val_of(iat, ik)) {
        T::adopted_model(m, val_model_of::<T>(val_of(tbl::<T>(db), val_of(iat, ik))))
    } else {
        m
    }
}

/// Upsert-by-index is idempotent: a second `put_by` of the same row decides
/// to write the same rebound row and leaves the store as the first left it.
pub proof fn lemma_put_by_idempotent<T: Table>(
    s0: Database,
    s1: Database,
    s2: Database,
    m: <T as View>::V,
    islot: int,
)
    requires
        0 <= islot < T::index_names_spec().len(),
        index_exact::<T>(&s0),
        put_effect::<T>(s0, s1, put_by_row::<T>(&s0, m, islot)),
        put_effect::<T>(s1, s2, put_by_row::<T>(&s1, m, islot)),
        T::enc_val_spec(put_by_row::<T>(&s0, m, islot)).len() <= usize::MAX,
        // taking a row's own key changes nothing, and rebinding twice is
        // rebinding once
        forall|d: <T as View>::V| #[trigger] T::adopted_model(m, T::adopted_model(m, d))
            == T::adopted_model(m, d),
        T::adopted_model(m, m) == m,
        // rebinding keeps the looked-up index key when donor and row agree on it
        forall|d: <T as View>::V|
            T::index_keys_spec(d)[islot] == T::index_keys_spec(m)[islot]
                ==> #[trigger] T::index_keys_spec(T::adopted_model(m, d))[islot]
                == T::index_keys_spec(m)[islot],
    ensures
        put_by_row::<T>(&s1, m, islot) == put_by_row::<T>(&s0, m, islot),
        same_visible::<T>(&s1, &s2),
{
    let ik = T::index_keys_spec(m)[islot];
    let r1 = put_by_row::<T>(&s0, m, islot);
    let kb1 = T::enc_key_spec(T::row_key_model(r1));
    let iat0 = s0.at(T::index_names_spec()[islot]);
    let iat1 = s1.at(T::index_names_spec()[islot]);
    T::index_arity(m);
    T::index_arity(r1);
    T::names_distinct();
    // the looked-up index key of the written row is still `ik`
    assert(T::index_keys_spec(r1)[islot] == ik) by {
        if has_key(iat0, ik) && has_key(tbl::<T>(&s0), val_of(iat0, ik)) {
            let pk0 = val_of(iat0, ik);
            let om0 = val_model_of::<T>(val_of(tbl::<T>(&s0), pk0));
            assert(has_key(tbl_idx::<T>(&s0, islot), ik));
            assert(row_ikey::<T>(&s0, pk0, islot) == ik);
            assert(T::index_keys_spec(om0)[islot] == ik);
        }
    }
    // after the first put, the index finds the written row itself
    assert(tbl_idx::<T>(&s1, islot) == s1.at(T::index_names_spec()[islot]));
    assert(has_key(iat1, ik) && val_of(iat1, ik) == kb1);
    assert(has_key(tbl::<T>(&s1), kb1));
    assert(val_of(tbl::<T>(&s1), kb1) == T::enc_val_spec(r1));
    // so the second put_by rebinds onto the row the first wrote
    let om1 = val_model_of::<T>(val_of(tbl::<T>(&s1), kb1));
    assert(T::enc_val_spec(om1) == T::enc_val_spec(r1));
    T::enc_val_injective(om1, r1);
    let r2 = put_by_row::<T>(&s1, m, islot);
    assert(r2 == T::adopted_model(m, r1));
    assert(r2 == r1) by {
        if has_key(iat0, ik) && has_key(tbl::<T>(&s0), val_of(iat0, ik)) {
            let om0 = val_model_of::<T>(val_of(tbl::<T>(&s0), val_of(iat0, ik)));
            assert(r1 == T::adopted_model(m, om0));
            assert(T::adopted_model(m, T::adopted_model(m, om0)) == T::adopted_model(m, om0));
        } else {
            assert(r1 == m);
            assert(T::adopted_model(m, m) == m);
        }
    }
    // a second identical put rewrites the same pairs with the same contents
    assert forall|kb: Seq<u8>| #[trigger] has_key(tbl::<T>(&s1), kb) == has_key(
        tbl::<T>(&s2),
        kb,
    ) by {
        if kb != kb1 {
        } else {
            assert(has_key(tbl::<T>(&s2), kb1));
        }
    }
    assert forall|kb: Seq<u8>| has_key(tbl::<T>(&s1), kb) implies #[trigger] val_of(
        tbl::<T>(&s1),
        kb,
    ) == val_of(tbl::<T>(&s2), kb) by {
        if kb == kb1 {
            assert(val_of(tbl::<T>(&s2), kb1) == T::enc_val_spec(r2));
        }
    }
    assert forall|i: int, ik2: Seq<u8>|
        0 <= i < T::index_names_spec().len() implies #[trigger] has_key(tbl_idx::<T>(&s1, i), ik2)
        == has_key(tbl_idx::<T>(&s2, i), ik2) by {
        if ik2 == T::index_keys_spec(r1)[i] {
            assert(has_key(tbl_idx::<T>(&s1, i), ik2));
            assert(has_key(tbl_idx::<T>(&s2, i), ik2));
        }
    }
    assert forall|i: int, ik2: Seq<u8>|
        0 <= i < T::index_names_spec().len() && has_key(tbl_idx::<T>(&s1, i), ik2) implies
        #[trigger] val_of(tbl_idx::<T>(&s1, i), ik2) == val_of(tbl_idx::<T>(&s2, i), ik2) by {
        if ik2 == T::index_keys_spec(r1)[i] {
            assert(val_of(tbl_idx::<T>(&s1, i), ik2) == kb1);
            assert(val_of(tbl_idx::<T>(&s2, i), ik2) == kb1);
        }
    }
}

/// A full scan of the example table returns rows in strictly ascending
/// primary-key order: byte order is numeric order for its fixed-width keys.
pub proof fn lemma_item_scan_ascending(db: &Database)
    requires
        db.db_wf(),
        db.holds(<crate::data::Item as Table>::table_name()),
        values_ok::<crate::data::Item>(db),
    ensures
        forall|j1: int, j2: int|
            0 <= j1 < j2 < tbl::<crate::data::Item>(db).len()
                ==> <crate::data::Item as Table>::row_key_model(
                val_model_of::<crate::data::Item>((#[trigger] tbl::<crate::data::Item>(db)[j1]).1),
            ) < <crate::data::Item as Table>::row_key_model(
                val_model_of::<crate::data::Item>((#[trigger] tbl::<crate::data::Item>(db)[j2]).1),
            ),
{
    lemma_scan_ordered::<crate::data::Item>(db);
    crate::values::lemma_pow256_vals();
    assert forall|j1: int, j2: int|
        0 <= j1 < j2 < tbl::<crate::data::Item>(db).len()
            implies <crate::data::Item as Table>::row_key_model(
            val_model_of::<crate::data::Item>((#[trigger] tbl::<crate::data::Item>(db)[j1]).1),
        ) < <crate::data::Item as Table>::row_key_model(
            val_model_of::<crate::data::Item>((#[trigger] tbl::<crate::data::Item>(db)[j2]).1),
        ) by {
        let k1 = <crate::data::Item as Table>::row_key_model(
            val_model_of::<crate::data::Item>(tbl::<crate::data::Item>(db)[j1].1),
        );
        let k2 = <crate::data::Item as Table>::row_key_model(
            val_model_of::<crate::data::Item>(tbl::<crate::data::Item>(db)[j2].1),
        );
        assert(tbl::<crate::data::Item>(db)[j1].0 == be_bytes(k1 as nat, 8));
        assert(tbl::<crate::data::Item>(db)[j2].0 == be_bytes(k2 as nat, 8));
        lemma_fixed_key_order(k1 as nat, k2 as nat, 8);
    }
}

/// Upsert-by-index preserves the index invariant for a single-index table:
/// on a hit it overwrites the found row in place with unchanged index key;
/// on a miss it adds a row under a fresh primary key. The one write this
/// does not cover is a miss whose incoming primary key already names a row
/// with a different index key; random surrogate ids avoid it.
pub proof fn lemma_put_by_index_ok<T: Table>(
    pre: Database,
    post: Database,
    m: <T as View>::V,
    islot: int,
)
    requires
        T::index_names_spec().len() == 1,
        islot == 0,
        index_ok::<T>(&pre),
        values_ok::<T>(&pre),
        pre.db_wf(),
        crate::table::table_registered::<T>(&pre),
        put_effect::<T>(pre, post, put_by_row::<T>(&pre, m, islot)),
        T::enc_val_spec(put_by_row::<T>(&pre, m, islot)).len() <= usize::MAX,
        // rebinding keeps the looked-up index key when donor and row agree on it
        forall|d: <T as View>::V|
            T::index_keys_spec(d)[islot] == T::index_keys_spec(m)[islot]
                ==> #[trigger] T::index_keys_spec(T::adopted_model(m, d))[islot]
                == T::index_keys_spec(m)[islot],
        // on a miss, the incoming primary key is fresh
        !(has_key(pre.at(T::index_names_spec()[islot]), T::index_keys_spec(m)[islot]) && has_key(
            tbl::<T>(&pre),
            val_of(pre.at(T::index_names_spec()[islot]), T::index_keys_spec(m)[islot]),
        )) ==> !has_key(tbl::<T>(&pre), T::enc_key_spec(T::row_key_model(m))),
    ensures
        index_ok::<T>(&post),
{
    let ik = T::index_keys_spec(m)[islot];
    let iat = pre.at(T::index_names_spec()[islot]);
    let r = put_by_row::<T>(&pre, m, islot);
    let kb = T::enc_key_spec(T::row_key_model(r));
    T::index_arity(m);
    T::index_arity(r);
    if has_key(iat, ik) && has_key(tbl::<T>(&pre), val_of(iat, ik)) {
        let pk = val_of(iat, ik);
        let om = val_model_of::<T>(val_of(tbl::<T>(&pre), pk));
        assert(r == T::adopted_model(m, om));
        // the entry we followed is backed: the found row projects to `ik`
        assert(has_key(tbl_idx::<T>(&pre, islot), ik));
        assert(row_ikey::<T>(&pre, pk, islot) == ik);
        assert(T::index_keys_spec(om)[islot] == ik);
        // the rebound row keeps the found row's key and index key
        T::adopted_key_is(m, om);
        assert(kb == T::enc_key_spec(T::row_key_model(om)));
        assert(T::index_keys_spec(r)[islot] == ik);
        // the found row's key is `pk`: its stored value is its own encoding
        assert(kb == pk) by {
            assert(T::enc_key_spec(T::row_key_model(om)) == pk) by {
                let j = crate::store::idx_of(tbl::<T>(&pre), pk);
                assert(0 <= j < tbl::<T>(&pre).len() && tbl::<T>(&pre)[j].0 == pk);
                crate::ops::lemma_at_sorted(&pre, T::table_name());
                crate::store::lemma_idx_at(tbl::<T>(&pre), j);
                assert(T::enc_val_spec(val_model_of::<T>(tbl::<T>(&pre)[j].1)) == tbl::<T>(
                    &pre,
                )[j].1);
            }
        }
        // the overwritten row keeps its single index key
        T::index_arity(om);
        assert(T::index_keys_spec(om)[islot] == T::index_keys_spec(m)[islot]);
        assert(T::index_keys_spec(T::adopted_model(m, om))[islot] == T::index_keys_spec(
            m,
        )[islot]);
        assert(T::index_keys_spec(om) =~= T::index_keys_spec(r));
        // no other row projects to this index key: the entry points here
        assert forall|kb2: Seq<u8>, i: int|
            #![trigger row_ikey::<T>(&pre, kb2, i)]
            has_key(tbl::<T>(&pre), kb2) && kb2 != kb && 0 <= i < T::index_names_spec().len()
                implies row_ikey::<T>(&pre, kb2, i) != T::index_keys_spec(r)[i] by {
            if row_ikey::<T>(&pre, kb2, i) == T::index_keys_spec(r)[i] {
                assert(i == 0);
                assert(row_ikey::<T>(&pre, kb2, 0) == row_ikey::<T>(&pre, kb, 0));
            }
        }
        lemma_put_index_ok::<T>(pre, post, r);
    } else {
        assert(r == m);
        assert(!has_key(tbl::<T>(&pre), kb));
        // no stored row projects to `ik`: its entry would exist
        assert forall|kb2: Seq<u8>, i: int|
            #![trigger row_ikey::<T>(&pre, kb2, i)]
            has_key(tbl::<T>(&pre), kb2) && kb2 != kb && 0 <= i < T::index_names_spec().len()
                implies row_ikey::<T>(&pre, kb2, i) != T::index_keys_spec(r)[i] by {
            if row_ikey::<T>(&pre, kb2, i) == T::index_keys_spec(r)[i] {
                assert(i == 0);
                assert(has_key(tbl_idx::<T>(&pre, 0), row_ikey::<T>(&pre, kb2, 0)));
                assert(val_of(tbl_idx::<T>(&pre, 0), row_ikey::<T>(&pre, kb2, 0)) == kb2);
                assert(has_key(iat, ik) && has_key(tbl::<T>(&pre), val_of(iat, ik)));
            }
        }
        lemma_put_index_ok::<T>(pre, post, r);
    }
}

/// A full scan of a raw-string-keyed table returns rows in strictly
/// ascending UTF-8 byte order of their keys — the semantic order of
/// string keys, whose encoding is the bytes themselves.
pub proof fn lemma_label_scan_ascending(db: &Database)
    requires
        db.db_wf(),
        db.holds(<crate::data::Label as Table>::table_name()),
        values_ok::<crate::data::Label>(db),
    ensures
        forall|j1: int, j2: int|
            0 <= j1 < j2 < tbl::<crate::data::Label>(db).len() ==> lex_lt(
                crate::keys::ks_str_raw(
                    <crate::data::Label as Table>::row_key_model(
                        val_model_of::<crate::data::Label>(
                            (#[trigger] tbl::<crate::data::Label>(db)[j1]).1,
                        ),
                    ),
                ),
                crate::keys::ks_str_raw(
                    <crate::data::Label as Table>::row_key_model(
                        val_model_of::<crate::data::Label>(
                            (#[trigger] tbl::<crate::data::Label>(db)[j2]).1,
                        ),
                    ),
                ),
            ),
{
    lemma_scan_ordered::<crate::data::Label>(db);
}

/// Upsert-by-URL on the repository table is idempotent, with the adoption
/// algebra discharged: a second `put_by` of the same row decides on the
/// same rebound row and leaves the store as the first left it.
pub proof fn lemma_put_by_idempotent_repo(
    s0: Database,
    s1: Database,
    s2: Database,
    m: <crate::data::Repo as View>::V,
)
    requires
        index_exact::<crate::data::Repo>(&s0),
        put_effect::<crate::data::Repo>(s0, s1, put_by_row::<crate::data::Repo>(&s0, m, 0)),
        put_effect::<crate::data::Repo>(s1, s2, put_by_row::<crate::data::Repo>(&s1, m, 0)),
        <crate::data::Repo as Table>::enc_val_spec(
            put_by_row::<crate::data::Repo>(&s0, m, 0),
        ).len() <= usize::MAX,
    ensures
        put_by_row::<crate::data::Repo>(&s1, m, 0) == put_by_row::<crate::data::Repo>(&s0, m, 0),
        same_visible::<crate::data::Repo>(&s1, &s2),
{
    assert forall|d: <crate::data::Repo as View>::V|
        #[trigger] <crate::data::Repo as Table>::adopted_model(
            m,
            <crate::data::Repo as Table>::adopted_model(m, d),
        ) == <crate::data::Repo as Table>::adopted_model(m, d) by {
    }
    assert(<crate::data::Repo as Table>::adopted_model(m, m) == m);
    assert forall|d: <crate::data::Repo as View>::V|
        <crate::data::Repo as Table>::index_keys_spec(d)[0]
            == <crate::data::Repo as Table>::index_keys_spec(m)[0] implies
        #[trigger] <crate::data::Repo as Table>::index_keys_spec(
            <crate::data::Repo as Table>::adopted_model(m, d),
        )[0] == <crate::data::Repo as Table>::index_keys_spec(m)[0] by {
    }
    lemma_put_by_idempotent::<crate::data::Repo>(s0, s1, s2, m, 0);
}

/// The store invariant a table carries between commits: registered, valid
/// values, and indices that agree with the table in both directions.
pub open spec fn store_invariant<T: Table>(db: &Database) -> bool {
    &&& crate::table::table_registered::<T>(db)
    &&& values_ok::<T>(db)
    &&& index_ok::<T>(db)
}

/// The invariant at the commit boundary: a commit installs the working
/// copy verbatim, so a transaction whose writes each preserved the
/// invariant — the empty store satisfies it, and the put, delete and
/// upsert lemmas above preserve it — hands it to every later snapshot.
pub proof fn lemma_commit_boundary<T: Table>(work: Database, committed: Database)
    requires
        committed == work,
        store_invariant::<T>(&work),
    ensures
        store_invariant::<T>(&committed),
{
}
} // verus!

//! Typed store operations with automatic index maintenance.
//!
//! Reads decode rows out of the engine; writes keep every declared index
//! sub-database in step with the table: `put` writes the row and each index
//! entry, `delete` removes the index entries before the row, and `put_by`
//! deduplicates by index key while preserving the stored row's primary key.

use vstd::prelude::*;
use crate::store::{Database, Tx, Wtx, has_key, val_of, idx_of, sorted};
use crate::table::{Table, Index, tbl, tbl_idx, table_registered, values_ok, val_model_of};

verus! {

/// A sub-database reached through the catalog is sorted.
pub proof fn lemma_at_sorted(db: &Database, name: Seq<char>)
    requires
        db.db_wf(),
        db.holds(name),
    ensures
        sorted(db.at(name)),
{
    let w = db.slot_of(name);
    assert(db.names()[w] == name);
    assert(db.subdbs@[w].wf());
}

/// The names a `put` or `delete` of rows of `T` may touch.
pub open spec fn touches<T: Table>(n2: Seq<char>) -> bool {
    n2 == T::table_name() || T::index_names_spec().contains(n2)
}

/// What `put` does to the store: the table takes the row under its encoded
/// primary key, each index maps the row's index key to that primary key,
/// and nothing else changes. Stale index entries of a previous value under
/// the same primary key but a different index key are not cleaned up.
pub open spec fn put_effect<T: Table>(pre: Database, post: Database, m: <T as View>::V) -> bool {
    &&& post.db_wf()
    &&& post.names() == pre.names()
    &&& forall|n2: Seq<char>| post.holds(n2) == pre.holds(n2)
    &&& has_key(tbl::<T>(&post), T::enc_key_spec(T::row_key_model(m)))
    &&& val_of(tbl::<T>(&post), T::enc_key_spec(T::row_key_model(m))) == T::enc_val_spec(m)
    &&& forall|k2: Seq<u8>|
        k2 != T::enc_key_spec(T::row_key_model(m)) ==> (has_key(tbl::<T>(&post), k2) == has_key(
            tbl::<T>(&pre),
            k2,
        ))
    &&& forall|k2: Seq<u8>|
        k2 != T::enc_key_spec(T::row_key_model(m)) && has_key(tbl::<T>(&pre), k2) ==> val_of(
            tbl::<T>(&post),
            k2,
        ) == val_of(tbl::<T>(&pre), k2)
    &&& tbl::<T>(&post).len() == tbl::<T>(&pre).len() + (if has_key(
        tbl::<T>(&pre),
        T::enc_key_spec(T::row_key_model(m)),
    ) {
        0int
    } else {
        1int
    })
    &&& forall|i: int|
        0 <= i < T::index_names_spec().len() ==> has_key(
            #[trigger] tbl_idx::<T>(&post, i),
            T::index_keys_spec(m)[i],
        ) && val_of(tbl_idx::<T>(&post, i), T::index_keys_spec(m)[i]) == T::enc_key_spec(
            T::row_key_model(m),
        )
    &&& forall|i: int, k2: Seq<u8>|
        0 <= i < T::index_names_spec().len() && k2 != T::index_keys_spec(m)[i] ==> (#[trigger] has_key(
            tbl_idx::<T>(&post, i),
            k2,
        ) == has_key(tbl_idx::<T>(&pre, i), k2))
    &&& forall|i: int, k2: Seq<u8>|
        0 <= i < T::index_names_spec().len() && k2 != T::index_keys_spec(m)[i] && has_key(
            tbl_idx::<T>(&pre, i),
            k2,
        ) ==> #[trigger] val_of(tbl_idx::<T>(&post, i), k2) == val_of(tbl_idx::<T>(&pre, i), k2)
    &&& forall|n2: Seq<char>|
        pre.holds(n2) && !touches::<T>(n2) ==> #[trigger] post.at(n2) == pre.at(n2)
}

/// What `delete` does to the store: the key leaves the table, the old row's
/// index entries leave the indices first, and nothing else changes.
pub open spec fn delete_effect<T: Table>(
    pre: Database,
    post: Database,
    km: <T::Key as View>::V,
) -> bool {
    let kb = T::enc_key_spec(km);
    let om = val_model_of::<T>(val_of(tbl::<T>(&pre), kb));
    &&& post.db_wf()
    &&& post.names() == pre.names()
    &&& forall|n2: Seq<char>| post.holds(n2) == pre.holds(n2)
    &&& !has_key(tbl::<T>(&post), kb)
    &&& forall|k2: Seq<u8>|
        k2 != kb ==> (has_key(tbl::<T>(&post), k2) == has_key(tbl::<T>(&pre), k2))
    &&& forall|k2: Seq<u8>|
        k2 != kb && has_key(tbl::<T>(&pre), k2) ==> val_of(tbl::<T>(&post), k2) == val_of(
            tbl::<T>(&pre),
            k2,
        )
    &&& tbl::<T>(&post).len() == tbl::<T>(&pre).len() - (if has_key(tbl::<T>(&pre), kb) {
        1int
    } else {
        0int
    })
    &&& has_key(tbl::<T>(&pre), kb) ==> forall|i: int|
        0 <= i < T::index_names_spec().len() ==> !has_key(
            #[trigger] tbl_idx::<T>(&post, i),
            T::index_keys_spec(om)[i],
        )
    &&& has_key(tbl::<T>(&pre), kb) ==> forall|i: int, k2: Seq<u8>|
        0 <= i < T::index_names_spec().len() && k2 != T::index_keys_spec(om)[i] ==> (
        #[trigger] has_key(tbl_idx::<T>(&post, i), k2) == has_key(tbl_idx::<T>(&pre, i), k2))
    &&& has_key(tbl::<T>(&pre), kb) ==> forall|i: int, k2: Seq<u8>|
        0 <= i < T::index_names_spec().len() && k2 != T::index_keys_spec(om)[i] && has_key(
            tbl_idx::<T>(&pre, i),
            k2,
        ) ==> #[trigger] val_of(tbl_idx::<T>(&post, i), k2) == val_of(tbl_idx::<T>(&pre, i), k2)
    &&& !has_key(tbl::<T>(&pre), kb) ==> forall|i: int|
        0 <= i < T::index_names_spec().len() ==> #[trigger] tbl_idx::<T>(&post, i) == tbl_idx::<T>(
            &pre,
            i,
        )
    &&& forall|n2: Seq<char>|
        pre.holds(n2) && !touches::<T>(n2) ==> #[trigger] post.at(n2) == pre.at(n2)
}

/// Primary-key lookup.
pub(crate) fn db_get<T: Table>(db: &Database, k: &T::Key) -> (r: Option<T>)
    requires
        db.db_wf(),
        table_registered::<T>(db),
        values_ok::<T>(db),
    ensures
        r is Some <==> has_key(tbl::<T>(db), T::enc_key_spec(k@)),
        r is Some ==> T::enc_val_spec(r.unwrap()@) == val_of(tbl::<T>(db), T::enc_key_spec(k@)),
{
    let name = T::name();
    let kb = T::enc_key(k);
    match db.raw_get(&name, kb.as_slice()) {
        Some(vb) => {
            proof {
                let s = tbl::<T>(db);
                let j = idx_of(s, kb@);
                assert(0 <= j < s.len() && s[j].0 == kb@);
                assert(T::enc_val_spec(val_model_of::<T>(tbl::<T>(db)[j].1)) == tbl::<T>(db)[j].1);
            }
            match T::dec_val(vb.as_slice()) {
                Some(v) => Some(v),
                None => unreached(),
            }
        },
        None => None,
    }
}

/// Index lookup: find the primary key under the index key, then chase it
/// into the table. A dangling index entry yields nothing.
pub(crate) fn db_get_by<I: Index>(db: &Database, ik: &I::Key) -> (r: Option<I::Owner>)
    requires
        db.db_wf(),
        table_registered::<I::Owner>(db),
        values_ok::<I::Owner>(db),
    ensures
        r is Some <==> (has_key(db.at(I::index_name()), I::enc_ikey_spec(ik@)) && has_key(
            tbl::<I::Owner>(db),
            val_of(db.at(I::index_name()), I::enc_ikey_spec(ik@)),
        )),
        r is Some ==> <I::Owner as Table>::enc_val_spec(r.unwrap()@) == val_of(
            tbl::<I::Owner>(db),
            val_of(db.at(I::index_name()), I::enc_ikey_spec(ik@)),
        ),
{
    proof {
        I::index_laws();
    }
    let iname = I::name();
    let tname = <I::Owner as Table>::name();
    let ikb = I::enc_ikey(ik);
    match db.raw_get(&iname, ikb.as_slice()) {
        Some(pkb) => {
            match db.raw_get(&tname, pkb.as_slice()) {
                Some(vb) => {
                    proof {
                        let s = tbl::<I::Owner>(db);
                        let j = idx_of(s, pkb@);
                        assert(0 <= j < s.len() && s[j].0 == pkb@);
                        assert(<I::Owner as Table>::enc_val_spec(
                            val_model_of::<I::Owner>(tbl::<I::Owner>(db)[j].1),
                        ) == tbl::<I::Owner>(db)[j].1);
                    }
                    match <I::Owner as Table>::dec_val(vb.as_slice()) {
                        Some(v) => Some(v),
                        None => unreached(),
                    }
                },
                None => None,
            }
        },
        None => None,
    }
}

/// Full forward scan: every row of the table, in ascending encoded-key order.
pub(crate) fn db_scan<T: Table>(db: &Database) -> (r: Vec<T>)
    requires
        db.db_wf(),
        table_registered::<T>(db),
        values_ok::<T>(db),
    ensures
        r@.len() == tbl::<T>(db).len(),
        forall|j: int|
            0 <= j < r@.len() ==> T::enc_val_spec((#[trigger] r@[j])@) == tbl::<T>(db)[j].1,
        forall|j: int|
            0 <= j < r@.len() ==> T::enc_key_spec(T::row_key_model((#[trigger] r@[j])@)) == tbl::<
                T,
            >(db)[j].0,
{
    let name = T::name();
    let entries = db.raw_scan(&name);
    let ghost s = tbl::<T>(db);
    let mut r: Vec<T> = Vec::new();
    let n: usize = entries.len();
    proof {
        assert(entries@.map_values(|e: crate::store::Entry| e@).len() == s.len());
        assert forall|j: int| #![trigger s[j]] 0 <= j < s.len() implies T::enc_val_spec(
            val_model_of::<T>(s[j].1),
        ) == s[j].1 && T::enc_key_spec(T::row_key_model(val_model_of::<T>(s[j].1))) == s[j].0 by {
            assert(T::enc_val_spec(val_model_of::<T>(tbl::<T>(db)[j].1)) == tbl::<T>(db)[j].1);
        }
    }
    let mut i: usize = 0;
    while i < n
        invariant
            0 <= i <= n,
            n == entries@.len(),
            n == s.len(),
            s == tbl::<T>(db),
            forall|j: int|
                #![trigger s[j]]
                0 <= j < s.len() ==> T::enc_val_spec(val_model_of::<T>(s[j].1)) == s[j].1
                    && T::enc_key_spec(T::row_key_model(val_model_of::<T>(s[j].1))) == s[j].0,
            forall|j: int| 0 <= j < n ==> (#[trigger] entries@[j])@ == s[j],
            r@.len() == i,
            forall|j: int| 0 <= j < i ==> T::enc_val_spec((#[trigger] r@[j])@) == s[j].1,
            forall|j: int|
                0 <= j < i ==> T::enc_key_spec(T::row_key_model((#[trigger] r@[j])@)) == s[j].0,
        decreases n - i,
    {
        proof {
            assert(T::enc_val_spec(val_model_of::<T>(s[i as int].1)) == s[i as int].1);
        }
        let v = match T::dec_val(entries[i].v.as_slice()) {
            Some(v) => v,
            None => unreached(),
        };
        proof {
            assert(entries@[i as int].v.len() == entries@[i as int].v@.len());
            T::enc_val_injective(v@, val_model_of::<T>(s[i as int].1));
        }
        r.push(v);
        i = i + 1;
    }
    r
}

/// Write the row under its own primary key and refresh every index entry.
/// Stale index entries of a previous value under the same primary key but a
/// different index key are not cleaned up.
pub(crate) fn db_put<T: Table>(db: &mut Database, v: &T)
    requires
        old(db).db_wf(),
        table_registered::<T>(old(db)),
        values_ok::<T>(old(db)),
    ensures
        put_effect::<T>(*old(db), *final(db), v@),
        table_registered::<T>(final(db)),
        values_ok::<T>(final(db)),
{
    proof {
        T::names_distinct();
        T::index_arity(v@);
    }
    let ghost pre = *db;
    let tname = T::name();
    let k = v.key_of();
    let kb = T::enc_key(&k);
    let vb = v.enc_val();
    db.raw_put(&tname, kb.as_slice(), vb.as_slice());
    let ghost mid = *db;
    let n: usize = T::index_count();
    let mut i: usize = 0;
    while i < n
        invariant
            0 <= i <= n,
            n == T::index_names_spec().len(),
            T::index_keys_spec(v@).len() == n,
            kb@ == T::enc_key_spec(T::row_key_model(v@)),
            vb@ == T::enc_val_spec(v@),
            db.db_wf(),
            db.names() == mid.names(),
            forall|n2: Seq<char>| db.holds(n2) == mid.holds(n2),
            mid.db_wf(),
            table_registered::<T>(&mid),
            // already-updated slots
            forall|j: int|
                0 <= j < i ==> has_key(#[trigger] tbl_idx::<T>(db, j), T::index_keys_spec(v@)[j])
                    && val_of(tbl_idx::<T>(db, j), T::index_keys_spec(v@)[j]) == kb@,
            forall|j: int, k2: Seq<u8>|
                0 <= j < i && k2 != T::index_keys_spec(v@)[j] ==> (#[trigger] has_key(
                    tbl_idx::<T>(db, j),
                    k2,
                ) == has_key(tbl_idx::<T>(&mid, j), k2)),
            forall|j: int, k2: Seq<u8>|
                0 <= j < i && k2 != T::index_keys_spec(v@)[j] && has_key(tbl_idx::<T>(&mid, j), k2)
                    ==> #[trigger] val_of(tbl_idx::<T>(db, j), k2) == val_of(
                    tbl_idx::<T>(&mid, j),
                    k2,
                ),
            // slots not yet updated, the table, and everything else
            forall|n2: Seq<char>|
                mid.holds(n2) && (n2 == T::table_name() || !(exists|j: int|
                    0 <= j < i && n2 == #[trigger] T::index_names_spec()[j])) ==> #[trigger] db.at(
                    n2,
                ) == mid.at(n2),
        decreases n - i,
    {
        let iname = T::index_name(i);
        let ikb = v.index_key(i);
        proof {
            T::names_distinct();
            T::index_arity(v@);
            assert(mid.holds(T::index_names_spec()[i as int]));
        }
        let ghost step = *db;
        db.raw_put(&iname, ikb.as_slice(), kb.as_slice());
        proof {
            assert forall|n2: Seq<char>| step.holds(n2) && n2 != iname@ implies #[trigger] db.at(
                n2,
            ) == step.at(n2) by {}
            assert forall|j: int| 0 <= j < i + 1 implies has_key(
                #[trigger] tbl_idx::<T>(db, j),
                T::index_keys_spec(v@)[j],
            ) && val_of(tbl_idx::<T>(db, j), T::index_keys_spec(v@)[j]) == kb@ by {
                if j == i {
                    assert(tbl_idx::<T>(db, j) == db.at(iname@));
                } else {
                    assert(T::index_names_spec()[j] != iname@);
                    assert(step.holds(T::index_names_spec()[j]));
                    assert(tbl_idx::<T>(db, j) == tbl_idx::<T>(&step, j));
                }
            }
            assert forall|j: int, k2: Seq<u8>|
                0 <= j < i + 1 && k2 != T::index_keys_spec(v@)[j] implies (#[trigger] has_key(
                    tbl_idx::<T>(db, j),
                    k2,
                ) == has_key(tbl_idx::<T>(&mid, j), k2)) by {
                if j == i {
                    assert(tbl_idx::<T>(db, j) == db.at(iname@));
                    assert(tbl_idx::<T>(&step, j) == tbl_idx::<T>(&mid, j));
                } else {
                    assert(T::index_names_spec()[j] != iname@);
                    assert(step.holds(T::index_names_spec()[j]));
                    assert(tbl_idx::<T>(db, j) == tbl_idx::<T>(&step, j));
                }
            }
            assert forall|j: int, k2: Seq<u8>|
                0 <= j < i + 1 && k2 != T::index_keys_spec(v@)[j] && has_key(
                    tbl_idx::<T>(&mid, j),
                    k2,
                ) implies #[trigger] val_of(tbl_idx::<T>(db, j), k2) == val_of(
                    tbl_idx::<T>(&mid, j),
                    k2,
                ) by {
                if j == i {
                    assert(tbl_idx::<T>(db, j) == db.at(iname@));
                    assert(tbl_idx::<T>(&step, j) == tbl_idx::<T>(&mid, j));
                } else {
                    assert(T::index_names_spec()[j] != iname@);
                    assert(step.holds(T::index_names_spec()[j]));
                    assert(tbl_idx::<T>(db, j) == tbl_idx::<T>(&step, j));
                }
            }
            assert forall|n2: Seq<char>|
                mid.holds(n2) && (n2 == T::table_name() || !(exists|j: int|
                    0 <= j < i + 1 && n2 == #[trigger] T::index_names_spec()[j])) implies db.at(
                    n2,
                ) == mid.at(n2) by {
                assert(n2 != iname@);
                assert(step.holds(n2));
            }
        }
        i = i + 1;
    }
    proof {
        // the table kept the value written before the index loop
        assert(db.at(T::table_name()) == mid.at(T::table_name()));
        // well-formedness of the stored values
        assert(values_ok::<T>(db)) by {
            let s = tbl::<T>(db);
            lemma_at_sorted(db, T::table_name());
            lemma_at_sorted(&pre, T::table_name());
            assert forall|j: int| 0 <= j < s.len() implies T::enc_val_spec(
                val_model_of::<T>((#[trigger] s[j]).1),
            ) == s[j].1 && T::enc_key_spec(T::row_key_model(val_model_of::<T>(s[j].1))) == s[j].0
                by {
                let k2 = s[j].0;
                crate::store::lemma_idx_at(s, j);
                if k2 == kb@ {
                    assert(s[j].1 == vb@);
                    assert(vb.len() == vb@.len());
                    assert(T::enc_val_spec(v@) == s[j].1);
                    T::enc_val_injective(val_model_of::<T>(s[j].1), v@);
                } else {
                    assert(has_key(tbl::<T>(&pre), k2));
                    let j0 = idx_of(tbl::<T>(&pre), k2);
                    assert(0 <= j0 < tbl::<T>(&pre).len() && tbl::<T>(&pre)[j0].0 == k2);
                    crate::store::lemma_idx_at(tbl::<T>(&pre), j0);
                    assert(T::enc_val_spec(val_model_of::<T>(tbl::<T>(&pre)[j0].1)) == tbl::<T>(
                        &pre,
                    )[j0].1);
                    assert(val_of(tbl::<T>(&pre), k2) == tbl::<T>(&pre)[j0].1);
                    assert(s[j].1 == tbl::<T>(&pre)[j0].1);
                }
            }
        }
    }
}


/// Remove the row under the key: index entries leave first, so no reader of
/// a later snapshot sees an index entry pointing at a missing row.
pub(crate) fn db_delete<T: Table>(db: &mut Database, k: &T::Key)
    requires
        old(db).db_wf(),
        table_registered::<T>(old(db)),
        values_ok::<T>(old(db)),
    ensures
        delete_effect::<T>(*old(db), *final(db), k@),
        table_registered::<T>(final(db)),
        values_ok::<T>(final(db)),
{
    proof {
        T::names_distinct();
    }
    let ghost pre = *db;
    let tname = T::name();
    let kb = T::enc_key(k);
    let found = db.raw_get(&tname, kb.as_slice());
    match found {
        Some(ob) => {
            proof {
                let s0 = tbl::<T>(db);
                let j = idx_of(s0, kb@);
                assert(0 <= j < s0.len() && s0[j].0 == kb@);
                assert(T::enc_val_spec(val_model_of::<T>(tbl::<T>(db)[j].1)) == tbl::<T>(db)[j].1);
            }
            let ov = match T::dec_val(ob.as_slice()) {
                Some(v) => v,
                None => unreached(),
            };
            let ghost om = val_model_of::<T>(val_of(tbl::<T>(&pre), kb@));
            proof {
                assert(ob.len() == ob@.len());
                T::enc_val_injective(ov@, om);
                T::index_arity(ov@);
            }
            let n: usize = T::index_count();
            let mut i: usize = 0;
            while i < n
                invariant
                    0 <= i <= n,
                    n == T::index_names_spec().len(),
                    T::index_keys_spec(ov@).len() == n,
                    ov@ == om,
                    db.db_wf(),
                    db.names() == pre.names(),
                    forall|n2: Seq<char>| db.holds(n2) == pre.holds(n2),
                    pre.db_wf(),
                    table_registered::<T>(&pre),
                    forall|j: int|
                        0 <= j < i ==> !has_key(
                            #[trigger] tbl_idx::<T>(db, j),
                            T::index_keys_spec(om)[j],
                        ),
                    forall|j: int, k2: Seq<u8>|
                        0 <= j < i && k2 != T::index_keys_spec(om)[j] ==> (#[trigger] has_key(
                            tbl_idx::<T>(db, j),
                            k2,
                        ) == has_key(tbl_idx::<T>(&pre, j), k2)),
                    forall|j: int, k2: Seq<u8>|
                        0 <= j < i && k2 != T::index_keys_spec(om)[j] && has_key(
                            tbl_idx::<T>(&pre, j),
                            k2,
                        ) ==> #[trigger] val_of(tbl_idx::<T>(db, j), k2) == val_of(
                            tbl_idx::<T>(&pre, j),
                            k2,
                        ),
                    forall|n2: Seq<char>|
                        pre.holds(n2) && (n2 == T::table_name() || !(exists|j: int|
                            0 <= j < i && n2 == #[trigger] T::index_names_spec()[j])) ==> #[trigger] db.at(
                            n2,
                        ) == pre.at(n2),
                decreases n - i,
            {
                let iname = T::index_name(i);
                let ikb = ov.index_key(i);
                proof {
                    T::names_distinct();
                    assert(pre.holds(T::index_names_spec()[i as int]));
                }
                let ghost step = *db;
                db.raw_del(&iname, ikb.as_slice());
                proof {
                    assert forall|n2: Seq<char>| step.holds(n2) && n2 != iname@ implies
                        #[trigger] db.at(n2) == step.at(n2) by {}
                    assert forall|j: int| 0 <= j < i + 1 implies !has_key(
                        #[trigger] tbl_idx::<T>(db, j),
                        T::index_keys_spec(om)[j],
                    ) by {
                        if j == i {
                            assert(tbl_idx::<T>(db, j) == db.at(iname@));
                        } else {
                            assert(T::index_names_spec()[j] != iname@);
                            assert(step.holds(T::index_names_spec()[j]));
                            assert(tbl_idx::<T>(db, j) == tbl_idx::<T>(&step, j));
                        }
                    }
                    assert forall|j: int, k2: Seq<u8>|
                        0 <= j < i + 1 && k2 != T::index_keys_spec(om)[j] implies (
                        #[trigger] has_key(tbl_idx::<T>(db, j), k2) == has_key(
                            tbl_idx::<T>(&pre, j),
                            k2,
                        )) by {
                        if j == i {
                            assert(tbl_idx::<T>(db, j) == db.at(iname@));
                            assert(tbl_idx::<T>(&step, j) == tbl_idx::<T>(&pre, j));
                        } else {
                            assert(T::index_names_spec()[j] != iname@);
                            assert(step.holds(T::index_names_spec()[j]));
                            assert(tbl_idx::<T>(db, j) == tbl_idx::<T>(&step, j));
                        }
                    }
                    assert forall|j: int, k2: Seq<u8>|
                        0 <= j < i + 1 && k2 != T::index_keys_spec(om)[j] && has_key(
                            tbl_idx::<T>(&pre, j),
                            k2,
                        ) implies #[trigger] val_of(tbl_idx::<T>(db, j), k2) == val_of(
                            tbl_idx::<T>(&pre, j),
                            k2,
                        ) by {
                        if j == i {
                            assert(tbl_idx::<T>(db, j) == db.at(iname@));
                            assert(tbl_idx::<T>(&step, j) == tbl_idx::<T>(&pre, j));
                        } else {
                            assert(T::index_names_spec()[j] != iname@);
                            assert(step.holds(T::index_names_spec()[j]));
                            assert(tbl_idx::<T>(db, j) == tbl_idx::<T>(&step, j));
                        }
                    }
                    assert forall|n2: Seq<char>|
                        pre.holds(n2) && (n2 == T::table_name() || !(exists|j: int|
                            0 <= j < i + 1 && n2 == #[trigger] T::index_names_spec()[j])) implies db.at(
                            n2,
                        ) == pre.at(n2) by {
                        assert(n2 != iname@);
                        assert(step.holds(n2));
                    }
                }
                i = i + 1;
            }
            let ghost mid = *db;
            db.raw_del(&tname, kb.as_slice());
            proof {
                T::names_distinct();
                assert forall|j: int| 0 <= j < n implies #[trigger] tbl_idx::<T>(db, j)
                    == tbl_idx::<T>(&mid, j) by {
                    assert(T::index_names_spec()[j] != T::table_name());
                    assert(mid.holds(T::index_names_spec()[j]));
                }
                assert(tbl::<T>(&mid) == tbl::<T>(&pre));
                db_values_still_ok::<T>(pre, *db, kb@);
            }
        },
        None => {
            let ghost mid = *db;
            db.raw_del(&tname, kb.as_slice());
            proof {
                T::names_distinct();
                assert forall|j: int|
                    0 <= j < T::index_names_spec().len() implies #[trigger] tbl_idx::<T>(db, j)
                    == tbl_idx::<T>(&pre, j) by {
                    assert(T::index_names_spec()[j] != T::table_name());
                    assert(pre.holds(T::index_names_spec()[j]));
                }
                db_values_still_ok::<T>(pre, *db, kb@);
            }
        },
    }
}

/// A table whose stored values were valid stays valid when entries only
/// disappear or keep their values.
proof fn db_values_still_ok<T: Table>(pre: Database, post: Database, kb: Seq<u8>)
    requires
        pre.db_wf(),
        post.db_wf(),
        pre.holds(T::table_name()),
        post.holds(T::table_name()),
        values_ok::<T>(&pre),
        forall|k2: Seq<u8>|
            k2 != kb ==> (has_key(tbl::<T>(&post), k2) == has_key(tbl::<T>(&pre), k2)),
        forall|k2: Seq<u8>|
            k2 != kb && has_key(tbl::<T>(&pre), k2) ==> val_of(tbl::<T>(&post), k2) == val_of(
                tbl::<T>(&pre),
                k2,
            ),
        !has_key(tbl::<T>(&post), kb),
    ensures
        values_ok::<T>(&post),
{
    let s = tbl::<T>(&post);
    let s0 = tbl::<T>(&pre);
    lemma_at_sorted(&post, T::table_name());
    lemma_at_sorted(&pre, T::table_name());
    assert forall|j: int| 0 <= j < s.len() implies T::enc_val_spec(
        val_model_of::<T>((#[trigger] s[j]).1),
    ) == s[j].1 && T::enc_key_spec(T::row_key_model(val_model_of::<T>(s[j].1))) == s[j].0 by {
        let k2 = s[j].0;
        crate::store::lemma_idx_at(s, j);
        assert(k2 != kb);
        assert(has_key(s0, k2));
        let j0 = idx_of(s0, k2);
        assert(0 <= j0 < s0.len() && s0[j0].0 == k2);
        crate::store::lemma_idx_at(s0, j0);
        assert(T::enc_val_spec(val_model_of::<T>(s0[j0].1)) == s0[j0].1);
        assert(s[j].1 == s0[j0].1);
    }
}

/// Upsert by index key: if a stored row projects to the same index key, the
/// incoming row is first handed to `patch` together with that old row, and
/// what `patch` returns is written. The store then looks as after a plain
/// `put` of the written row.
pub(crate) fn db_put_by_with<I: Index, F: FnOnce(I::Owner, I::Owner) -> I::Owner>(
    db: &mut Database,
    v: I::Owner,
    patch: F,
) -> (r: I::Owner)
    requires
        old(db).db_wf(),
        table_registered::<I::Owner>(old(db)),
        values_ok::<I::Owner>(old(db)),
        forall|a: I::Owner, b: I::Owner| #[trigger] call_requires(patch, (a, b)),
    ensures
        ({
            let iks = <I::Owner as Table>::index_keys_spec(v@)[I::slot()];
            let iat = old(db).at(I::index_name());
            if has_key(iat, iks) && has_key(tbl::<I::Owner>(old(db)), val_of(iat, iks)) {
                exists|ov: I::Owner|
                    ov@ == val_model_of::<I::Owner>(
                        val_of(tbl::<I::Owner>(old(db)), val_of(iat, iks)),
                    ) && #[trigger] call_ensures(patch, (ov, v), r)
            } else {
                r == v
            }
        }),
        put_effect::<I::Owner>(*old(db), *final(db), r@),
        table_registered::<I::Owner>(final(db)),
        values_ok::<I::Owner>(final(db)),
{
    proof {
        I::index_laws();
    }
    let islot = I::slot_exec();
    let iname = I::name();
    let tname = <I::Owner as Table>::name();
    let ikb = v.index_key(islot);
    let looked = db.raw_get(&iname, ikb.as_slice());
    match looked {
        Some(pkb) => {
            let old_bytes = db.raw_get(&tname, pkb.as_slice());
            match old_bytes {
                Some(ob) => {
                    proof {
                        let s = tbl::<I::Owner>(db);
                        let j = idx_of(s, pkb@);
                        assert(0 <= j < s.len() && s[j].0 == pkb@);
                        assert(<I::Owner as Table>::enc_val_spec(
                            val_model_of::<I::Owner>(tbl::<I::Owner>(db)[j].1),
                        ) == tbl::<I::Owner>(db)[j].1);
                    }
                    let ov = match <I::Owner as Table>::dec_val(ob.as_slice()) {
                        Some(w) => w,
                        None => unreached(),
                    };
                    proof {
                        assert(ob.len() == ob@.len());
                        <I::Owner as Table>::enc_val_injective(
                            ov@,
                            val_model_of::<I::Owner>(
                                val_of(
                                    tbl::<I::Owner>(db),
                                    val_of(db.at(I::index_name()), ikb@),
                                ),
                            ),
                        );
                    }
                    let r0 = patch(ov, v);
                    db_put::<I::Owner>(db, &r0);
                    r0
                },
                None => {
                    db_put::<I::Owner>(db, &v);
                    v
                },
            }
        },
        None => {
            db_put::<I::Owner>(db, &v);
            v
        },
    }
}

/// Upsert by index key, rebinding the incoming row's primary key to the
/// stored row's: the natural key deduplicates while surrogate ids stay
/// stable.
pub(crate) fn db_put_by<I: Index>(db: &mut Database, v: I::Owner) -> (r: I::Owner)
    requires
        old(db).db_wf(),
        table_registered::<I::Owner>(old(db)),
        values_ok::<I::Owner>(old(db)),
    ensures
        ({
            let iks = <I::Owner as Table>::index_keys_spec(v@)[I::slot()];
            let iat = old(db).at(I::index_name());
            if has_key(iat, iks) && has_key(tbl::<I::Owner>(old(db)), val_of(iat, iks)) {
                r@ == <I::Owner as Table>::adopted_model(
                    v@,
                    val_model_of::<I::Owner>(val_of(tbl::<I::Owner>(old(db)), val_of(iat, iks))),
                )
            } else {
                r@ == v@
            }
        }),
        put_effect::<I::Owner>(*old(db), *final(db), r@),
        table_registered::<I::Owner>(final(db)),
        values_ok::<I::Owner>(final(db)),
{
    let rebind = |donor: I::Owner, nv: I::Owner| -> (res: I::Owner)
        ensures
            res@ == <I::Owner as Table>::adopted_model(nv@, donor@),
        {
            let mut out = nv;
            out.adopt_key(&donor);
            out
        };
    let ghost pre = *db;
    let r = db_put_by_with::<I, _>(db, v, rebind);
    proof {
        let iks = <I::Owner as Table>::index_keys_spec(v@)[I::slot()];
        let iat = pre.at(I::index_name());
        if has_key(iat, iks) && has_key(tbl::<I::Owner>(&pre), val_of(iat, iks)) {
            let ov = choose|ov: I::Owner|
                ov@ == val_model_of::<I::Owner>(val_of(tbl::<I::Owner>(&pre), val_of(iat, iks)))
                    && #[trigger] call_ensures(rebind, (ov, v), r);
        }
    }
    r
}

impl<'a> Tx<'a> {
    /// Primary-key lookup in this snapshot.
    pub fn get<T: Table>(&self, k: &T::Key) -> (r: Option<T>)
        requires
            self.db.db_wf(),
            table_registered::<T>(self.db),
            values_ok::<T>(self.db),
        ensures
            r is Some <==> has_key(tbl::<T>(self.db), T::enc_key_spec(k@)),
            r is Some ==> T::enc_val_spec(r.unwrap()@) == val_of(
                tbl::<T>(self.db),
                T::enc_key_spec(k@),
            ),
    {
        db_get(self.db, k)
    }

    /// Index lookup in this snapshot.
    pub fn get_by<I: Index>(&self, ik: &I::Key) -> (r: Option<I::Owner>)
        requires
            self.db.db_wf(),
            table_registered::<I::Owner>(self.db),
            values_ok::<I::Owner>(self.db),
        ensures
            r is Some <==> (has_key(self.db.at(I::index_name()), I::enc_ikey_spec(ik@)) && has_key(
                tbl::<I::Owner>(self.db),
                val_of(self.db.at(I::index_name()), I::enc_ikey_spec(ik@)),
            )),
            r is Some ==> <I::Owner as Table>::enc_val_spec(r.unwrap()@) == val_of(
                tbl::<I::Owner>(self.db),
                val_of(self.db.at(I::index_name()), I::enc_ikey_spec(ik@)),
            ),
    {
        db_get_by::<I>(self.db, ik)
    }

    /// Full forward scan of the table, in ascending encoded-key order.
    pub fn scan<T: Table>(&self) -> (r: Vec<T>)
        requires
            self.db.db_wf(),
            table_registered::<T>(self.db),
            values_ok::<T>(self.db),
        ensures
            r@.len() == tbl::<T>(self.db).len(),
            forall|j: int|
                0 <= j < r@.len() ==> T::enc_val_spec((#[trigger] r@[j])@) == tbl::<T>(
                    self.db,
                )[j].1,
            forall|j: int|
                0 <= j < r@.len() ==> T::enc_key_spec(T::row_key_model((#[trigger] r@[j])@))
                    == tbl::<T>(self.db)[j].0,
    {
        db_scan(self.db)
    }
}

impl Wtx {
    /// Primary-key lookup; a writer sees its own writes.
    pub fn get<T: Table>(&self, k: &T::Key) -> (r: Option<T>)
        requires
            self.work.db_wf(),
            table_registered::<T>(&self.work),
            values_ok::<T>(&self.work),
        ensures
            r is Some <==> has_key(tbl::<T>(&self.work), T::enc_key_spec(k@)),
            r is Some ==> T::enc_val_spec(r.unwrap()@) == val_of(
                tbl::<T>(&self.work),
                T::enc_key_spec(k@),
            ),
    {
        db_get(&self.work, k)
    }

    /// Index lookup; a writer sees its own writes.
    pub fn get_by<I: Index>(&self, ik: &I::Key) -> (r: Option<I::Owner>)
        requires
            self.work.db_wf(),
            table_registered::<I::Owner>(&self.work),
            values_ok::<I::Owner>(&self.work),
        ensures
            r is Some <==> (has_key(self.work.at(I::index_name()), I::enc_ikey_spec(ik@))
                && has_key(
                tbl::<I::Owner>(&self.work),
                val_of(self.work.at(I::index_name()), I::enc_ikey_spec(ik@)),
            )),
            r is Some ==> <I::Owner as Table>::enc_val_spec(r.unwrap()@) == val_of(
                tbl::<I::Owner>(&self.work),
                val_of(self.work.at(I::index_name()), I::enc_ikey_spec(ik@)),
            ),
    {
        db_get_by::<I>(&self.work, ik)
    }

    /// Full forward scan, in ascending encoded-key order.
    pub fn scan<T: Table>(&self) -> (r: Vec<T>)
        requires
            self.work.db_wf(),
            table_registered::<T>(&self.work),
            values_ok::<T>(&self.work),
        ensures
            r@.len() == tbl::<T>(&self.work).len(),
            forall|j: int|
                0 <= j < r@.len() ==> T::enc_val_spec((#[trigger] r@[j])@) == tbl::<T>(
                    &self.work,
                )[j].1,
            forall|j: int|
                0 <= j < r@.len() ==> T::enc_key_spec(T::row_key_model((#[trigger] r@[j])@))
                    == tbl::<T>(&self.work)[j].0,
    {
        db_scan(&self.work)
    }

    /// Write the row, blindly overwriting by primary key, and refresh every
    /// index entry.
    pub fn put<T: Table>(&mut self, v: &T)
        requires
            old(self).work.db_wf(),
            table_registered::<T>(&old(self).work),
            values_ok::<T>(&old(self).work),
        ensures
            put_effect::<T>(old(self).work, final(self).work, v@),
            table_registered::<T>(&final(self).work),
            values_ok::<T>(&final(self).work),
    {
        db_put(&mut self.work, v)
    }

    /// Remove the row under the key; its index entries leave first.
    pub fn delete<T: Table>(&mut self, k: &T::Key)
        requires
            old(self).work.db_wf(),
            table_registered::<T>(&old(self).work),
            values_ok::<T>(&old(self).work),
        ensures
            delete_effect::<T>(old(self).work, final(self).work, k@),
            table_registered::<T>(&final(self).work),
            values_ok::<T>(&final(self).work),
    {
        db_delete::<T>(&mut self.work, k)
    }

    /// Upsert by index key, preserving the stored row's primary key.
    pub fn put_by<I: Index>(&mut self, v: I::Owner) -> (r: I::Owner)
        requires
            old(self).work.db_wf(),
            table_registered::<I::Owner>(&old(self).work),
            values_ok::<I::Owner>(&old(self).work),
        ensures
            ({
                let iks = <I::Owner as Table>::index_keys_spec(v@)[I::slot()];
                let iat = old(self).work.at(I::index_name());
                if has_key(iat, iks) && has_key(tbl::<I::Owner>(&old(self).work), val_of(iat, iks)) {
                    r@ == <I::Owner as Table>::adopted_model(
                        v@,
                        val_model_of::<I::Owner>(
                            val_of(tbl::<I::Owner>(&old(self).work), val_of(iat, iks)),
                        ),
                    )
                } else {
                    r@ == v@
                }
            }),
            put_effect::<I::Owner>(old(self).work, final(self).work, r@),
            table_registered::<I::Owner>(&final(self).work),
            values_ok::<I::Owner>(&final(self).work),
    {
        db_put_by::<I>(&mut self.work, v)
    }

    /// Upsert by index key, letting `patch` carry fields of the stored row
    /// over into the incoming one.
    pub fn put_by_with<I: Index, F: FnOnce(I::Owner, I::Owner) -> I::Owner>(
        &mut self,
        v: I::Owner,
        patch: F,
    ) -> (r: I::Owner)
        requires
            old(self).work.db_wf(),
            table_registered::<I::Owner>(&old(self).work),
            values_ok::<I::Owner>(&old(self).work),
            forall|a: I::Owner, b: I::Owner| #[trigger] call_requires(patch, (a, b)),
        ensures
            ({
                let iks = <I::Owner as Table>::index_keys_spec(v@)[I::slot()];
                let iat = old(self).work.at(I::index_name());
                if has_key(iat, iks) && has_key(tbl::<I::Owner>(&old(self).work), val_of(iat, iks)) {
                    exists|ov: I::Owner|
                        ov@ == val_model_of::<I::Owner>(
                            val_of(tbl::<I::Owner>(&old(self).work), val_of(iat, iks)),
                        ) && #[trigger] call_ensures(patch, (ov, v), r)
                } else {
                    r == v
                }
            }),
            put_effect::<I::Owner>(old(self).work, final(self).work, r@),
            table_registered::<I::Owner>(&final(self).work),
            values_ok::<I::Owner>(&final(self).work),
    {
        db_put_by_with::<I, F>(&mut self.work, v, patch)
    }
}

/// A filtered scan, materialized client-side and handed out row by row.
pub struct Query<T, F> {
    /// The remaining rows, in reverse order: the next row to consider is
    /// the last.
    pub rows: Vec<T>,
    /// The client-side predicate rows must pass.
    pub filter: F,
}

/// What one pull from a query does: the first `k` remaining rows were
/// handed to the filter and rejected; then either the row at `k` passed
/// and is returned, the rows after it remaining, or nothing was left to
/// pass and the query is exhausted.
pub open spec fn query_step<T, F: Fn(&T) -> bool>(
    filter: F,
    rem0: Seq<T>,
    rem1: Seq<T>,
    r: Option<T>,
    k: int,
) -> bool {
    &&& 0 <= k <= rem0.len()
    &&& forall|q: int| 0 <= q < k ==> call_ensures(filter, (&(#[trigger] rem0[q]),), false)
    &&& if k < rem0.len() {
        &&& r == Some(rem0[k])
        &&& call_ensures(filter, (&rem0[k],), true)
        &&& rem1 == rem0.skip(k + 1)
    } else {
        &&& r is None
        &&& rem1.len() == 0
    }
}

impl<T, F: Fn(&T) -> bool> Query<T, F> {
    /// The rows not yet considered, first to be considered first.
    pub open spec fn remaining(&self) -> Seq<T> {
        self.rows@.reverse()
    }

    /// The next remaining row that passes the filter, if any: every row
    /// before it was handed to the filter and rejected; a `None` says the
    /// filter rejected everything left.
    pub fn next(&mut self) -> (r: Option<T>)
        requires
            forall|t: T| #[trigger] call_requires(old(self).filter, (&t,)),
        ensures
            final(self).filter == old(self).filter,
            exists|k: int|
                query_step(
                    old(self).filter,
                    old(self).remaining(),
                    final(self).remaining(),
                    r,
                    k,
                ),
    {
        let ghost rem0 = self.remaining();
        let ghost mut k: int = 0;
        loop
            invariant
                forall|t: T| #[trigger] call_requires(self.filter, (&t,)),
                self.filter == old(self).filter,
                0 <= k <= rem0.len(),
                rem0 == old(self).remaining(),
                self.remaining() == rem0.skip(k),
                forall|q: int|
                    0 <= q < k ==> call_ensures(self.filter, (&(#[trigger] rem0[q]),), false),
            decreases self.rows@.len(),
        {
            let ghost pre_rows = self.rows@;
            match self.rows.pop() {
                Some(row) => {
                    proof {
                        assert(pre_rows.len() > 0);
                        assert(pre_rows.reverse()[0] == pre_rows[pre_rows.len() - 1]);
                        assert(pre_rows.reverse().len() == pre_rows.len());
                        assert(rem0.skip(k)[0] == rem0[k]);
                        assert(row == rem0[k]);
                        assert(self.rows@ =~= pre_rows.drop_last());
                        assert forall|q: int|
                            0 <= q < self.rows@.len() implies #[trigger] self.rows@.reverse()[q]
                            == pre_rows.reverse()[q + 1] by {
                        }
                        assert(self.remaining() =~= rem0.skip(k + 1));
                    }
                    if (self.filter)(&row) {
                        proof {
                            assert(query_step(
                                old(self).filter,
                                rem0,
                                self.remaining(),
                                Some(rem0[k]),
                                k,
                            ));
                        }
                        return Some(row);
                    }
                    proof {
                        k = k + 1;
                    }
                },
                None => {
                    proof {
                        assert(rem0.skip(k).len() == 0);
                        assert(k == rem0.len());
                        assert(query_step(
                            old(self).filter,
                            rem0,
                            self.remaining(),
                            Option::<T>::None,
                            k,
                        ));
                    }
                    return None;
                },
            }
        }
    }
}

impl<'a> Tx<'a> {
    /// A filtered scan: the query walks exactly the table's rows, in
    /// ascending key order, handing out those the predicate passes.
    pub fn query<T: Table, F: Fn(&T) -> bool>(&self, filter: F) -> (r: Query<T, F>)
        requires
            self.db.db_wf(),
            table_registered::<T>(self.db),
            values_ok::<T>(self.db),
        ensures
            r.filter == filter,
            r.remaining().len() == tbl::<T>(self.db).len(),
            forall|j: int|
                0 <= j < r.remaining().len() ==> T::enc_val_spec(
                    (#[trigger] r.remaining()[j])@,
                ) == tbl::<T>(self.db)[j].1,
            forall|j: int|
                0 <= j < r.remaining().len() ==> T::enc_key_spec(
                    T::row_key_model((#[trigger] r.remaining()[j])@),
                ) == tbl::<T>(self.db)[j].0,
    {
        let mut rows = self.scan::<T>();
        let ghost scanned = rows@;
        let mut rev: Vec<T> = Vec::new();
        while rows.len() > 0
            invariant
                rows@.len() + rev@.len() == scanned.len(),
                rows@ == scanned.take(rows@.len() as int),
                forall|q: int|
                    0 <= q < rev@.len() ==> #[trigger] rev@[q] == scanned[scanned.len() - 1 - q],
            decreases rows@.len(),
        {
            let ghost pre_rows = rows@;
            match rows.pop() {
                Some(row) => {
                    proof {
                        assert(pre_rows.last() == scanned[pre_rows.len() - 1]);
                        assert(rows@ =~= scanned.take(rows@.len() as int));
                    }
                    rev.push(row);
                },
                None => {
                    proof {
                        assert(false);
                    }
                },
            }
        }
        let r = Query { rows: rev, filter };
        proof {
            assert(r.remaining().len() == scanned.len());
            assert forall|j: int| 0 <= j < scanned.len() implies #[trigger] r.remaining()[j]
                == scanned[j] by {
                assert(r.remaining()[j] == r.rows@[r.rows@.len() - 1 - j]);
                assert(r.rows@[r.rows@.len() - 1 - j] == scanned[scanned.len() - 1 - (r.rows@.len()
                    - 1 - j)]);
            }
        }
        r
    }
}

} // verus!

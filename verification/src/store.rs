//! The ordered byte key-value engine: named sub-databases, each a sequence of
//! entries kept strictly sorted by key, with snapshot transactions.
//!
//! A read transaction borrows the store; a write transaction works on a copy
//! and installs it on commit, so dropping it without committing leaves the
//! store untouched.

use vstd::prelude::*;
use vstd::slice::slice_to_vec;
use crate::lex::{Cmp, lex_cmp, lex_lt, lemma_lex_asym, lemma_lex_trans, lemma_lex_total};

verus! {

/// One key-value entry of a sub-database.
pub struct Entry {
    pub k: Vec<u8>,
    pub v: Vec<u8>,
}

impl View for Entry {
    type V = (Seq<u8>, Seq<u8>);

    open spec fn view(&self) -> (Seq<u8>, Seq<u8>) {
        (self.k@, self.v@)
    }
}

/// Entries strictly ascending in key order.
pub open spec fn sorted(s: Seq<(Seq<u8>, Seq<u8>)>) -> bool {
    forall|i: int, j: int| 0 <= i < j < s.len() ==> lex_lt(s[i].0, s[j].0)
}

/// Whether some entry holds the key.
pub open spec fn has_key(s: Seq<(Seq<u8>, Seq<u8>)>, k: Seq<u8>) -> bool {
    exists|i: int| 0 <= i < s.len() && s[i].0 == k
}

/// The position of the entry holding the key.
pub open spec fn idx_of(s: Seq<(Seq<u8>, Seq<u8>)>, k: Seq<u8>) -> int {
    choose|i: int| 0 <= i < s.len() && s[i].0 == k
}

/// The value stored under the key.
pub open spec fn val_of(s: Seq<(Seq<u8>, Seq<u8>)>, k: Seq<u8>) -> Seq<u8> {
    s[idx_of(s, k)].1
}

/// In a sorted sub-database each key occupies one position only.
pub proof fn lemma_key_unique(s: Seq<(Seq<u8>, Seq<u8>)>, i: int, j: int)
    requires
        sorted(s),
        0 <= i < s.len(),
        0 <= j < s.len(),
        s[i].0 == s[j].0,
    ensures
        i == j,
{
    if i < j {
        lemma_lex_asym(s[i].0, s[j].0);
    } else if j < i {
        lemma_lex_asym(s[j].0, s[i].0);
    }
}

/// In a sorted sub-database, `idx_of` finds exactly the entry at hand.
pub proof fn lemma_idx_at(s: Seq<(Seq<u8>, Seq<u8>)>, i: int)
    requires
        sorted(s),
        0 <= i < s.len(),
    ensures
        idx_of(s, s[i].0) == i,
        has_key(s, s[i].0),
        val_of(s, s[i].0) == s[i].1,
{
    assert(has_key(s, s[i].0));
    lemma_key_unique(s, i, idx_of(s, s[i].0));
}

/// A named sub-database.
pub struct SubDb {
    pub name: String,
    pub entries: Vec<Entry>,
}

impl SubDb {
    /// The ordered sequence of (key, value) pairs this sub-database holds.
    pub open spec fn pairs(&self) -> Seq<(Seq<u8>, Seq<u8>)> {
        self.entries@.map_values(|e: Entry| e@)
    }

    pub open spec fn wf(&self) -> bool {
        sorted(self.pairs())
    }

    pub fn empty(name: String) -> (r: SubDb)
        ensures
            r.wf(),
            r.name@ == name@,
            r.pairs().len() == 0,
    {
        let r = SubDb { name, entries: Vec::new() };
        proof {
            assert(r.pairs() =~= Seq::empty());
        }
        r
    }

    /// Find the key, or say where it would be inserted: the number of
    /// entries with strictly smaller keys.
    fn probe(&self, k: &[u8]) -> (r: (usize, bool))
        requires
            self.wf(),
        ensures
            r.0 <= self.pairs().len(),
            forall|j: int| 0 <= j < r.0 ==> lex_lt(self.pairs()[j].0, k@),
            r.1 ==> r.0 < self.pairs().len() && self.pairs()[r.0 as int].0 == k@,
            !r.1 ==> !has_key(self.pairs(), k@),
            !r.1 && r.0 < self.pairs().len() ==> lex_lt(k@, self.pairs()[r.0 as int].0),
    {
        let ghost s = self.pairs();
        let n: usize = self.entries.len();
        let mut i: usize = 0;
        while i < n
            invariant
                0 <= i <= n,
                n == s.len(),
                s == self.pairs(),
                self.wf(),
                forall|j: int| 0 <= j < i ==> lex_lt(s[j].0, k@),
            decreases n - i,
        {
            let c = lex_cmp(self.entries[i].k.as_slice(), k);
            match c {
                Cmp::Eq => {
                    proof {
                        assert(s[i as int].0 == k@);
                    }
                    return (i, true);
                },
                Cmp::Gt => {
                    proof {
                        assert(lex_lt(k@, s[i as int].0));
                        assert forall|j: int| 0 <= j < s.len() implies s[j].0 != k@ by {
                            if j < i {
                                lemma_lex_asym(s[j].0, k@);
                            } else if j == i {
                                lemma_lex_asym(k@, s[j].0);
                            } else {
                                lemma_lex_trans(k@, s[i as int].0, s[j].0);
                                lemma_lex_asym(k@, s[j].0);
                            }
                        }
                    }
                    return (i, false);
                },
                Cmp::Lt => {
                    i = i + 1;
                },
            }
        }
        proof {
            assert forall|j: int| 0 <= j < s.len() implies s[j].0 != k@ by {
                lemma_lex_asym(s[j].0, k@);
            }
        }
        (n, false)
    }

    /// Look the key up.
    pub fn lookup(&self, k: &[u8]) -> (r: Option<Vec<u8>>)
        requires
            self.wf(),
        ensures
            r is Some <==> has_key(self.pairs(), k@),
            r is Some ==> r.unwrap()@ == val_of(self.pairs(), k@),
    {
        let (i, found) = self.probe(k);
        if found {
            proof {
                lemma_idx_at(self.pairs(), i as int);
            }
            Some(slice_to_vec(self.entries[i].v.as_slice()))
        } else {
            None
        }
    }

    /// Write the value under the key, replacing any previous value.
    pub fn upsert(&mut self, k: &[u8], v: &[u8])
        requires
            old(self).wf(),
        ensures
            final(self).wf(),
            final(self).name@ == old(self).name@,
            has_key(final(self).pairs(), k@),
            val_of(final(self).pairs(), k@) == v@,
            forall|k2: Seq<u8>|
                k2 != k@ ==> (has_key(final(self).pairs(), k2) == has_key(old(self).pairs(), k2)),
            forall|k2: Seq<u8>|
                k2 != k@ && has_key(old(self).pairs(), k2) ==> val_of(final(self).pairs(), k2)
                    == val_of(old(self).pairs(), k2),
            final(self).pairs().len() == old(self).pairs().len() + (if has_key(
                old(self).pairs(),
                k@,
            ) {
                0int
            } else {
                1int
            }),
    {
        let ghost s = self.pairs();
        let (i, found) = self.probe(k);
        let e = Entry { k: slice_to_vec(k), v: slice_to_vec(v) };
        if found {
            self.entries.remove(i);
            self.entries.insert(i, e);
            proof {
                let t = self.pairs();
                assert(t =~= s.update(i as int, (k@, v@)));
                assert(sorted(t)) by {
                    assert forall|p: int, q: int| 0 <= p < q < t.len() implies lex_lt(
                        t[p].0,
                        t[q].0,
                    ) by {
                        assert(t[p].0 == s[p].0);
                        assert(t[q].0 == s[q].0);
                    }
                }
                lemma_idx_at(t, i as int);
                assert forall|k2: Seq<u8>| k2 != k@ implies (has_key(t, k2) == has_key(s, k2)
                    && (has_key(s, k2) ==> val_of(t, k2) == val_of(s, k2))) by {
                    if has_key(s, k2) {
                        let w = idx_of(s, k2);
                        assert(t[w].0 == k2);
                        lemma_idx_at(t, w);
                    }
                    if has_key(t, k2) {
                        let w = idx_of(t, k2);
                        assert(s[w].0 == k2);
                        lemma_idx_at(s, w);
                    }
                }
                lemma_idx_at(s, i as int);
            }
        } else {
            self.entries.insert(i, e);
            proof {
                let t = self.pairs();
                assert(t =~= s.insert(i as int, (k@, v@)));
                assert(t.len() == s.len() + 1);
                assert(forall|j: int| 0 <= j < i ==> t[j] == s[j]);
                assert(t[i as int] == (k@, v@));
                assert(forall|j: int| i < j < t.len() ==> t[j] == s[j - 1]);
                assert(sorted(t)) by {
                    assert forall|p: int, q: int| 0 <= p < q < t.len() implies lex_lt(
                        t[p].0,
                        t[q].0,
                    ) by {
                        if p < i && q == i {
                        } else if p == i && q > i {
                            if i < s.len() {
                                if i < q - 1 {
                                    lemma_lex_trans(k@, s[i as int].0, s[q - 1].0);
                                }
                            }
                        } else if p < i && q > i {
                            assert(lex_lt(s[p].0, k@));
                            if i < q - 1 {
                                assert(lex_lt(s[i as int].0, s[q - 1].0));
                                lemma_lex_trans(k@, s[i as int].0, s[q - 1].0);
                            }
                            lemma_lex_trans(s[p].0, k@, s[q - 1].0);
                        }
                    }
                }
                lemma_idx_at(t, i as int);
                assert forall|k2: Seq<u8>| k2 != k@ implies (has_key(t, k2) == has_key(s, k2)
                    && (has_key(s, k2) ==> val_of(t, k2) == val_of(s, k2))) by {
                    if has_key(s, k2) {
                        let w = idx_of(s, k2);
                        if w < i {
                            assert(t[w].0 == k2);
                            lemma_idx_at(t, w);
                        } else {
                            assert(t[w + 1].0 == k2);
                            lemma_idx_at(t, w + 1);
                        }
                    }
                    if has_key(t, k2) {
                        let w = idx_of(t, k2);
                        if w < i {
                            assert(s[w].0 == k2);
                        } else {
                            assert(w > i);
                            assert(s[w - 1].0 == k2);
                        }
                    }
                }
            }
        }
    }

    /// Remove the key if present.
    pub fn expunge(&mut self, k: &[u8])
        requires
            old(self).wf(),
        ensures
            final(self).wf(),
            final(self).name@ == old(self).name@,
            !has_key(final(self).pairs(), k@),
            forall|k2: Seq<u8>|
                k2 != k@ ==> (has_key(final(self).pairs(), k2) == has_key(old(self).pairs(), k2)),
            forall|k2: Seq<u8>|
                k2 != k@ && has_key(old(self).pairs(), k2) ==> val_of(final(self).pairs(), k2)
                    == val_of(old(self).pairs(), k2),
            final(self).pairs().len() == old(self).pairs().len() - (if has_key(
                old(self).pairs(),
                k@,
            ) {
                1int
            } else {
                0int
            }),
    {
        let ghost s = self.pairs();
        let (i, found) = self.probe(k);
        if found {
            self.entries.remove(i);
            proof {
                let t = self.pairs();
                assert(t =~= s.remove(i as int));
                assert(forall|j: int| 0 <= j < i ==> t[j] == s[j]);
                assert(forall|j: int| i <= j < t.len() ==> t[j] == s[j + 1]);
                assert(sorted(t)) by {
                    assert forall|p: int, q: int| 0 <= p < q < t.len() implies lex_lt(
                        t[p].0,
                        t[q].0,
                    ) by {
                    }
                }
                assert(!has_key(t, k@)) by {
                    if has_key(t, k@) {
                        let w = idx_of(t, k@);
                        if w < i {
                            lemma_key_unique(s, w, i as int);
                        } else {
                            lemma_key_unique(s, w + 1, i as int);
                        }
                    }
                }
                assert forall|k2: Seq<u8>| k2 != k@ implies (has_key(t, k2) == has_key(s, k2)
                    && (has_key(s, k2) ==> val_of(t, k2) == val_of(s, k2))) by {
                    if has_key(s, k2) {
                        let w = idx_of(s, k2);
                        if w < i {
                            assert(t[w].0 == k2);
                            lemma_idx_at(t, w);
                        } else {
                            assert(w > i);
                            assert(t[w - 1].0 == k2);
                            lemma_idx_at(t, w - 1);
                        }
                    }
                    if has_key(t, k2) {
                        let w = idx_of(t, k2);
                        if w < i {
                            assert(s[w].0 == k2);
                        } else {
                            assert(s[w + 1].0 == k2);
                        }
                    }
                }
            }
        } else {
            proof {
                assert(self.pairs() =~= s);
            }
        }
    }

    /// Copy out every entry, in ascending key order.
    pub fn dump(&self) -> (r: Vec<Entry>)
        ensures
            r@.map_values(|e: Entry| e@) == self.pairs(),
    {
        let mut r: Vec<Entry> = Vec::new();
        let n: usize = self.entries.len();
        let mut i: usize = 0;
        while i < n
            invariant
                0 <= i <= n,
                n == self.entries@.len(),
                r@.len() == i,
                forall|j: int| 0 <= j < i ==> r@[j]@ == self.pairs()[j],
            decreases n - i,
        {
            let e = Entry {
                k: slice_to_vec(self.entries[i].k.as_slice()),
                v: slice_to_vec(self.entries[i].v.as_slice()),
            };
            proof {
                assert(e.k@ == self.entries@[i as int].k@);
                assert(e.v@ == self.entries@[i as int].v@);
                assert(self.pairs()[i as int] == self.entries@[i as int]@);
                assert(e@ == self.pairs()[i as int]);
            }
            r.push(e);
            i = i + 1;
        }
        proof {
            assert(r@.map_values(|e: Entry| e@) =~= self.pairs());
        }
        r
    }

    /// A copy holding the same entries.
    pub fn duplicate(&self) -> (r: SubDb)
        ensures
            r.pairs() == self.pairs(),
            r.name@ == self.name@,
            r.wf() == self.wf(),
    {
        let name = self.name.clone();
        let entries = self.dump();
        let r = SubDb { name, entries };
        proof {
            assert(r.pairs() =~= self.pairs());
        }
        r
    }
}

/// One key-value environment: a catalog of named sub-databases.
///
/// The engine is kept in memory; the path only names the environment.
pub struct Database {
    pub path: String,
    pub subdbs: Vec<SubDb>,
}

impl Database {
    /// The catalog: each sub-database's name, in registration order.
    pub open spec fn names(&self) -> Seq<Seq<char>> {
        self.subdbs@.map_values(|d: SubDb| d.name@)
    }

    /// Names are unique and every sub-database is sorted.
    pub open spec fn db_wf(&self) -> bool {
        &&& forall|i: int, j: int|
            0 <= i < j < self.names().len() ==> self.names()[i] != self.names()[j]
        &&& forall|i: int| 0 <= i < self.subdbs@.len() ==> (#[trigger] self.subdbs@[i]).wf()
    }

    /// Whether a sub-database of this name is registered.
    pub open spec fn holds(&self, name: Seq<char>) -> bool {
        exists|i: int| 0 <= i < self.names().len() && self.names()[i] == name
    }

    pub open spec fn slot_of(&self, name: Seq<char>) -> int {
        choose|i: int| 0 <= i < self.names().len() && self.names()[i] == name
    }

    /// The pairs of the named sub-database.
    pub open spec fn at(&self, name: Seq<char>) -> Seq<(Seq<u8>, Seq<u8>)> {
        self.subdbs@[self.slot_of(name)].pairs()
    }

    pub proof fn lemma_slot_at(&self, i: int)
        requires
            self.db_wf(),
            0 <= i < self.subdbs@.len(),
        ensures
            self.slot_of(self.names()[i]) == i,
            self.holds(self.names()[i]),
            self.at(self.names()[i]) == self.subdbs@[i].pairs(),
    {
        assert(self.holds(self.names()[i]));
        let w = self.slot_of(self.names()[i]);
        if w != i {
            assert(self.names()[w] == self.names()[i]);
            if w < i {
                assert(self.names()[w] != self.names()[i]);
            } else {
                assert(self.names()[i] != self.names()[w]);
            }
        }
    }

    /// Open an environment. The engine lives in memory; the path is recorded
    /// as the environment's name and the catalog starts empty.
    pub fn open(path: &str) -> (r: Database)
        ensures
            r.db_wf(),
            r.names().len() == 0,
    {
        let r = Database { path: path.to_owned(), subdbs: Vec::new() };
        proof {
            assert(r.names() =~= Seq::<Seq<char>>::empty());
        }
        r
    }

    /// The catalog position of the named sub-database.
    fn find(&self, name: &String) -> (r: Option<usize>)
        requires
            self.db_wf(),
        ensures
            match r {
                Some(i) => i < self.subdbs@.len() && self.names()[i as int] == name@
                    && self.slot_of(name@) == i && self.holds(name@),
                None => !self.holds(name@),
            },
    {
        let n: usize = self.subdbs.len();
        let mut i: usize = 0;
        while i < n
            invariant
                0 <= i <= n,
                n == self.subdbs@.len(),
                self.db_wf(),
                forall|j: int| 0 <= j < i ==> self.names()[j] != name@,
            decreases n - i,
        {
            if self.subdbs[i].name == *name {
                proof {
                    assert(self.names()[i as int] == name@);
                    self.lemma_slot_at(i as int);
                }
                return Some(i);
            }
            proof {
                assert(self.names()[i as int] == self.subdbs@[i as int].name@);
            }
            i = i + 1;
        }
        None
    }

    /// Create the named sub-database if the catalog lacks it; opening an
    /// existing name again changes nothing.
    pub fn ensure_db(&mut self, name: &String)
        requires
            old(self).db_wf(),
        ensures
            final(self).db_wf(),
            final(self).holds(name@),
            forall|n2: Seq<char>|
                #[trigger] final(self).holds(n2) == (old(self).holds(n2) || n2 == name@),
            forall|n2: Seq<char>|
                old(self).holds(n2) ==> #[trigger] final(self).at(n2) == old(self).at(n2),
            !old(self).holds(name@) ==> final(self).at(name@).len() == 0,
    {
        let ghost pre = *self;
        match self.find(name) {
            Some(_) => {
                proof {
                    assert(*self == pre);
                }
            },
            None => {
                let d = SubDb::empty(name.clone());
                self.subdbs.push(d);
                proof {
                    let m = pre.subdbs@.len() as int;
                    assert(self.subdbs@ == pre.subdbs@.push(d));
                    assert(self.names() =~= pre.names().push(name@));
                    assert(forall|j: int| 0 <= j < m ==> self.names()[j] == pre.names()[j]);
                    assert(self.names()[m] == name@);
                    assert(self.db_wf());
                    self.lemma_slot_at(m);
                    assert forall|n2: Seq<char>| pre.holds(n2) implies #[trigger] self.holds(n2)
                        && self.at(n2) == pre.at(n2) by {
                        let w = pre.slot_of(n2);
                        assert(pre.names()[w] == n2);
                        assert(self.names()[w] == n2);
                        assert(self.holds(n2));
                        self.lemma_slot_at(w);
                        pre.lemma_slot_at(w);
                    }
                    assert forall|n2: Seq<char>| #[trigger] self.holds(n2) && n2 != name@ implies
                        pre.holds(n2) by {
                        let w = self.slot_of(n2);
                        assert(self.names()[w] == n2);
                        assert(w != m);
                        assert(pre.names()[w] == n2);
                    }
                }
            },
        }
    }

    /// Look a key up in the named sub-database.
    pub fn raw_get(&self, name: &String, k: &[u8]) -> (r: Option<Vec<u8>>)
        requires
            self.db_wf(),
            self.holds(name@),
        ensures
            r is Some <==> has_key(self.at(name@), k@),
            r is Some ==> r.unwrap()@ == val_of(self.at(name@), k@),
    {
        match self.find(name) {
            Some(i) => self.subdbs[i].lookup(k),
            None => unreached(),
        }
    }

    /// Copy the named sub-database out, in ascending key order.
    pub fn raw_scan(&self, name: &String) -> (r: Vec<Entry>)
        requires
            self.db_wf(),
            self.holds(name@),
        ensures
            r@.map_values(|e: Entry| e@) == self.at(name@),
    {
        match self.find(name) {
            Some(i) => self.subdbs[i].dump(),
            None => unreached(),
        }
    }

    /// Write a pair into the named sub-database, replacing any previous
    /// value under the same key; every other sub-database is untouched.
    pub fn raw_put(&mut self, name: &String, k: &[u8], v: &[u8])
        requires
            old(self).db_wf(),
            old(self).holds(name@),
        ensures
            final(self).db_wf(),
            final(self).names() == old(self).names(),
            forall|n2: Seq<char>| final(self).holds(n2) == old(self).holds(n2),
            forall|n2: Seq<char>|
                n2 != name@ && old(self).holds(n2) ==> #[trigger] final(self).at(n2) == old(
                    self,
                ).at(n2),
            has_key(final(self).at(name@), k@),
            val_of(final(self).at(name@), k@) == v@,
            forall|k2: Seq<u8>|
                k2 != k@ ==> (has_key(final(self).at(name@), k2) == has_key(
                    old(self).at(name@),
                    k2,
                )),
            forall|k2: Seq<u8>|
                k2 != k@ && has_key(old(self).at(name@), k2) ==> val_of(
                    final(self).at(name@),
                    k2,
                ) == val_of(old(self).at(name@), k2),
            final(self).at(name@).len() == old(self).at(name@).len() + (if has_key(
                old(self).at(name@),
                k@,
            ) {
                0int
            } else {
                1int
            }),
    {
        let ghost pre = *self;
        match self.find(name) {
            Some(i) => {
                let mut d = self.subdbs.remove(i);
                d.upsert(k, v);
                self.subdbs.insert(i, d);
                proof {
                    self.lemma_after_update(pre, i as int, name@);
                }
            },
            None => unreached(),
        }
    }

    /// Remove a key from the named sub-database if present.
    pub fn raw_del(&mut self, name: &String, k: &[u8])
        requires
            old(self).db_wf(),
            old(self).holds(name@),
        ensures
            final(self).db_wf(),
            final(self).names() == old(self).names(),
            forall|n2: Seq<char>| final(self).holds(n2) == old(self).holds(n2),
            forall|n2: Seq<char>|
                n2 != name@ && old(self).holds(n2) ==> #[trigger] final(self).at(n2) == old(
                    self,
                ).at(n2),
            !has_key(final(self).at(name@), k@),
            forall|k2: Seq<u8>|
                k2 != k@ ==> (has_key(final(self).at(name@), k2) == has_key(
                    old(self).at(name@),
                    k2,
                )),
            forall|k2: Seq<u8>|
                k2 != k@ && has_key(old(self).at(name@), k2) ==> val_of(
                    final(self).at(name@),
                    k2,
                ) == val_of(old(self).at(name@), k2),
            final(self).at(name@).len() == old(self).at(name@).len() - (if has_key(
                old(self).at(name@),
                k@,
            ) {
                1int
            } else {
                0int
            }),
    {
        let ghost pre = *self;
        match self.find(name) {
            Some(i) => {
                let mut d = self.subdbs.remove(i);
                d.expunge(k);
                self.subdbs.insert(i, d);
                proof {
                    self.lemma_after_update(pre, i as int, name@);
                }
            },
            None => unreached(),
        }
    }

    /// After replacing the sub-database in one slot by a well-formed one of
    /// the same name, the catalog is intact and the other sub-databases are
    /// untouched.
    proof fn lemma_after_update(&self, pre: Database, i: int, name: Seq<char>)
        requires
            pre.db_wf(),
            0 <= i < pre.subdbs@.len(),
            pre.names()[i] == name,
            pre.slot_of(name) == i,
            self.subdbs@.len() == pre.subdbs@.len(),
            self.subdbs@[i].wf(),
            self.subdbs@[i].name@ == name,
            forall|j: int| 0 <= j < self.subdbs@.len() && j != i ==> self.subdbs@[j] == pre.subdbs@[j],
        ensures
            self.db_wf(),
            self.names() == pre.names(),
            forall|n2: Seq<char>| self.holds(n2) == pre.holds(n2),
            forall|n2: Seq<char>|
                n2 != name && pre.holds(n2) ==> #[trigger] self.at(n2) == pre.at(n2),
            self.at(name) == self.subdbs@[i].pairs(),
    {
        assert(self.names() =~= pre.names());
        assert(self.db_wf());
        self.lemma_slot_at(i);
        assert forall|n2: Seq<char>| self.holds(n2) == pre.holds(n2) by {
            assert(self.names() == pre.names());
        }
        assert forall|n2: Seq<char>| n2 != name && pre.holds(n2) implies #[trigger] self.at(n2)
            == pre.at(n2) by {
            let w = pre.slot_of(n2);
            assert(pre.names()[w] == n2);
            pre.lemma_slot_at(w);
            self.lemma_slot_at(w);
            assert(w != i);
        }
    }

    /// A copy of the whole environment holding the same contents.
    pub fn duplicate(&self) -> (r: Database)
        requires
            self.db_wf(),
        ensures
            r.db_wf(),
            r.names() == self.names(),
            forall|n2: Seq<char>| r.holds(n2) == self.holds(n2),
            forall|n2: Seq<char>| self.holds(n2) ==> #[trigger] r.at(n2) == self.at(n2),
    {
        let path = self.path.clone();
        let mut subdbs: Vec<SubDb> = Vec::new();
        let n: usize = self.subdbs.len();
        let mut i: usize = 0;
        while i < n
            invariant
                0 <= i <= n,
                n == self.subdbs@.len(),
                self.db_wf(),
                subdbs@.len() == i,
                forall|j: int|
                    0 <= j < i ==> (#[trigger] subdbs@[j]).pairs() == self.subdbs@[j].pairs()
                        && subdbs@[j].name@ == self.subdbs@[j].name@ && subdbs@[j].wf(),
            decreases n - i,
        {
            let d = self.subdbs[i].duplicate();
            subdbs.push(d);
            i = i + 1;
        }
        let r = Database { path, subdbs };
        proof {
            assert(r.names() =~= self.names());
            assert(r.db_wf());
            assert forall|n2: Seq<char>| r.holds(n2) == self.holds(n2) by {
                assert(r.names() == self.names());
            }
            assert forall|n2: Seq<char>| self.holds(n2) implies #[trigger] r.at(n2) == self.at(
                n2,
            ) by {
                let w = self.slot_of(n2);
                assert(self.names()[w] == n2);
                self.lemma_slot_at(w);
                r.lemma_slot_at(w);
            }
        }
        r
    }
}

/// A read transaction: a consistent snapshot view of the store.
pub struct Tx<'a> {
    pub db: &'a Database,
}

impl<'a> Tx<'a> {
    /// Close the read transaction.
    pub fn commit(self) {
    }
}

/// A write transaction: a private working copy of the store. Commit installs
/// it; dropping the transaction instead aborts, leaving the store as it was.
pub struct Wtx {
    pub work: Database,
}

impl Wtx {
    /// Install this transaction's effects into the store, atomically.
    pub fn commit(self, db: &mut Database)
        ensures
            *final(db) == self.work,
    {
        *db = self.work;
    }
}

impl Database {
    /// Begin a read transaction on the current snapshot.
    pub fn tx(&self) -> (r: Tx<'_>)
        ensures
            r.db == self,
    {
        Tx { db: self }
    }

    /// Begin a write transaction: its working copy starts at the current
    /// snapshot, and the store itself does not change until commit.
    pub fn wtx(&self) -> (r: Wtx)
        requires
            self.db_wf(),
        ensures
            r.work.db_wf(),
            r.work.names() == self.names(),
            forall|n2: Seq<char>| r.work.holds(n2) == self.holds(n2),
            forall|n2: Seq<char>| self.holds(n2) ==> #[trigger] r.work.at(n2) == self.at(n2),
    {
        Wtx { work: self.duplicate() }
    }
}

} // verus!

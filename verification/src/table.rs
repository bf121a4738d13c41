//! Table and index schemas: what a type must provide to be stored.
//!
//! A table ties a row type to a unique sub-database name, an order-preserving
//! primary-key encoding, a round-tripping value encoding, and a list of
//! secondary indices; an index names one slot of that list.

use vstd::prelude::*;
use crate::store::Database;

verus! {

/// A storable row type. Every specification speaks about the mathematical
/// model of a row (its view), so contracts survive cloning and decoding.
pub trait Table: View + Sized {
    /// The primary-key type.
    type Key: View;

    /// The unique sub-database name of this table.
    spec fn table_name() -> Seq<char>;

    fn name() -> (r: String)
        ensures
            r@ == Self::table_name(),
    ;

    /// The order-preserving byte encoding of a primary key.
    spec fn enc_key_spec(km: <Self::Key as View>::V) -> Seq<u8>;

    fn enc_key(k: &Self::Key) -> (r: Vec<u8>)
        ensures
            r@ == Self::enc_key_spec(k@),
    ;

    proof fn enc_key_injective(k1: <Self::Key as View>::V, k2: <Self::Key as View>::V)
        requires
            Self::enc_key_spec(k1) == Self::enc_key_spec(k2),
        ensures
            k1 == k2,
    ;

    /// The primary key a row carries.
    spec fn row_key_model(m: <Self as View>::V) -> <Self::Key as View>::V;

    fn key_of(&self) -> (k: Self::Key)
        ensures
            k@ == Self::row_key_model(self@),
    ;

    /// The self-describing byte encoding of a row.
    spec fn enc_val_spec(m: <Self as View>::V) -> Seq<u8>;

    fn enc_val(&self) -> (r: Vec<u8>)
        ensures
            r@ == Self::enc_val_spec(self@),
    ;

    /// Decoding accepts exactly the valid encodings and inverts them.
    fn dec_val(b: &[u8]) -> (r: Option<Self>)
        ensures
            r is Some ==> Self::enc_val_spec(r.unwrap()@) == b@,
            forall|m: <Self as View>::V| Self::enc_val_spec(m) == b@ ==> r is Some,
    ;

    proof fn enc_val_injective(m1: <Self as View>::V, m2: <Self as View>::V)
        requires
            Self::enc_val_spec(m1) == Self::enc_val_spec(m2),
            Self::enc_val_spec(m1).len() <= usize::MAX,
        ensures
            m1 == m2,
    ;

    /// The names of this table's index sub-databases.
    spec fn index_names_spec() -> Seq<Seq<char>>;

    fn index_count() -> (r: usize)
        ensures
            r == Self::index_names_spec().len(),
    ;

    fn index_name(i: usize) -> (r: String)
        requires
            i < Self::index_names_spec().len(),
        ensures
            r@ == Self::index_names_spec()[i as int],
    ;

    /// The encoded index key a row yields for each index slot.
    spec fn index_keys_spec(m: <Self as View>::V) -> Seq<Seq<u8>>;

    fn index_key(&self, i: usize) -> (r: Vec<u8>)
        requires
            i < Self::index_names_spec().len(),
        ensures
            r@ == Self::index_keys_spec(self@)[i as int],
    ;

    proof fn index_arity(m: <Self as View>::V)
        ensures
            Self::index_keys_spec(m).len() == Self::index_names_spec().len(),
    ;

    /// Index names are distinct from each other and from the table's name.
    proof fn names_distinct()
        ensures
            forall|i: int|
                0 <= i < Self::index_names_spec().len() ==> #[trigger] Self::index_names_spec()[i]
                    != Self::table_name(),
            forall|i: int, j: int|
                0 <= i < j < Self::index_names_spec().len() ==> Self::index_names_spec()[i]
                    != Self::index_names_spec()[j],
    ;

    /// This row carrying the donor's primary key, all else unchanged.
    spec fn adopted_model(m: <Self as View>::V, donor: <Self as View>::V) -> <Self as View>::V;

    fn adopt_key(&mut self, donor: &Self)
        ensures
            final(self)@ == Self::adopted_model(old(self)@, donor@),
    ;

    proof fn adopted_key_is(m: <Self as View>::V, donor: <Self as View>::V)
        ensures
            Self::row_key_model(Self::adopted_model(m, donor)) == Self::row_key_model(donor),
    ;
}

/// One secondary index of a table: a named slot of the owner's index list.
pub trait Index {
    /// The table this index belongs to.
    type Owner: Table;

    /// The index-key type.
    type Key: View;

    /// The unique sub-database name of this index.
    spec fn index_name() -> Seq<char>;

    fn name() -> (r: String)
        ensures
            r@ == Self::index_name(),
    ;

    /// Which slot of the owner's index list this index is.
    spec fn slot() -> int;

    fn slot_exec() -> (r: usize)
        ensures
            r as int == Self::slot(),
    ;

    /// The order-preserving byte encoding of an index key.
    spec fn enc_ikey_spec(km: <Self::Key as View>::V) -> Seq<u8>;

    fn enc_ikey(k: &Self::Key) -> (r: Vec<u8>)
        ensures
            r@ == Self::enc_ikey_spec(k@),
    ;

    /// The index key a row projects to.
    spec fn proj_model(m: <Self::Owner as View>::V) -> <Self::Key as View>::V;

    proof fn index_laws()
        ensures
            0 <= Self::slot() < <Self::Owner as Table>::index_names_spec().len(),
            <Self::Owner as Table>::index_names_spec()[Self::slot()] == Self::index_name(),
            forall|m: <Self::Owner as View>::V|
                #[trigger] <Self::Owner as Table>::index_keys_spec(m)[Self::slot()]
                    == Self::enc_ikey_spec(Self::proj_model(m)),
    ;
}

/// The table's sub-database in the store.
pub open spec fn tbl<T: Table>(db: &Database) -> Seq<(Seq<u8>, Seq<u8>)> {
    db.at(T::table_name())
}

/// The sub-database of the table's index slot `i`.
pub open spec fn tbl_idx<T: Table>(db: &Database, i: int) -> Seq<(Seq<u8>, Seq<u8>)> {
    db.at(T::index_names_spec()[i])
}

/// The table and all of its index sub-databases exist in the catalog.
pub open spec fn table_registered<T: Table>(db: &Database) -> bool {
    &&& db.holds(T::table_name())
    &&& forall|i: int|
        0 <= i < T::index_names_spec().len() ==> db.holds(#[trigger] T::index_names_spec()[i])
}

/// The model of the row a value byte string encodes.
pub open spec fn val_model_of<T: Table>(b: Seq<u8>) -> <T as View>::V {
    choose|m: <T as View>::V| T::enc_val_spec(m) == b
}

/// Every entry of the table's sub-database is a valid row encoding stored
/// under its own encoded primary key.
pub open spec fn values_ok<T: Table>(db: &Database) -> bool {
    forall|j: int|
        0 <= j < tbl::<T>(db).len() ==> T::enc_val_spec(
            val_model_of::<T>((#[trigger] tbl::<T>(db)[j]).1),
        ) == tbl::<T>(db)[j].1 && T::enc_key_spec(
            T::row_key_model(val_model_of::<T>(tbl::<T>(db)[j].1)),
        ) == tbl::<T>(db)[j].0
}

impl Database {
    /// Create (or open again) the table's sub-database and those of all its
    /// declared indices. Registration is idempotent across opens.
    pub fn register<T: Table>(self) -> (r: Database)
        requires
            self.db_wf(),
        ensures
            r.db_wf(),
            table_registered::<T>(&r),
            forall|n2: Seq<char>|
                self.holds(n2) ==> #[trigger] r.holds(n2) && r.at(n2) == self.at(n2),
            forall|n2: Seq<char>|
                #[trigger] r.holds(n2) ==> self.holds(n2) || n2 == T::table_name() || exists|j: int|
                    0 <= j < T::index_names_spec().len() && n2 == T::index_names_spec()[j],
            !self.holds(T::table_name()) ==> r.at(T::table_name()).len() == 0,
            forall|j: int|
                0 <= j < T::index_names_spec().len() && !self.holds(
                    #[trigger] T::index_names_spec()[j],
                ) ==> r.at(T::index_names_spec()[j]).len() == 0,
    {
        let ghost start = self;
        let mut this = self;
        let tname = T::name();
        this.ensure_db(&tname);
        let n: usize = T::index_count();
        let mut i: usize = 0;
        while i < n
            invariant
                0 <= i <= n,
                n == T::index_names_spec().len(),
                this.db_wf(),
                this.holds(T::table_name()),
                !start.holds(T::table_name()) ==> this.at(T::table_name()).len() == 0,
                forall|j: int|
                    0 <= j < i ==> this.holds(#[trigger] T::index_names_spec()[j]),
                forall|j: int|
                    0 <= j < i && !start.holds(#[trigger] T::index_names_spec()[j]) ==> this.at(
                        T::index_names_spec()[j],
                    ).len() == 0,
                forall|n2: Seq<char>|
                    start.holds(n2) ==> #[trigger] this.holds(n2) && this.at(n2) == start.at(n2),
                forall|n2: Seq<char>|
                    #[trigger] this.holds(n2) ==> start.holds(n2) || n2 == T::table_name()
                        || exists|j: int|
                        0 <= j < i && n2 == T::index_names_spec()[j],
            decreases n - i,
        {
            let iname = T::index_name(i);
            this.ensure_db(&iname);
            i = i + 1;
        }
        this
    }

    /// Create (or open again) one index sub-database by itself.
    pub fn register_idx<I: Index>(self) -> (r: Database)
        requires
            self.db_wf(),
        ensures
            r.db_wf(),
            r.holds(I::index_name()),
            forall|n2: Seq<char>|
                self.holds(n2) ==> #[trigger] r.holds(n2) && r.at(n2) == self.at(n2),
    {
        let mut this = self;
        let iname = I::name();
        this.ensure_db(&iname);
        this
    }
}

} // verus!

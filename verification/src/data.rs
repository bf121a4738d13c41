//! The domain tables the synchronizer records: repositories, packages,
//! advisories, modules, module streams, and their cross-references.

use vstd::prelude::*;
use vstd::utf8::{encode_utf8, encode_utf8_decode_utf8};
use crate::codec::{be_bytes, lemma_be_bytes_len};
use crate::keys::{ks_u128, ks_str_raw, ke_u128, ke_str_raw, lemma_ks_fixed_injective};
use crate::values::{
    vs_u128,
    vs_str,
    vs_opt_str,
    vs_opt_i32,
    vs_opt_u128,
    ve_u128,
    ve_str,
    ve_opt_str,
    ve_opt_i32,
    dv_u128,
    dv_str,
    dv_opt_str,
    dv_opt_i32,
    dv_opt_u128,
    dv_u64,
    dv_u32,
    dv_bool,
    lemma_pow256_vals,
    lemma_concat_split,
    lemma_subrange_join,
};
use crate::table::{Table, Index};
use crate::store::Database;

verus! {

/// A 128-bit surrogate identifier, stored big-endian so that byte order is
/// numeric order.
#[derive(Clone, Copy, Debug, PartialEq, Eq, Hash, Structural)]
pub struct Uuid(pub u128);

impl View for Uuid {
    type V = u128;

    open spec fn view(&self) -> u128 {
        self.0
    }
}

/// Relies on uuid::Uuid::new_v4, a random identifier: nothing is promised
/// of the returned bits.
#[verifier::external_body]
fn fresh_id_bits() -> (r: u128) {
    uuid::Uuid::new_v4().as_u128()
}

impl Database {
    /// Draw a fresh random surrogate id.
    pub fn generate_id(&self) -> Uuid {
        Uuid(fresh_id_bits())
    }
}

/// A synchronized repository: one concrete base URL with its recorded
/// revision.
#[derive(Clone, Debug, PartialEq)]
pub struct Repo {
    pub id: Uuid,
    pub url: String,
    pub basearch: Option<String>,
    pub releasever: Option<String>,
    pub revision: Option<i32>,
}

pub open spec fn opt_str_view(o: &Option<String>) -> Option<Seq<char>> {
    match o {
        Some(s) => Some(s@),
        None => None,
    }
}

impl View for Repo {
    type V = (u128, Seq<char>, Option<Seq<char>>, Option<Seq<char>>, Option<i32>);

    open spec fn view(&self) -> (u128, Seq<char>, Option<Seq<char>>, Option<Seq<char>>, Option<
        i32,
    >) {
        (self.id.0, self.url@, opt_str_view(&self.basearch), opt_str_view(&self.releasever), self.revision)
    }
}

impl Table for Repo {
    type Key = Uuid;

    open spec fn table_name() -> Seq<char> {
        "repo"@
    }

    fn name() -> (r: String) {
        String::from_str("repo")
    }

    open spec fn enc_key_spec(km: u128) -> Seq<u8> {
        ks_u128(km)
    }

    fn enc_key(k: &Uuid) -> (r: Vec<u8>) {
        let mut out: Vec<u8> = Vec::new();
        ke_u128(k.0, &mut out);
        proof {
            assert(out@ =~= ks_u128(k.0));
        }
        out
    }

    proof fn enc_key_injective(k1: u128, k2: u128) {
        lemma_pow256_vals();
        lemma_ks_fixed_injective(k1 as nat, k2 as nat, 16);
    }

    open spec fn row_key_model(m: <Self as View>::V) -> u128 {
        m.0
    }

    fn key_of(&self) -> (k: Uuid) {
        self.id
    }

    open spec fn enc_val_spec(m: <Self as View>::V) -> Seq<u8> {
        vs_u128(m.0) + vs_str(m.1) + vs_opt_str(m.2) + vs_opt_str(m.3) + vs_opt_i32(m.4)
    }

    fn enc_val(&self) -> (r: Vec<u8>) {
        let mut out: Vec<u8> = Vec::new();
        ve_u128(self.id.0, &mut out);
        ve_str(self.url.as_str(), &mut out);
        ve_opt_str(&self.basearch, &mut out);
        ve_opt_str(&self.releasever, &mut out);
        ve_opt_i32(&self.revision, &mut out);
        proof {
            assert(out@ =~= Self::enc_val_spec(self@));
        }
        out
    }

    fn dec_val(b: &[u8]) -> (r: Option<Self>) {
        let blen: usize = b.len();
        proof {
            lemma_repo_parts();
        }
        let r0 = dv_u128(b, 0);
        match r0 {
            Some((id, p1)) => {
                let r1 = dv_str(b, p1);
                match r1 {
                    Some((url, p2)) => {
                        let r2 = dv_opt_str(b, p2);
                        match r2 {
                            Some((basearch, p3)) => {
                                let r3 = dv_opt_str(b, p3);
                                match r3 {
                                    Some((releasever, p4)) => {
                                        let r4 = dv_opt_i32(b, p4);
                                        match r4 {
                                            Some((revision, p5)) => {
                                                if p5 == blen {
                                                    let v = Repo {
                                                        id: Uuid(id),
                                                        url,
                                                        basearch,
                                                        releasever,
                                                        revision,
                                                    };
                                                    proof {
                                                        lemma_subrange_join(b@, 0, p1 as int, p2 as int);
                                                        lemma_subrange_join(b@, 0, p2 as int, p3 as int);
                                                        lemma_subrange_join(b@, 0, p3 as int, p4 as int);
                                                        lemma_subrange_join(b@, 0, p4 as int, p5 as int);
                                                        assert(b@.subrange(0, p5 as int) =~= b@);
                                                        assert(Self::enc_val_spec(v@) == b@);
                                                    }
                                                    Some(v)
                                                } else {
                                                    proof {
                                                        assert forall|m: <Self as View>::V|
                                                            Self::enc_val_spec(m) == b@ implies false by {
                                                            repo_dec_chain(m, b@);
                                                        }
                                                    }
                                                    None
                                                }
                                            },
                                            None => {
                                                proof {
                                                    assert forall|m: <Self as View>::V|
                                                        Self::enc_val_spec(m) == b@ implies false by {
                                                        repo_dec_chain(m, b@);
                                                    }
                                                }
                                                None
                                            },
                                        }
                                    },
                                    None => {
                                        proof {
                                            assert forall|m: <Self as View>::V|
                                                Self::enc_val_spec(m) == b@ implies false by {
                                                repo_dec_chain(m, b@);
                                            }
                                        }
                                        None
                                    },
                                }
                            },
                            None => {
                                proof {
                                    assert forall|m: <Self as View>::V|
                                        Self::enc_val_spec(m) == b@ implies false by {
                                        repo_dec_chain(m, b@);
                                    }
                                }
                                None
                            },
                        }
                    },
                    None => {
                        proof {
                            assert forall|m: <Self as View>::V|
                                Self::enc_val_spec(m) == b@ implies false by {
                                repo_dec_chain(m, b@);
                            }
                        }
                        None
                    },
                }
            },
            None => {
                proof {
                    assert forall|m: <Self as View>::V| Self::enc_val_spec(m) == b@ implies false by {
                        repo_dec_chain(m, b@);
                    }
                }
                None
            },
        }
    }

    proof fn enc_val_injective(m1: <Self as View>::V, m2: <Self as View>::V) {
        lemma_repo_fields(m1, m2);
    }

    open spec fn index_names_spec() -> Seq<Seq<char>> {
        seq!["repo_url"@]
    }

    fn index_count() -> (r: usize) {
        proof {
            assert(Self::index_names_spec().len() == 1);
        }
        1
    }

    fn index_name(i: usize) -> (r: String) {
        String::from_str("repo_url")
    }

    open spec fn index_keys_spec(m: <Self as View>::V) -> Seq<Seq<u8>> {
        seq![ks_str_raw(m.1)]
    }

    fn index_key(&self, i: usize) -> (r: Vec<u8>) {
        let mut out: Vec<u8> = Vec::new();
        ke_str_raw(self.url.as_str(), &mut out);
        proof {
            assert(out@ =~= ks_str_raw(self@.1));
            assert(Self::index_keys_spec(self@)[i as int] == ks_str_raw(self@.1));
        }
        out
    }

    proof fn index_arity(m: <Self as View>::V) {
        assert(Self::index_keys_spec(m).len() == 1);
        assert(Self::index_names_spec().len() == 1);
    }

    proof fn names_distinct() {
        assert("repo_url"@ != "repo"@) by {
            reveal_strlit("repo_url");
            reveal_strlit("repo");
            assert("repo_url"@.len() == 8);
            assert("repo"@.len() == 4);
        }
        assert(forall|i: int|
            0 <= i < Self::index_names_spec().len() ==> #[trigger] Self::index_names_spec()[i]
                == "repo_url"@);
    }

    open spec fn adopted_model(m: <Self as View>::V, donor: <Self as View>::V) -> <Self as View>::V {
        (donor.0, m.1, m.2, m.3, m.4)
    }

    fn adopt_key(&mut self, donor: &Self) {
        self.id = donor.id;
    }

    proof fn adopted_key_is(m: <Self as View>::V, donor: <Self as View>::V) {
    }
}

/// The right-associated decomposition of a repository row's encoding.
pub open spec fn repo_rest1(m: <Repo as View>::V) -> Seq<u8> {
    vs_str(m.1) + (vs_opt_str(m.2) + (vs_opt_str(m.3) + vs_opt_i32(m.4)))
}

proof fn repo_parts_of(m: <Repo as View>::V)
    ensures
        <Repo as Table>::enc_val_spec(m) == vs_u128(m.0) + repo_rest1(m),
{
    assert(<Repo as Table>::enc_val_spec(m) =~= vs_u128(m.0) + repo_rest1(m));
}

proof fn lemma_repo_parts()
    ensures
        forall|m: <Repo as View>::V|
            #[trigger] <Repo as Table>::enc_val_spec(m) == vs_u128(m.0) + repo_rest1(m),
{
    assert forall|m: <Repo as View>::V|
        #[trigger] <Repo as Table>::enc_val_spec(m) == vs_u128(m.0) + repo_rest1(m) by {
        repo_parts_of(m);
    }
}

/// Walk the decomposition of a valid encoding field by field.
proof fn repo_dec_chain(m: <Repo as View>::V, b: Seq<u8>)
    requires
        <Repo as Table>::enc_val_spec(m) == b,
    ensures
        b.skip(0) == vs_u128(m.0) + repo_rest1(m),
        b.skip(16) == vs_str(m.1) + (vs_opt_str(m.2) + (vs_opt_str(m.3) + vs_opt_i32(m.4))),
        b.skip(16 + vs_str(m.1).len() as int) == vs_opt_str(m.2) + (vs_opt_str(m.3) + vs_opt_i32(
            m.4,
        )),
        b.skip(16 + vs_str(m.1).len() + vs_opt_str(m.2).len() as int) == vs_opt_str(m.3) + vs_opt_i32(
            m.4,
        ),
        b.skip(
            16 + vs_str(m.1).len() + vs_opt_str(m.2).len() + vs_opt_str(m.3).len() as int,
        ) == vs_opt_i32(m.4) + Seq::<u8>::empty(),
        b.len() == 16 + vs_str(m.1).len() + vs_opt_str(m.2).len() + vs_opt_str(m.3).len()
            + vs_opt_i32(m.4).len(),
    decreases 0int,
{
    repo_parts_of(m);
    assert(b.skip(0) =~= b);
    let a0 = vs_u128(m.0);
    let a1 = vs_str(m.1);
    let a2 = vs_opt_str(m.2);
    let a3 = vs_opt_str(m.3);
    let a4 = vs_opt_i32(m.4);
    lemma_pow256_vals();
    lemma_be_bytes_len(m.0 as nat, 16);
    lemma_concat_split(a0, repo_rest1(m));
    assert(b.skip(16) == a1 + (a2 + (a3 + a4)));
    assert(b.skip(16).skip(a1.len() as int) =~= b.skip(16 + a1.len() as int));
    lemma_concat_split(a1, a2 + (a3 + a4));
    assert(b.skip(16 + a1.len() as int) == a2 + (a3 + a4));
    assert(b.skip(16 + a1.len() as int).skip(a2.len() as int) =~= b.skip(
        16 + a1.len() + a2.len() as int,
    ));
    lemma_concat_split(a2, a3 + a4);
    assert(b.skip(16 + a1.len() + a2.len() as int) == a3 + a4);
    assert(b.skip(16 + a1.len() + a2.len() as int).skip(a3.len() as int) =~= b.skip(
        16 + a1.len() + a2.len() + a3.len() as int,
    ));
    lemma_concat_split(a3, a4);
    assert(b.skip(16 + a1.len() + a2.len() + a3.len() as int) == a4);
    assert(a4 + Seq::<u8>::empty() =~= a4);
}

/// Equal encodings denote equal repository rows.
proof fn lemma_repo_fields(m1: <Repo as View>::V, m2: <Repo as View>::V)
    requires
        <Repo as Table>::enc_val_spec(m1) == <Repo as Table>::enc_val_spec(m2),
        <Repo as Table>::enc_val_spec(m1).len() <= usize::MAX,
    ensures
        m1 == m2,
{
    let b = <Repo as Table>::enc_val_spec(m1);
    repo_dec_chain(m1, b);
    repo_dec_chain(m2, b);
    lemma_vs_u128_eq(m1.0, m2.0, repo_rest1(m1), repo_rest1(m2));
    lemma_vs_str_eq(m1.1, m2.1, b.skip(16));
    lemma_vs_opt_str_eq(m1.2, m2.2, b.skip(16 + vs_str(m1.1).len() as int));
    lemma_vs_opt_str_eq(
        m1.3,
        m2.3,
        b.skip(16 + vs_str(m1.1).len() + vs_opt_str(m1.2).len() as int),
    );
    lemma_vs_opt_i32_eq(
        m1.4,
        m2.4,
        b.skip(16 + vs_str(m1.1).len() + vs_opt_str(m1.2).len() + vs_opt_str(m1.3).len() as int),
    );
}

/// Two `u128` fields leading the same stream are equal.
pub proof fn lemma_vs_u128_eq(x: u128, y: u128, rx: Seq<u8>, ry: Seq<u8>)
    requires
        vs_u128(x) + rx == vs_u128(y) + ry,
    ensures
        x == y,
        rx == ry,
{
    lemma_pow256_vals();
    lemma_be_bytes_len(x as nat, 16);
    lemma_be_bytes_len(y as nat, 16);
    assert(vs_u128(x) =~= (vs_u128(x) + rx).take(16));
    assert(vs_u128(y) =~= (vs_u128(y) + ry).take(16));
    lemma_ks_fixed_injective(x as nat, y as nat, 16);
    lemma_concat_split(vs_u128(x), rx);
    lemma_concat_split(vs_u128(y), ry);
}

/// Two string fields leading the same stream are equal.
pub proof fn lemma_vs_str_eq(s1: Seq<char>, s2: Seq<char>, b: Seq<u8>)
    requires
        b.len() <= usize::MAX,
        exists|r: Seq<u8>| b == vs_str(s1) + r,
        exists|r: Seq<u8>| b == vs_str(s2) + r,
    ensures
        s1 == s2,
        vs_str(s1).len() == vs_str(s2).len(),
{
    let e1 = encode_utf8(s1);
    let e2 = encode_utf8(s2);
    lemma_pow256_vals();
    lemma_be_bytes_len(e1.len(), 8);
    lemma_be_bytes_len(e2.len(), 8);
    let r1 = choose|r: Seq<u8>| b == vs_str(s1) + r;
    let r2 = choose|r: Seq<u8>| b == vs_str(s2) + r;
    assert(be_bytes(e1.len(), 8) =~= b.take(8)) by {
        lemma_concat_split(be_bytes(e1.len(), 8), e1);
        assert(b == (be_bytes(e1.len(), 8) + e1) + r1);
    }
    assert(be_bytes(e2.len(), 8) =~= b.take(8)) by {
        lemma_concat_split(be_bytes(e2.len(), 8), e2);
        assert(b == (be_bytes(e2.len(), 8) + e2) + r2);
    }
    assert(e1.len() <= b.len() && e2.len() <= b.len()) by {
        assert(b.len() == 8 + e1.len() + r1.len());
        assert(b.len() == 8 + e2.len() + r2.len());
    }
    crate::codec::lemma_pow256_fits();
    crate::codec::lemma_pow256_increases(8, 16);
    assert(e1.len() < crate::codec::pow256(8) && e2.len() < crate::codec::pow256(8)) by {
        lemma_len_fits(e1.len());
        lemma_len_fits(e2.len());
    }
    lemma_ks_fixed_injective(e1.len(), e2.len(), 8);
    assert(e1 =~= b.subrange(8, 8 + e1.len() as int)) by {
        assert(b == (be_bytes(e1.len(), 8) + e1) + r1);
    }
    assert(e2 =~= b.subrange(8, 8 + e2.len() as int)) by {
        assert(b == (be_bytes(e2.len(), 8) + e2) + r2);
    }
    assert(e1 == e2);
    encode_utf8_decode_utf8(s1);
    encode_utf8_decode_utf8(s2);
}

/// A sequence length fits in eight bytes.
pub proof fn lemma_len_fits(n: nat)
    requires
        n <= usize::MAX,
    ensures
        n < crate::codec::pow256(8),
{
    lemma_pow256_vals();
}

/// Two optional string fields leading the same stream are equal.
pub proof fn lemma_vs_opt_str_eq(o1: Option<Seq<char>>, o2: Option<Seq<char>>, b: Seq<u8>)
    requires
        b.len() <= usize::MAX,
        exists|r: Seq<u8>| b == vs_opt_str(o1) + r,
        exists|r: Seq<u8>| b == vs_opt_str(o2) + r,
    ensures
        o1 == o2,
        vs_opt_str(o1).len() == vs_opt_str(o2).len(),
{
    let r1 = choose|r: Seq<u8>| b == vs_opt_str(o1) + r;
    let r2 = choose|r: Seq<u8>| b == vs_opt_str(o2) + r;
    assert(b[0] == vs_opt_str(o1)[0]);
    assert(b[0] == vs_opt_str(o2)[0]);
    match (o1, o2) {
        (None, None) => {
        },
        (Some(s1), Some(s2)) => {
            assert(b.skip(1) =~= vs_str(s1) + r1) by {
                assert(b == (seq![1u8] + vs_str(s1)) + r1);
            }
            assert(b.skip(1) =~= vs_str(s2) + r2) by {
                assert(b == (seq![1u8] + vs_str(s2)) + r2);
            }
            lemma_vs_str_eq(s1, s2, b.skip(1));
        },
        (None, Some(s2)) => {
            assert(vs_opt_str(o1)[0] == 0);
            assert(vs_opt_str(o2)[0] == 1);
        },
        (Some(s1), None) => {
            assert(vs_opt_str(o1)[0] == 1);
            assert(vs_opt_str(o2)[0] == 0);
        },
    }
}

/// Two optional `i32` fields leading the same stream are equal.
pub proof fn lemma_vs_opt_i32_eq(o1: Option<i32>, o2: Option<i32>, b: Seq<u8>)
    requires
        exists|r: Seq<u8>| b == vs_opt_i32(o1) + r,
        exists|r: Seq<u8>| b == vs_opt_i32(o2) + r,
    ensures
        o1 == o2,
{
    let r1 = choose|r: Seq<u8>| b == vs_opt_i32(o1) + r;
    let r2 = choose|r: Seq<u8>| b == vs_opt_i32(o2) + r;
    assert(b[0] == vs_opt_i32(o1)[0]);
    assert(b[0] == vs_opt_i32(o2)[0]);
    match (o1, o2) {
        (None, None) => {
        },
        (Some(x1), Some(x2)) => {
            lemma_pow256_vals();
            lemma_be_bytes_len((x1 + 0x80000000) as nat, 4);
            lemma_be_bytes_len((x2 + 0x80000000) as nat, 4);
            assert(crate::values::vs_i32(x1) =~= b.subrange(1, 5)) by {
                assert(b == (seq![1u8] + crate::values::vs_i32(x1)) + r1);
            }
            assert(crate::values::vs_i32(x2) =~= b.subrange(1, 5)) by {
                assert(b == (seq![1u8] + crate::values::vs_i32(x2)) + r2);
            }
            lemma_ks_fixed_injective((x1 + 0x80000000) as nat, (x2 + 0x80000000) as nat, 4);
        },
        (None, Some(x2)) => {
            assert(vs_opt_i32(o1)[0] == 0);
            assert(vs_opt_i32(o2)[0] == 1);
        },
        (Some(x1), None) => {
            assert(vs_opt_i32(o1)[0] == 1);
            assert(vs_opt_i32(o2)[0] == 0);
        },
    }
}

/// The index of repositories by URL: the natural key a repository is
/// deduplicated on.
pub struct RepoUrl {}

impl Index for RepoUrl {
    type Owner = Repo;

    type Key = String;

    open spec fn index_name() -> Seq<char> {
        "repo_url"@
    }

    fn name() -> (r: String) {
        String::from_str("repo_url")
    }

    open spec fn slot() -> int {
        0
    }

    fn slot_exec() -> (r: usize) {
        0
    }

    open spec fn enc_ikey_spec(km: Seq<char>) -> Seq<u8> {
        ks_str_raw(km)
    }

    fn enc_ikey(k: &String) -> (r: Vec<u8>) {
        let mut out: Vec<u8> = Vec::new();
        ke_str_raw(k.as_str(), &mut out);
        proof {
            assert(out@ =~= ks_str_raw(k@));
        }
        out
    }

    open spec fn proj_model(m: <Repo as View>::V) -> Seq<char> {
        m.1
    }

    proof fn index_laws() {
        assert(<Repo as Table>::index_names_spec()[0] == "repo_url"@);
        assert(forall|m: <Repo as View>::V|
            #[trigger] <Repo as Table>::index_keys_spec(m)[0] == ks_str_raw(m.1));
    }
}


/// Two `u64` fields leading the same stream are equal.
pub proof fn lemma_vs_u64_eq(x: u64, y: u64, rx: Seq<u8>, ry: Seq<u8>)
    requires
        crate::values::vs_u64(x) + rx == crate::values::vs_u64(y) + ry,
    ensures
        x == y,
        rx == ry,
{
    lemma_pow256_vals();
    lemma_be_bytes_len(x as nat, 8);
    lemma_be_bytes_len(y as nat, 8);
    assert(crate::values::vs_u64(x) =~= (crate::values::vs_u64(x) + rx).take(8));
    assert(crate::values::vs_u64(y) =~= (crate::values::vs_u64(y) + ry).take(8));
    lemma_ks_fixed_injective(x as nat, y as nat, 8);
    lemma_concat_split(crate::values::vs_u64(x), rx);
    lemma_concat_split(crate::values::vs_u64(y), ry);
}

/// Two `u32` fields leading the same stream are equal.
pub proof fn lemma_vs_u32_eq(x: u32, y: u32, rx: Seq<u8>, ry: Seq<u8>)
    requires
        crate::values::vs_u32(x) + rx == crate::values::vs_u32(y) + ry,
    ensures
        x == y,
        rx == ry,
{
    lemma_pow256_vals();
    lemma_be_bytes_len(x as nat, 4);
    lemma_be_bytes_len(y as nat, 4);
    assert(crate::values::vs_u32(x) =~= (crate::values::vs_u32(x) + rx).take(4));
    assert(crate::values::vs_u32(y) =~= (crate::values::vs_u32(y) + ry).take(4));
    lemma_ks_fixed_injective(x as nat, y as nat, 4);
    lemma_concat_split(crate::values::vs_u32(x), rx);
    lemma_concat_split(crate::values::vs_u32(y), ry);
}

/// Two `bool` fields leading the same stream are equal.
pub proof fn lemma_vs_bool_eq(x: bool, y: bool, rx: Seq<u8>, ry: Seq<u8>)
    requires
        crate::values::vs_bool(x) + rx == crate::values::vs_bool(y) + ry,
    ensures
        x == y,
        rx == ry,
{
    assert((crate::values::vs_bool(x) + rx)[0] == crate::values::vs_bool(x)[0]);
    assert((crate::values::vs_bool(y) + ry)[0] == crate::values::vs_bool(y)[0]);
    assert(x == y);
    lemma_concat_split(crate::values::vs_bool(x), rx);
    lemma_concat_split(crate::values::vs_bool(y), ry);
}

/// Two optional `u128` fields leading the same stream are equal.
pub proof fn lemma_vs_opt_u128_eq(o1: Option<u128>, o2: Option<u128>, b: Seq<u8>)
    requires
        exists|r: Seq<u8>| b == crate::values::vs_opt_u128(o1) + r,
        exists|r: Seq<u8>| b == crate::values::vs_opt_u128(o2) + r,
    ensures
        o1 == o2,
{
    let r1 = choose|r: Seq<u8>| b == crate::values::vs_opt_u128(o1) + r;
    let r2 = choose|r: Seq<u8>| b == crate::values::vs_opt_u128(o2) + r;
    assert(b[0] == crate::values::vs_opt_u128(o1)[0]);
    assert(b[0] == crate::values::vs_opt_u128(o2)[0]);
    match (o1, o2) {
        (None, None) => {
        },
        (Some(x1), Some(x2)) => {
            lemma_pow256_vals();
            lemma_be_bytes_len(x1 as nat, 16);
            lemma_be_bytes_len(x2 as nat, 16);
            assert(vs_u128(x1) =~= b.subrange(1, 17)) by {
                assert(b == (seq![1u8] + vs_u128(x1)) + r1);
            }
            assert(vs_u128(x2) =~= b.subrange(1, 17)) by {
                assert(b == (seq![1u8] + vs_u128(x2)) + r2);
            }
            lemma_ks_fixed_injective(x1 as nat, x2 as nat, 16);
        },
        (None, Some(x2)) => {
            assert(crate::values::vs_opt_u128(o1)[0] == 0);
            assert(crate::values::vs_opt_u128(o2)[0] == 1);
        },
        (Some(x1), None) => {
            assert(crate::values::vs_opt_u128(o1)[0] == 1);
            assert(crate::values::vs_opt_u128(o2)[0] == 0);
        },
    }
}

/// Two fixed-width key fields leading the same stream are equal.
pub proof fn lemma_ks_fixed_pre(x: nat, y: nat, n: nat, rx: Seq<u8>, ry: Seq<u8>)
    requires
        x < crate::codec::pow256(n),
        y < crate::codec::pow256(n),
        be_bytes(x, n) + rx == be_bytes(y, n) + ry,
    ensures
        x == y,
        rx == ry,
{
    lemma_be_bytes_len(x, n);
    lemma_be_bytes_len(y, n);
    assert(be_bytes(x, n) =~= (be_bytes(x, n) + rx).take(n as int));
    assert(be_bytes(y, n) =~= (be_bytes(y, n) + ry).take(n as int));
    lemma_ks_fixed_injective(x, y, n);
    lemma_concat_split(be_bytes(x, n), rx);
    lemma_concat_split(be_bytes(y, n), ry);
}

/// Two escape-terminated key fields leading the same stream are equal.
pub proof fn lemma_ks_term_pre(s1: Seq<char>, s2: Seq<char>, rx: Seq<u8>, ry: Seq<u8>)
    requires
        crate::keys::ks_str_term(s1) + rx == crate::keys::ks_str_term(s2) + ry,
    ensures
        s1 == s2,
        rx == ry,
{
    let e1 = encode_utf8(s1);
    let e2 = encode_utf8(s2);
    crate::codec::lemma_unesc_term(e1, rx);
    crate::codec::lemma_unesc_term(e2, ry);
    assert(crate::codec::term_bytes(e1) + rx == crate::codec::term_bytes(e2) + ry);
    assert(e1 == e2);
    encode_utf8_decode_utf8(s1);
    encode_utf8_decode_utf8(s2);
    assert(crate::codec::term_bytes(e1).len() == crate::codec::term_bytes(e2).len());
    lemma_concat_split(crate::codec::term_bytes(e1), rx);
    lemma_concat_split(crate::codec::term_bytes(e2), ry);
    assert(rx =~= ry);
}

/// Equal trailing raw string keys come from equal strings.
pub proof fn lemma_ks_raw_total(s1: Seq<char>, s2: Seq<char>)
    requires
        crate::keys::ks_str_raw(s1) == crate::keys::ks_str_raw(s2),
    ensures
        s1 == s2,
{
    encode_utf8_decode_utf8(s1);
    encode_utf8_decode_utf8(s2);
}

/// Equal trailing optional id keys come from equal options.
pub proof fn lemma_ks_opt_u128_total(o1: Option<u128>, o2: Option<u128>)
    requires
        crate::keys::ks_opt_u128(o1) == crate::keys::ks_opt_u128(o2),
    ensures
        o1 == o2,
{
    let b = crate::keys::ks_opt_u128(o1);
    assert(b[0] == crate::keys::ks_opt_u128(o1)[0]);
    match (o1, o2) {
        (None, None) => {
        },
        (Some(x1), Some(x2)) => {
            lemma_pow256_vals();
            lemma_be_bytes_len(x1 as nat, 16);
            lemma_be_bytes_len(x2 as nat, 16);
            assert(be_bytes(x1 as nat, 16) =~= b.subrange(1, 17));
            assert(be_bytes(x2 as nat, 16) =~= b.subrange(1, 17));
            lemma_ks_fixed_injective(x1 as nat, x2 as nat, 16);
        },
        (None, Some(x2)) => {
            assert(crate::keys::ks_opt_u128(o1)[0] == 0);
            assert(crate::keys::ks_opt_u128(o2)[0] == 1);
        },
        (Some(x1), None) => {
            assert(crate::keys::ks_opt_u128(o1)[0] == 1);
            assert(crate::keys::ks_opt_u128(o2)[0] == 0);
        },
    }
}

/// Name-Epoch-Version-Release-Architecture: the natural identity of a
/// package.
#[derive(Clone, Debug, PartialEq)]
pub struct Nevra {
    pub name: String,
    pub epoch: u32,
    pub ver: String,
    pub rel: String,
    pub arch: String,
}

impl View for Nevra {
    type V = (Seq<char>, u32, Seq<char>, Seq<char>, Seq<char>);

    open spec fn view(&self) -> (Seq<char>, u32, Seq<char>, Seq<char>, Seq<char>) {
        (self.name@, self.epoch, self.ver@, self.rel@, self.arch@)
    }
}

/// The order-preserving key encoding of a NEVRA: terminated strings except
/// for the trailing architecture.
pub open spec fn nevra_bytes(m: (Seq<char>, u32, Seq<char>, Seq<char>, Seq<char>)) -> Seq<u8> {
    crate::keys::ks_str_term(m.0) + crate::keys::ks_u32(m.1) + crate::keys::ks_str_term(m.2)
        + crate::keys::ks_str_term(m.3) + ks_str_raw(m.4)
}

/// Append the key encoding of a NEVRA.
pub fn enc_nevra(k: &Nevra, out: &mut Vec<u8>)
    ensures
        final(out)@ == old(out)@ + nevra_bytes(k@),
{
    crate::keys::ke_str_term(k.name.as_str(), out);
    crate::keys::ke_u32(k.epoch, out);
    crate::keys::ke_str_term(k.ver.as_str(), out);
    crate::keys::ke_str_term(k.rel.as_str(), out);
    ke_str_raw(k.arch.as_str(), out);
    proof {
        assert(out@ =~= old(out)@ + nevra_bytes(k@));
    }
}

/// Equal NEVRA keys come from equal NEVRAs.
pub proof fn lemma_nevra_inj(
    k1: (Seq<char>, u32, Seq<char>, Seq<char>, Seq<char>),
    k2: (Seq<char>, u32, Seq<char>, Seq<char>, Seq<char>),
)
    requires
        nevra_bytes(k1) == nevra_bytes(k2),
    ensures
        k1 == k2,
{
    lemma_pow256_vals();
    let r1a = crate::keys::ks_u32(k1.1) + (crate::keys::ks_str_term(k1.2) + (crate::keys::ks_str_term(
        k1.3,
    ) + ks_str_raw(k1.4)));
    let r2a = crate::keys::ks_u32(k2.1) + (crate::keys::ks_str_term(k2.2) + (crate::keys::ks_str_term(
        k2.3,
    ) + ks_str_raw(k2.4)));
    assert(nevra_bytes(k1) =~= crate::keys::ks_str_term(k1.0) + r1a);
    assert(nevra_bytes(k2) =~= crate::keys::ks_str_term(k2.0) + r2a);
    lemma_ks_term_pre(k1.0, k2.0, r1a, r2a);
    let r1b = crate::keys::ks_str_term(k1.2) + (crate::keys::ks_str_term(k1.3) + ks_str_raw(k1.4));
    let r2b = crate::keys::ks_str_term(k2.2) + (crate::keys::ks_str_term(k2.3) + ks_str_raw(k2.4));
    lemma_ks_fixed_pre(k1.1 as nat, k2.1 as nat, 4, r1b, r2b);
    let r1c = crate::keys::ks_str_term(k1.3) + ks_str_raw(k1.4);
    let r2c = crate::keys::ks_str_term(k2.3) + ks_str_raw(k2.4);
    lemma_ks_term_pre(k1.2, k2.2, r1c, r2c);
    lemma_ks_term_pre(k1.3, k2.3, ks_str_raw(k1.4), ks_str_raw(k2.4));
    lemma_ks_raw_total(k1.4, k2.4);
}


/// A package row: a surrogate id and its NEVRA, which is also the primary
/// key.
#[derive(Clone, Debug, PartialEq)]
pub struct Pkg {
    pub id: Uuid,
    pub nevra: Nevra,
}

impl View for Pkg {
    type V = (u128, Seq<char>, u32, Seq<char>, Seq<char>, Seq<char>);

    open spec fn view(&self) -> (u128, Seq<char>, u32, Seq<char>, Seq<char>, Seq<char>) {
        (self.id.0, self.nevra.name@, self.nevra.epoch, self.nevra.ver@, self.nevra.rel@, self.nevra.arch@)
    }
}

/// The right-associated decomposition of a package row's encoding.
pub open spec fn pkg_rest1(m: <Pkg as View>::V) -> Seq<u8> {
    vs_str(m.1) + (crate::values::vs_u32(m.2) + (vs_str(m.3) + (vs_str(m.4) + (vs_str(m.5)))))
}

proof fn pkg_parts_of(m: <Pkg as View>::V)
    ensures
        <Pkg as Table>::enc_val_spec(m) == vs_u128(m.0) + pkg_rest1(m),
{
    assert(<Pkg as Table>::enc_val_spec(m) =~= vs_u128(m.0) + pkg_rest1(m));
}

proof fn lemma_pkg_parts()
    ensures
        forall|m: <Pkg as View>::V|
            #[trigger] <Pkg as Table>::enc_val_spec(m) == vs_u128(m.0) + pkg_rest1(m),
{
    assert forall|m: <Pkg as View>::V|
        #[trigger] <Pkg as Table>::enc_val_spec(m) == vs_u128(m.0) + pkg_rest1(m) by {
        pkg_parts_of(m);
    }
}

/// Walk the decomposition of a valid encoding field by field.
proof fn pkg_dec_chain(m: <Pkg as View>::V, b: Seq<u8>)
    requires
        <Pkg as Table>::enc_val_spec(m) == b,
    ensures
        b.skip(0) == vs_u128(m.0) + (vs_str(m.1) + (crate::values::vs_u32(m.2) + (vs_str(m.3) + (vs_str(m.4) + (vs_str(m.5)))))),
        b.skip(16 as int) == vs_str(m.1) + (crate::values::vs_u32(m.2) + (vs_str(m.3) + (vs_str(m.4) + (vs_str(m.5))))),
        b.skip(16 + vs_str(m.1).len() as int) == crate::values::vs_u32(m.2) + (vs_str(m.3) + (vs_str(m.4) + (vs_str(m.5)))),
        b.skip(16 + vs_str(m.1).len() + 4 as int) == vs_str(m.3) + (vs_str(m.4) + (vs_str(m.5))),
        b.skip(16 + vs_str(m.1).len() + 4 + vs_str(m.3).len() as int) == vs_str(m.4) + (vs_str(m.5)),
        b.skip(16 + vs_str(m.1).len() + 4 + vs_str(m.3).len() + vs_str(m.4).len() as int) == vs_str(m.5) + (Seq::<u8>::empty()),
        b.len() == 16 + vs_str(m.1).len() + 4 + vs_str(m.3).len() + vs_str(m.4).len() + vs_str(m.5).len(),
{
    pkg_parts_of(m);
    assert(b.skip(0) =~= b);
    lemma_pow256_vals();
    lemma_be_bytes_len((m.0) as nat, 16);
    lemma_be_bytes_len((m.2) as nat, 4);
    lemma_concat_split(vs_u128(m.0), vs_str(m.1) + (crate::values::vs_u32(m.2) + (vs_str(m.3) + (vs_str(m.4) + (vs_str(m.5))))));
    assert(b.skip(0).skip((16) as int) =~= b.skip(16 as int));
    lemma_concat_split(vs_str(m.1), crate::values::vs_u32(m.2) + (vs_str(m.3) + (vs_str(m.4) + (vs_str(m.5)))));
    assert(b.skip(16 as int).skip((vs_str(m.1).len()) as int) =~= b.skip(16 + vs_str(m.1).len() as int));
    lemma_concat_split(crate::values::vs_u32(m.2), vs_str(m.3) + (vs_str(m.4) + (vs_str(m.5))));
    assert(b.skip(16 + vs_str(m.1).len() as int).skip((4) as int) =~= b.skip(16 + vs_str(m.1).len() + 4 as int));
    lemma_concat_split(vs_str(m.3), vs_str(m.4) + (vs_str(m.5)));
    assert(b.skip(16 + vs_str(m.1).len() + 4 as int).skip((vs_str(m.3).len()) as int) =~= b.skip(16 + vs_str(m.1).len() + 4 + vs_str(m.3).len() as int));
    lemma_concat_split(vs_str(m.4), vs_str(m.5));
    assert(b.skip(16 + vs_str(m.1).len() + 4 + vs_str(m.3).len() as int).skip((vs_str(m.4).len()) as int) =~= b.skip(16 + vs_str(m.1).len() + 4 + vs_str(m.3).len() + vs_str(m.4).len() as int));
    assert(vs_str(m.5) + Seq::<u8>::empty() =~= vs_str(m.5));
}

/// Equal encodings denote equal package rows.
proof fn lemma_pkg_fields(m1: <Pkg as View>::V, m2: <Pkg as View>::V)
    requires
        <Pkg as Table>::enc_val_spec(m1) == <Pkg as Table>::enc_val_spec(m2),
        <Pkg as Table>::enc_val_spec(m1).len() <= usize::MAX,
    ensures
        m1 == m2,
{
    let b = <Pkg as Table>::enc_val_spec(m1);
    pkg_dec_chain(m1, b);
    pkg_dec_chain(m2, b);
    lemma_vs_u128_eq(m1.0, m2.0, vs_str(m1.1) + (crate::values::vs_u32(m1.2) + (vs_str(m1.3) + (vs_str(m1.4) + (vs_str(m1.5))))), vs_str(m2.1) + (crate::values::vs_u32(m2.2) + (vs_str(m2.3) + (vs_str(m2.4) + (vs_str(m2.5))))));
    lemma_vs_str_eq(m1.1, m2.1, b.skip(16 as int));
    lemma_vs_u32_eq(m1.2, m2.2, vs_str(m1.3) + (vs_str(m1.4) + (vs_str(m1.5))), vs_str(m2.3) + (vs_str(m2.4) + (vs_str(m2.5))));
    lemma_vs_str_eq(m1.3, m2.3, b.skip(16 + vs_str(m1.1).len() + 4 as int));
    lemma_vs_str_eq(m1.4, m2.4, b.skip(16 + vs_str(m1.1).len() + 4 + vs_str(m1.3).len() as int));
    lemma_vs_str_eq(m1.5, m2.5, b.skip(16 + vs_str(m1.1).len() + 4 + vs_str(m1.3).len() + vs_str(m1.4).len() as int));
}

impl Table for Pkg {
    type Key = Uuid;

    open spec fn table_name() -> Seq<char> {
        "pkg"@
    }

    fn name() -> (r: String) {
        String::from_str("pkg")
    }

    open spec fn enc_key_spec(km: u128) -> Seq<u8> {
        ks_u128(km)
    }

    fn enc_key(k: &Uuid) -> (r: Vec<u8>) {
        let mut out: Vec<u8> = Vec::new();
        ke_u128(k.0, &mut out);
        proof {
            assert(out@ =~= ks_u128(k.0));
        }
        out
    }

    proof fn enc_key_injective(k1: u128, k2: u128) {
        lemma_pow256_vals();
        lemma_ks_fixed_injective(k1 as nat, k2 as nat, 16);
    }

    open spec fn row_key_model(m: <Self as View>::V) -> u128 {
        m.0
    }

    fn key_of(&self) -> (k: Uuid) {
        self.id
    }

    open spec fn enc_val_spec(m: <Self as View>::V) -> Seq<u8> {
        vs_u128(m.0) + vs_str(m.1) + crate::values::vs_u32(m.2) + vs_str(m.3) + vs_str(m.4) + vs_str(m.5)
    }

    fn enc_val(&self) -> (r: Vec<u8>) {
        let mut out: Vec<u8> = Vec::new();
        ve_u128(self.id.0, &mut out);
        ve_str(self.nevra.name.as_str(), &mut out);
        crate::values::ve_u32(self.nevra.epoch, &mut out);
        ve_str(self.nevra.ver.as_str(), &mut out);
        ve_str(self.nevra.rel.as_str(), &mut out);
        ve_str(self.nevra.arch.as_str(), &mut out);
        proof {
            assert(out@ =~= Self::enc_val_spec(self@));
        }
        out
    }

    fn dec_val(b: &[u8]) -> (r: Option<Self>) {
        let blen: usize = b.len();
        proof {
            lemma_pkg_parts();
        }
        let r0 = dv_u128(b, 0);
        match r0 {
            Some((id, p1)) => {
            let r1 = dv_str(b, p1);
            match r1 {
                Some((name, p2)) => {
                let r2 = dv_u32(b, p2);
                match r2 {
                    Some((epoch, p3)) => {
                    let r3 = dv_str(b, p3);
                    match r3 {
                        Some((ver, p4)) => {
                        let r4 = dv_str(b, p4);
                        match r4 {
                            Some((rel, p5)) => {
                            let r5 = dv_str(b, p5);
                            match r5 {
                                Some((arch, p6)) => {
                                if p6 == blen {
                                    let v = Pkg { id: Uuid(id), nevra: Nevra { name, epoch, ver, rel, arch } };
                                    proof {
                                        lemma_subrange_join(b@, 0, p1 as int, p2 as int);
                                        lemma_subrange_join(b@, 0, p2 as int, p3 as int);
                                        lemma_subrange_join(b@, 0, p3 as int, p4 as int);
                                        lemma_subrange_join(b@, 0, p4 as int, p5 as int);
                                        lemma_subrange_join(b@, 0, p5 as int, p6 as int);
                                        assert(b@.subrange(0, p6 as int) =~= b@);
                                        assert(Self::enc_val_spec(v@) == b@);
                                    }
                                    Some(v)
                                } else {
                                    proof {
                                        assert forall|m: <Self as View>::V| Self::enc_val_spec(m) == b@ implies false by {
                                            pkg_dec_chain(m, b@);
                                        }
                                    }
                                    None
                                }
                                },
                                None => {
                                    proof {
                                        assert forall|m: <Self as View>::V| Self::enc_val_spec(m) == b@ implies false by {
                                            pkg_dec_chain(m, b@);
                                        }
                                    }
                                    None
                                },
                            }
                            },
                            None => {
                                proof {
                                    assert forall|m: <Self as View>::V| Self::enc_val_spec(m) == b@ implies false by {
                                        pkg_dec_chain(m, b@);
                                    }
                                }
                                None
                            },
                        }
                        },
                        None => {
                            proof {
                                assert forall|m: <Self as View>::V| Self::enc_val_spec(m) == b@ implies false by {
                                    pkg_dec_chain(m, b@);
                                }
                            }
                            None
                        },
                    }
                    },
                    None => {
                        proof {
                            assert forall|m: <Self as View>::V| Self::enc_val_spec(m) == b@ implies false by {
                                pkg_dec_chain(m, b@);
                            }
                        }
                        None
                    },
                }
                },
                None => {
                    proof {
                        assert forall|m: <Self as View>::V| Self::enc_val_spec(m) == b@ implies false by {
                            pkg_dec_chain(m, b@);
                        }
                    }
                    None
                },
            }
            },
            None => {
                proof {
                    assert forall|m: <Self as View>::V| Self::enc_val_spec(m) == b@ implies false by {
                        pkg_dec_chain(m, b@);
                    }
                }
                None
            },
        }
    }

    proof fn enc_val_injective(m1: <Self as View>::V, m2: <Self as View>::V) {
        lemma_pkg_fields(m1, m2);
    }

    open spec fn index_names_spec() -> Seq<Seq<char>> {
        seq!["pkg_nevra"@]
    }

    fn index_count() -> (r: usize) {
        proof {
            assert(Self::index_names_spec().len() == 1);
        }
        1
    }

    fn index_name(i: usize) -> (r: String) {
        String::from_str("pkg_nevra")
    }

    open spec fn index_keys_spec(m: <Self as View>::V) -> Seq<Seq<u8>> {
        seq![nevra_bytes((m.1, m.2, m.3, m.4, m.5))]
    }

    fn index_key(&self, i: usize) -> (r: Vec<u8>) {
        let mut out: Vec<u8> = Vec::new();
        enc_nevra(&self.nevra, &mut out);
        proof {
            assert(out@ =~= nevra_bytes((self@.1, self@.2, self@.3, self@.4, self@.5)));
            assert(Self::index_keys_spec(self@)[i as int] == nevra_bytes((self@.1, self@.2, self@.3, self@.4, self@.5)));
        }
        out
    }

    proof fn index_arity(m: <Self as View>::V) {
        assert(Self::index_keys_spec(m).len() == 1);
        assert(Self::index_names_spec().len() == 1);
    }

    proof fn names_distinct() {
        assert("pkg_nevra"@ != "pkg"@) by {
            reveal_strlit("pkg_nevra");
            reveal_strlit("pkg");
            assert("pkg_nevra"@.len() == 9);
            assert("pkg"@.len() == 3);
        }
        assert(forall|i: int|
            0 <= i < Self::index_names_spec().len() ==> #[trigger] Self::index_names_spec()[i]
                == "pkg_nevra"@);
    }

    open spec fn adopted_model(m: <Self as View>::V, donor: <Self as View>::V) -> <Self as View>::V {
        (donor.0, m.1, m.2, m.3, m.4, m.5)
    }

    fn adopt_key(&mut self, donor: &Self) {
        self.id = donor.id;
    }

    proof fn adopted_key_is(m: <Self as View>::V, donor: <Self as View>::V) {
    }
}


/// The index of packages by NEVRA: the natural key a package is
/// deduplicated on.
pub struct PkgNevraIdx {}

impl Index for PkgNevraIdx {
    type Owner = Pkg;

    type Key = Nevra;

    open spec fn index_name() -> Seq<char> {
        "pkg_nevra"@
    }

    fn name() -> (r: String) {
        String::from_str("pkg_nevra")
    }

    open spec fn slot() -> int {
        0
    }

    fn slot_exec() -> (r: usize) {
        0
    }

    open spec fn enc_ikey_spec(km: <Nevra as View>::V) -> Seq<u8> {
        nevra_bytes(km)
    }

    fn enc_ikey(k: &Nevra) -> (r: Vec<u8>) {
        let mut out: Vec<u8> = Vec::new();
        enc_nevra(k, &mut out);
        proof {
            assert(out@ =~= nevra_bytes(k@));
        }
        out
    }

    open spec fn proj_model(m: <Pkg as View>::V) -> <Nevra as View>::V {
        (m.1, m.2, m.3, m.4, m.5)
    }

    proof fn index_laws() {
        assert(<Pkg as Table>::index_names_spec()[0] == "pkg_nevra"@);
        assert(forall|m: <Pkg as View>::V|
            #[trigger] <Pkg as Table>::index_keys_spec(m)[0] == nevra_bytes(
                (m.1, m.2, m.3, m.4, m.5),
            ));
    }
}

/// The natural identity of a module within one repository.
#[derive(Clone, Debug, PartialEq)]
pub struct ModuleAttrs {
    pub repo_id: Uuid,
    pub name: String,
    pub arch: String,
}

impl View for ModuleAttrs {
    type V = (u128, Seq<char>, Seq<char>);

    open spec fn view(&self) -> (u128, Seq<char>, Seq<char>) {
        (self.repo_id.0, self.name@, self.arch@)
    }
}

/// The order-preserving key encoding of module attributes.
pub open spec fn module_attrs_bytes(m: (u128, Seq<char>, Seq<char>)) -> Seq<u8> {
    ks_u128(m.0) + crate::keys::ks_str_term(m.1) + ks_str_raw(m.2)
}

/// Append the key encoding of module attributes.
pub fn enc_module_attrs(k: &ModuleAttrs, out: &mut Vec<u8>)
    ensures
        final(out)@ == old(out)@ + module_attrs_bytes(k@),
{
    ke_u128(k.repo_id.0, out);
    crate::keys::ke_str_term(k.name.as_str(), out);
    ke_str_raw(k.arch.as_str(), out);
    proof {
        assert(out@ =~= old(out)@ + module_attrs_bytes(k@));
    }
}

/// Equal module-attribute keys come from equal attributes.
pub proof fn lemma_module_attrs_inj(k1: (u128, Seq<char>, Seq<char>), k2: (u128, Seq<char>, Seq<char>))
    requires
        module_attrs_bytes(k1) == module_attrs_bytes(k2),
    ensures
        k1 == k2,
{
    lemma_pow256_vals();
    let r1a = crate::keys::ks_str_term(k1.1) + ks_str_raw(k1.2);
    let r2a = crate::keys::ks_str_term(k2.1) + ks_str_raw(k2.2);
    assert(module_attrs_bytes(k1) =~= ks_u128(k1.0) + r1a);
    assert(module_attrs_bytes(k2) =~= ks_u128(k2.0) + r2a);
    lemma_ks_fixed_pre(k1.0 as nat, k2.0 as nat, 16, r1a, r2a);
    lemma_ks_term_pre(k1.1, k2.1, ks_str_raw(k1.2), ks_str_raw(k2.2));
    lemma_ks_raw_total(k1.2, k2.2);
}

/// The natural identity of one stream of a module.
#[derive(Clone, Debug, PartialEq)]
pub struct StreamAttrs {
    pub module_id: Uuid,
    pub name: String,
    pub version: u64,
    pub context: String,
}

impl View for StreamAttrs {
    type V = (u128, Seq<char>, u64, Seq<char>);

    open spec fn view(&self) -> (u128, Seq<char>, u64, Seq<char>) {
        (self.module_id.0, self.name@, self.version, self.context@)
    }
}

/// The order-preserving key encoding of stream attributes.
pub open spec fn stream_attrs_bytes(m: (u128, Seq<char>, u64, Seq<char>)) -> Seq<u8> {
    ks_u128(m.0) + crate::keys::ks_str_term(m.1) + crate::keys::ks_u64(m.2) + ks_str_raw(m.3)
}

/// Append the key encoding of stream attributes.
pub fn enc_stream_attrs(k: &StreamAttrs, out: &mut Vec<u8>)
    ensures
        final(out)@ == old(out)@ + stream_attrs_bytes(k@),
{
    ke_u128(k.module_id.0, out);
    crate::keys::ke_str_term(k.name.as_str(), out);
    crate::keys::ke_u64(k.version, out);
    ke_str_raw(k.context.as_str(), out);
    proof {
        assert(out@ =~= old(out)@ + stream_attrs_bytes(k@));
    }
}

/// Equal stream-attribute keys come from equal attributes.
pub proof fn lemma_stream_attrs_inj(
    k1: (u128, Seq<char>, u64, Seq<char>),
    k2: (u128, Seq<char>, u64, Seq<char>),
)
    requires
        stream_attrs_bytes(k1) == stream_attrs_bytes(k2),
    ensures
        k1 == k2,
{
    lemma_pow256_vals();
    let r1a = crate::keys::ks_str_term(k1.1) + (crate::keys::ks_u64(k1.2) + ks_str_raw(k1.3));
    let r2a = crate::keys::ks_str_term(k2.1) + (crate::keys::ks_u64(k2.2) + ks_str_raw(k2.3));
    assert(stream_attrs_bytes(k1) =~= ks_u128(k1.0) + r1a);
    assert(stream_attrs_bytes(k2) =~= ks_u128(k2.0) + r2a);
    lemma_ks_fixed_pre(k1.0 as nat, k2.0 as nat, 16, r1a, r2a);
    lemma_ks_term_pre(k1.1, k2.1, crate::keys::ks_u64(k1.2) + ks_str_raw(k1.3), crate::keys::ks_u64(k2.2) + ks_str_raw(k2.3));
    lemma_ks_fixed_pre(k1.2 as nat, k2.2 as nat, 8, ks_str_raw(k1.3), ks_str_raw(k2.3));
    lemma_ks_raw_total(k1.3, k2.3);
}

/// A security advisory.
#[derive(Clone, Debug, PartialEq)]
pub struct Advisory {
    pub id: Uuid,
    pub typ: String,
    pub name: String,
    pub summary: Option<String>,
    pub desc: Option<String>,
    pub issued: String,
    pub updated: String,
}

impl View for Advisory {
    type V = (u128, Seq<char>, Seq<char>, Option<Seq<char>>, Option<Seq<char>>, Seq<char>, Seq<char>);

    open spec fn view(&self) -> (u128, Seq<char>, Seq<char>, Option<Seq<char>>, Option<Seq<char>>, Seq<char>, Seq<char>) {
        (self.id.0, self.typ@, self.name@, opt_str_view(&self.summary), opt_str_view(&self.desc), self.issued@, self.updated@)
    }
}

/// A module row.
#[derive(Clone, Debug, PartialEq)]
pub struct Module {
    pub id: Uuid,
    pub attrs: ModuleAttrs,
}

impl View for Module {
    type V = (u128, u128, Seq<char>, Seq<char>);

    open spec fn view(&self) -> (u128, u128, Seq<char>, Seq<char>) {
        (self.id.0, self.attrs.repo_id.0, self.attrs.name@, self.attrs.arch@)
    }
}

/// A module stream row, carrying whether it is the module's default stream.
#[derive(Clone, Debug, PartialEq)]
pub struct ModuleStream {
    pub id: Uuid,
    pub attrs: StreamAttrs,
    pub default: bool,
}

impl View for ModuleStream {
    type V = (u128, u128, Seq<char>, u64, Seq<char>, bool);

    open spec fn view(&self) -> (u128, u128, Seq<char>, u64, Seq<char>, bool) {
        (self.id.0, self.attrs.module_id.0, self.attrs.name@, self.attrs.version, self.attrs.context@, self.default)
    }
}

/// The composite identity of a package-repository link.
#[derive(Clone, Copy, Debug, PartialEq, Eq, Hash, Structural)]
pub struct PkgRepoId {
    pub pkg_id: Uuid,
    pub repo_id: Uuid,
}

impl View for PkgRepoId {
    type V = (u128, u128);

    open spec fn view(&self) -> (u128, u128) {
        (self.pkg_id.0, self.repo_id.0)
    }
}

/// A package-repository link.
#[derive(Clone, Copy, Debug, PartialEq, Eq, Hash, Structural)]
pub struct PkgRepo(pub PkgRepoId);

impl View for PkgRepo {
    type V = (u128, u128);

    open spec fn view(&self) -> (u128, u128) {
        (self.0.pkg_id.0, self.0.repo_id.0)
    }
}

/// The composite identity of an advisory-repository link.
#[derive(Clone, Copy, Debug, PartialEq, Eq, Hash, Structural)]
pub struct AdvisoryRepoId {
    pub adv_id: Uuid,
    pub repo_id: Uuid,
}

impl View for AdvisoryRepoId {
    type V = (u128, u128);

    open spec fn view(&self) -> (u128, u128) {
        (self.adv_id.0, self.repo_id.0)
    }
}

/// An advisory-repository link.
#[derive(Clone, Copy, Debug, PartialEq, Eq, Hash, Structural)]
pub struct AdvisoryRepo(pub AdvisoryRepoId);

impl View for AdvisoryRepo {
    type V = (u128, u128);

    open spec fn view(&self) -> (u128, u128) {
        (self.0.adv_id.0, self.0.repo_id.0)
    }
}

/// The key encoding of a pair of ids.
pub open spec fn id_pair_bytes(m: (u128, u128)) -> Seq<u8> {
    ks_u128(m.0) + ks_u128(m.1)
}

/// Equal id-pair keys come from equal pairs.
pub proof fn lemma_id_pair_inj(k1: (u128, u128), k2: (u128, u128))
    requires
        id_pair_bytes(k1) == id_pair_bytes(k2),
    ensures
        k1 == k2,
{
    lemma_pow256_vals();
    lemma_ks_fixed_pre(k1.0 as nat, k2.0 as nat, 16, ks_u128(k1.1), ks_u128(k2.1));
    lemma_ks_fixed_injective(k1.1 as nat, k2.1 as nat, 16);
}

/// The composite identity of a package-advisory link, with the module
/// stream it came through, if any.
#[derive(Clone, Copy, Debug, PartialEq, Eq, Hash, Structural)]
pub struct PkgAdvisoryId {
    pub pkg_id: Uuid,
    pub adv_id: Uuid,
    pub stream_id: Option<Uuid>,
}

pub open spec fn opt_uuid_view(o: Option<Uuid>) -> Option<u128> {
    match o {
        Some(u) => Some(u.0),
        None => None,
    }
}

impl View for PkgAdvisoryId {
    type V = (u128, u128, Option<u128>);

    open spec fn view(&self) -> (u128, u128, Option<u128>) {
        (self.pkg_id.0, self.adv_id.0, opt_uuid_view(self.stream_id))
    }
}

/// A package-advisory link.
#[derive(Clone, Copy, Debug, PartialEq, Eq, Hash, Structural)]
pub struct PkgAdvisory(pub PkgAdvisoryId);

impl View for PkgAdvisory {
    type V = (u128, u128, Option<u128>);

    open spec fn view(&self) -> (u128, u128, Option<u128>) {
        (self.0.pkg_id.0, self.0.adv_id.0, opt_uuid_view(self.0.stream_id))
    }
}

/// The key encoding of a package-advisory identity.
pub open spec fn pkg_advisory_id_bytes(m: (u128, u128, Option<u128>)) -> Seq<u8> {
    ks_u128(m.0) + ks_u128(m.1) + crate::keys::ks_opt_u128(m.2)
}

/// Equal package-advisory keys come from equal identities.
pub proof fn lemma_pkg_advisory_id_inj(k1: (u128, u128, Option<u128>), k2: (u128, u128, Option<u128>))
    requires
        pkg_advisory_id_bytes(k1) == pkg_advisory_id_bytes(k2),
    ensures
        k1 == k2,
{
    lemma_pow256_vals();
    let r1a = ks_u128(k1.1) + crate::keys::ks_opt_u128(k1.2);
    let r2a = ks_u128(k2.1) + crate::keys::ks_opt_u128(k2.2);
    assert(pkg_advisory_id_bytes(k1) =~= ks_u128(k1.0) + r1a);
    assert(pkg_advisory_id_bytes(k2) =~= ks_u128(k2.0) + r2a);
    lemma_ks_fixed_pre(k1.0 as nat, k2.0 as nat, 16, r1a, r2a);
    lemma_ks_fixed_pre(k1.1 as nat, k2.1 as nat, 16, crate::keys::ks_opt_u128(k1.2), crate::keys::ks_opt_u128(k2.2));
    lemma_ks_opt_u128_total(k1.2, k2.2);
}

/// A plain tagged label: the smallest table with a string primary key.
#[derive(Clone, Debug, PartialEq)]
pub struct Label(pub String);

impl View for Label {
    type V = Seq<char>;

    open spec fn view(&self) -> Seq<char> {
        self.0@
    }
}

/// The right-associated decomposition of a advisory row's encoding.
pub open spec fn advisory_rest1(m: <Advisory as View>::V) -> Seq<u8> {
    vs_str(m.1) + (vs_str(m.2) + (vs_opt_str(m.3) + (vs_opt_str(m.4) + (vs_str(m.5) + (vs_str(m.6))))))
}

proof fn advisory_parts_of(m: <Advisory as View>::V)
    ensures
        <Advisory as Table>::enc_val_spec(m) == vs_u128(m.0) + advisory_rest1(m),
{
    assert(<Advisory as Table>::enc_val_spec(m) =~= vs_u128(m.0) + advisory_rest1(m));
}

proof fn lemma_advisory_parts()
    ensures
        forall|m: <Advisory as View>::V|
            #[trigger] <Advisory as Table>::enc_val_spec(m) == vs_u128(m.0) + advisory_rest1(m),
{
    assert forall|m: <Advisory as View>::V|
        #[trigger] <Advisory as Table>::enc_val_spec(m) == vs_u128(m.0) + advisory_rest1(m) by {
        advisory_parts_of(m);
    }
}

/// Walk the decomposition of a valid encoding field by field.
proof fn advisory_dec_chain(m: <Advisory as View>::V, b: Seq<u8>)
    requires
        <Advisory as Table>::enc_val_spec(m) == b,
    ensures
        b.skip(0) == vs_u128(m.0) + (vs_str(m.1) + (vs_str(m.2) + (vs_opt_str(m.3) + (vs_opt_str(m.4) + (vs_str(m.5) + (vs_str(m.6))))))),
        b.skip(16 as int) == vs_str(m.1) + (vs_str(m.2) + (vs_opt_str(m.3) + (vs_opt_str(m.4) + (vs_str(m.5) + (vs_str(m.6)))))),
        b.skip(16 + vs_str(m.1).len() as int) == vs_str(m.2) + (vs_opt_str(m.3) + (vs_opt_str(m.4) + (vs_str(m.5) + (vs_str(m.6))))),
        b.skip(16 + vs_str(m.1).len() + vs_str(m.2).len() as int) == vs_opt_str(m.3) + (vs_opt_str(m.4) + (vs_str(m.5) + (vs_str(m.6)))),
        b.skip(16 + vs_str(m.1).len() + vs_str(m.2).len() + vs_opt_str(m.3).len() as int) == vs_opt_str(m.4) + (vs_str(m.5) + (vs_str(m.6))),
        b.skip(16 + vs_str(m.1).len() + vs_str(m.2).len() + vs_opt_str(m.3).len() + vs_opt_str(m.4).len() as int) == vs_str(m.5) + (vs_str(m.6)),
        b.skip(16 + vs_str(m.1).len() + vs_str(m.2).len() + vs_opt_str(m.3).len() + vs_opt_str(m.4).len() + vs_str(m.5).len() as int) == vs_str(m.6) + (Seq::<u8>::empty()),
        b.len() == 16 + vs_str(m.1).len() + vs_str(m.2).len() + vs_opt_str(m.3).len() + vs_opt_str(m.4).len() + vs_str(m.5).len() + vs_str(m.6).len(),
{
    advisory_parts_of(m);
    assert(b.skip(0) =~= b);
    lemma_pow256_vals();
    lemma_be_bytes_len((m.0) as nat, 16);
    lemma_concat_split(vs_u128(m.0), vs_str(m.1) + (vs_str(m.2) + (vs_opt_str(m.3) + (vs_opt_str(m.4) + (vs_str(m.5) + (vs_str(m.6)))))));
    assert(b.skip(0).skip((16) as int) =~= b.skip(16 as int));
    lemma_concat_split(vs_str(m.1), vs_str(m.2) + (vs_opt_str(m.3) + (vs_opt_str(m.4) + (vs_str(m.5) + (vs_str(m.6))))));
    assert(b.skip(16 as int).skip((vs_str(m.1).len()) as int) =~= b.skip(16 + vs_str(m.1).len() as int));
    lemma_concat_split(vs_str(m.2), vs_opt_str(m.3) + (vs_opt_str(m.4) + (vs_str(m.5) + (vs_str(m.6)))));
    assert(b.skip(16 + vs_str(m.1).len() as int).skip((vs_str(m.2).len()) as int) =~= b.skip(16 + vs_str(m.1).len() + vs_str(m.2).len() as int));
    lemma_concat_split(vs_opt_str(m.3), vs_opt_str(m.4) + (vs_str(m.5) + (vs_str(m.6))));
    assert(b.skip(16 + vs_str(m.1).len() + vs_str(m.2).len() as int).skip((vs_opt_str(m.3).len()) as int) =~= b.skip(16 + vs_str(m.1).len() + vs_str(m.2).len() + vs_opt_str(m.3).len() as int));
    lemma_concat_split(vs_opt_str(m.4), vs_str(m.5) + (vs_str(m.6)));
    assert(b.skip(16 + vs_str(m.1).len() + vs_str(m.2).len() + vs_opt_str(m.3).len() as int).skip((vs_opt_str(m.4).len()) as int) =~= b.skip(16 + vs_str(m.1).len() + vs_str(m.2).len() + vs_opt_str(m.3).len() + vs_opt_str(m.4).len() as int));
    lemma_concat_split(vs_str(m.5), vs_str(m.6));
    assert(b.skip(16 + vs_str(m.1).len() + vs_str(m.2).len() + vs_opt_str(m.3).len() + vs_opt_str(m.4).len() as int).skip((vs_str(m.5).len()) as int) =~= b.skip(16 + vs_str(m.1).len() + vs_str(m.2).len() + vs_opt_str(m.3).len() + vs_opt_str(m.4).len() + vs_str(m.5).len() as int));
    assert(vs_str(m.6) + Seq::<u8>::empty() =~= vs_str(m.6));
}

/// Equal encodings denote equal advisory rows.
proof fn lemma_advisory_fields(m1: <Advisory as View>::V, m2: <Advisory as View>::V)
    requires
        <Advisory as Table>::enc_val_spec(m1) == <Advisory as Table>::enc_val_spec(m2),
        <Advisory as Table>::enc_val_spec(m1).len() <= usize::MAX,
    ensures
        m1 == m2,
{
    let b = <Advisory as Table>::enc_val_spec(m1);
    advisory_dec_chain(m1, b);
    advisory_dec_chain(m2, b);
    lemma_vs_u128_eq(m1.0, m2.0, vs_str(m1.1) + (vs_str(m1.2) + (vs_opt_str(m1.3) + (vs_opt_str(m1.4) + (vs_str(m1.5) + (vs_str(m1.6)))))), vs_str(m2.1) + (vs_str(m2.2) + (vs_opt_str(m2.3) + (vs_opt_str(m2.4) + (vs_str(m2.5) + (vs_str(m2.6)))))));
    lemma_vs_str_eq(m1.1, m2.1, b.skip(16 as int));
    lemma_vs_str_eq(m1.2, m2.2, b.skip(16 + vs_str(m1.1).len() as int));
    lemma_vs_opt_str_eq(m1.3, m2.3, b.skip(16 + vs_str(m1.1).len() + vs_str(m1.2).len() as int));
    lemma_vs_opt_str_eq(m1.4, m2.4, b.skip(16 + vs_str(m1.1).len() + vs_str(m1.2).len() + vs_opt_str(m1.3).len() as int));
    lemma_vs_str_eq(m1.5, m2.5, b.skip(16 + vs_str(m1.1).len() + vs_str(m1.2).len() + vs_opt_str(m1.3).len() + vs_opt_str(m1.4).len() as int));
    lemma_vs_str_eq(m1.6, m2.6, b.skip(16 + vs_str(m1.1).len() + vs_str(m1.2).len() + vs_opt_str(m1.3).len() + vs_opt_str(m1.4).len() + vs_str(m1.5).len() as int));
}

impl Table for Advisory {
    type Key = Uuid;

    open spec fn table_name() -> Seq<char> {
        "advisory"@
    }

    fn name() -> (r: String) {
        String::from_str("advisory")
    }

    open spec fn enc_key_spec(km: <Uuid as View>::V) -> Seq<u8> {
        ks_u128(km)
    }

    fn enc_key(k: &Uuid) -> (r: Vec<u8>) {
        let mut out: Vec<u8> = Vec::new();
        ke_u128(k.0, &mut out);
        proof {
            assert(out@ =~= ks_u128(k.0));
        }
        out
    }

    proof fn enc_key_injective(k1: <Uuid as View>::V, k2: <Uuid as View>::V) {
        lemma_pow256_vals();
        lemma_ks_fixed_injective(k1 as nat, k2 as nat, 16);
    }

    open spec fn row_key_model(m: <Self as View>::V) -> <Uuid as View>::V {
        m.0
    }

    fn key_of(&self) -> (k: Uuid) {
        self.id
    }

    open spec fn enc_val_spec(m: <Self as View>::V) -> Seq<u8> {
        vs_u128(m.0) + vs_str(m.1) + vs_str(m.2) + vs_opt_str(m.3) + vs_opt_str(m.4) + vs_str(m.5) + vs_str(m.6)
    }

    fn enc_val(&self) -> (r: Vec<u8>) {
        let mut out: Vec<u8> = Vec::new();
        ve_u128(self.id.0, &mut out);
        ve_str(self.typ.as_str(), &mut out);
        ve_str(self.name.as_str(), &mut out);
        ve_opt_str(&self.summary, &mut out);
        ve_opt_str(&self.desc, &mut out);
        ve_str(self.issued.as_str(), &mut out);
        ve_str(self.updated.as_str(), &mut out);
        proof {
            assert(out@ =~= Self::enc_val_spec(self@));
        }
        out
    }

    #[verifier::rlimit(80)]
    fn dec_val(b: &[u8]) -> (r: Option<Self>) {
        let blen: usize = b.len();
        proof {
            lemma_advisory_parts();
        }
        let r0 = dv_u128(b, 0);
        match r0 {
            Some((id, p1)) => {
            let r1 = dv_str(b, p1);
            match r1 {
                Some((typ, p2)) => {
                let r2 = dv_str(b, p2);
                match r2 {
                    Some((name, p3)) => {
                    let r3 = dv_opt_str(b, p3);
                    match r3 {
                        Some((summary, p4)) => {
                        let r4 = dv_opt_str(b, p4);
                        match r4 {
                            Some((desc, p5)) => {
                            let r5 = dv_str(b, p5);
                            match r5 {
                                Some((issued, p6)) => {
                                let r6 = dv_str(b, p6);
                                match r6 {
                                    Some((updated, p7)) => {
                                    if p7 == blen {
                                        let v = Advisory { id: Uuid(id), typ, name, summary, desc, issued, updated };
                                        proof {
                                            lemma_subrange_join(b@, 0, p1 as int, p2 as int);
                                            lemma_subrange_join(b@, 0, p2 as int, p3 as int);
                                            lemma_subrange_join(b@, 0, p3 as int, p4 as int);
                                            lemma_subrange_join(b@, 0, p4 as int, p5 as int);
                                            lemma_subrange_join(b@, 0, p5 as int, p6 as int);
                                            lemma_subrange_join(b@, 0, p6 as int, p7 as int);
                                            assert(b@.subrange(0, p7 as int) =~= b@);
                                            assert(Self::enc_val_spec(v@) == b@);
                                        }
                                        Some(v)
                                    } else {
                                        proof {
                                            assert forall|m: <Self as View>::V| Self::enc_val_spec(m) == b@ implies false by {
                                                advisory_dec_chain(m, b@);
                                            }
                                        }
                                        None
                                    }
                                    },
                                    None => {
                                        proof {
                                            assert forall|m: <Self as View>::V| Self::enc_val_spec(m) == b@ implies false by {
                                                advisory_dec_chain(m, b@);
                                            }
                                        }
                                        None
                                    },
                                }
                                },
                                None => {
                                    proof {
                                        assert forall|m: <Self as View>::V| Self::enc_val_spec(m) == b@ implies false by {
                                            advisory_dec_chain(m, b@);
                                        }
                                    }
                                    None
                                },
                            }
                            },
                            None => {
                                proof {
                                    assert forall|m: <Self as View>::V| Self::enc_val_spec(m) == b@ implies false by {
                                        advisory_dec_chain(m, b@);
                                    }
                                }
                                None
                            },
                        }
                        },
                        None => {
                            proof {
                                assert forall|m: <Self as View>::V| Self::enc_val_spec(m) == b@ implies false by {
                                    advisory_dec_chain(m, b@);
                                }
                            }
                            None
                        },
                    }
                    },
                    None => {
                        proof {
                            assert forall|m: <Self as View>::V| Self::enc_val_spec(m) == b@ implies false by {
                                advisory_dec_chain(m, b@);
                            }
                        }
                        None
                    },
                }
                },
                None => {
                    proof {
                        assert forall|m: <Self as View>::V| Self::enc_val_spec(m) == b@ implies false by {
                            advisory_dec_chain(m, b@);
                        }
                    }
                    None
                },
            }
            },
            None => {
                proof {
                    assert forall|m: <Self as View>::V| Self::enc_val_spec(m) == b@ implies false by {
                        advisory_dec_chain(m, b@);
                    }
                }
                None
            },
        }
    }

    proof fn enc_val_injective(m1: <Self as View>::V, m2: <Self as View>::V) {
        lemma_advisory_fields(m1, m2);
    }

    open spec fn index_names_spec() -> Seq<Seq<char>> {
        seq!["advisory_name"@]
    }

    fn index_count() -> (r: usize) {
        proof {
            assert(Self::index_names_spec().len() == 1);
        }
        1
    }

    fn index_name(i: usize) -> (r: String) {
        String::from_str("advisory_name")
    }

    open spec fn index_keys_spec(m: <Self as View>::V) -> Seq<Seq<u8>> {
        seq![ks_str_raw(m.2)]
    }

    fn index_key(&self, i: usize) -> (r: Vec<u8>) {
        let mut out: Vec<u8> = Vec::new();
        ke_str_raw(self.name.as_str(), &mut out);
        proof {
            assert(out@ =~= ks_str_raw(self@.2));
            assert(Self::index_keys_spec(self@)[i as int] == ks_str_raw(self@.2));
        }
        out
    }

    proof fn index_arity(m: <Self as View>::V) {
        assert(Self::index_keys_spec(m).len() == 1);
        assert(Self::index_names_spec().len() == 1);
    }

    proof fn names_distinct() {
        assert("advisory_name"@ != "advisory"@) by {
            reveal_strlit("advisory_name");
            reveal_strlit("advisory");
            assert("advisory_name"@.len() == 13);
            assert("advisory"@.len() == 8);
        }
        assert(forall|i: int|
            0 <= i < Self::index_names_spec().len() ==> #[trigger] Self::index_names_spec()[i]
                == "advisory_name"@);
    }

    open spec fn adopted_model(m: <Self as View>::V, donor: <Self as View>::V) -> <Self as View>::V {
        (donor.0, m.1, m.2, m.3, m.4, m.5, m.6)
    }

    fn adopt_key(&mut self, donor: &Self) {
        self.id = donor.id;
    }

    proof fn adopted_key_is(m: <Self as View>::V, donor: <Self as View>::V) {
    }
}

/// The right-associated decomposition of a module row's encoding.
pub open spec fn module_rest1(m: <Module as View>::V) -> Seq<u8> {
    vs_u128(m.1) + (vs_str(m.2) + (vs_str(m.3)))
}

proof fn module_parts_of(m: <Module as View>::V)
    ensures
        <Module as Table>::enc_val_spec(m) == vs_u128(m.0) + module_rest1(m),
{
    assert(<Module as Table>::enc_val_spec(m) =~= vs_u128(m.0) + module_rest1(m));
}

proof fn lemma_module_parts()
    ensures
        forall|m: <Module as View>::V|
            #[trigger] <Module as Table>::enc_val_spec(m) == vs_u128(m.0) + module_rest1(m),
{
    assert forall|m: <Module as View>::V|
        #[trigger] <Module as Table>::enc_val_spec(m) == vs_u128(m.0) + module_rest1(m) by {
        module_parts_of(m);
    }
}

/// Walk the decomposition of a valid encoding field by field.
proof fn module_dec_chain(m: <Module as View>::V, b: Seq<u8>)
    requires
        <Module as Table>::enc_val_spec(m) == b,
    ensures
        b.skip(0) == vs_u128(m.0) + (vs_u128(m.1) + (vs_str(m.2) + (vs_str(m.3)))),
        b.skip(16 as int) == vs_u128(m.1) + (vs_str(m.2) + (vs_str(m.3))),
        b.skip(16 + 16 as int) == vs_str(m.2) + (vs_str(m.3)),
        b.skip(16 + 16 + vs_str(m.2).len() as int) == vs_str(m.3) + (Seq::<u8>::empty()),
        b.len() == 16 + 16 + vs_str(m.2).len() + vs_str(m.3).len(),
{
    module_parts_of(m);
    assert(b.skip(0) =~= b);
    lemma_pow256_vals();
    lemma_be_bytes_len((m.0) as nat, 16);
    lemma_be_bytes_len((m.1) as nat, 16);
    lemma_concat_split(vs_u128(m.0), vs_u128(m.1) + (vs_str(m.2) + (vs_str(m.3))));
    assert(b.skip(0).skip((16) as int) =~= b.skip(16 as int));
    lemma_concat_split(vs_u128(m.1), vs_str(m.2) + (vs_str(m.3)));
    assert(b.skip(16 as int).skip((16) as int) =~= b.skip(16 + 16 as int));
    lemma_concat_split(vs_str(m.2), vs_str(m.3));
    assert(b.skip(16 + 16 as int).skip((vs_str(m.2).len()) as int) =~= b.skip(16 + 16 + vs_str(m.2).len() as int));
    assert(vs_str(m.3) + Seq::<u8>::empty() =~= vs_str(m.3));
}

/// Equal encodings denote equal module rows.
proof fn lemma_module_fields(m1: <Module as View>::V, m2: <Module as View>::V)
    requires
        <Module as Table>::enc_val_spec(m1) == <Module as Table>::enc_val_spec(m2),
        <Module as Table>::enc_val_spec(m1).len() <= usize::MAX,
    ensures
        m1 == m2,
{
    let b = <Module as Table>::enc_val_spec(m1);
    module_dec_chain(m1, b);
    module_dec_chain(m2, b);
    lemma_vs_u128_eq(m1.0, m2.0, vs_u128(m1.1) + (vs_str(m1.2) + (vs_str(m1.3))), vs_u128(m2.1) + (vs_str(m2.2) + (vs_str(m2.3))));
    lemma_vs_u128_eq(m1.1, m2.1, vs_str(m1.2) + (vs_str(m1.3)), vs_str(m2.2) + (vs_str(m2.3)));
    lemma_vs_str_eq(m1.2, m2.2, b.skip(16 + 16 as int));
    lemma_vs_str_eq(m1.3, m2.3, b.skip(16 + 16 + vs_str(m1.2).len() as int));
}

impl Table for Module {
    type Key = Uuid;

    open spec fn table_name() -> Seq<char> {
        "module"@
    }

    fn name() -> (r: String) {
        String::from_str("module")
    }

    open spec fn enc_key_spec(km: <Uuid as View>::V) -> Seq<u8> {
        ks_u128(km)
    }

    fn enc_key(k: &Uuid) -> (r: Vec<u8>) {
        let mut out: Vec<u8> = Vec::new();
        ke_u128(k.0, &mut out);
        proof {
            assert(out@ =~= ks_u128(k.0));
        }
        out
    }

    proof fn enc_key_injective(k1: <Uuid as View>::V, k2: <Uuid as View>::V) {
        lemma_pow256_vals();
        lemma_ks_fixed_injective(k1 as nat, k2 as nat, 16);
    }

    open spec fn row_key_model(m: <Self as View>::V) -> <Uuid as View>::V {
        m.0
    }

    fn key_of(&self) -> (k: Uuid) {
        self.id
    }

    open spec fn enc_val_spec(m: <Self as View>::V) -> Seq<u8> {
        vs_u128(m.0) + vs_u128(m.1) + vs_str(m.2) + vs_str(m.3)
    }

    fn enc_val(&self) -> (r: Vec<u8>) {
        let mut out: Vec<u8> = Vec::new();
        ve_u128(self.id.0, &mut out);
        ve_u128(self.attrs.repo_id.0, &mut out);
        ve_str(self.attrs.name.as_str(), &mut out);
        ve_str(self.attrs.arch.as_str(), &mut out);
        proof {
            assert(out@ =~= Self::enc_val_spec(self@));
        }
        out
    }

    fn dec_val(b: &[u8]) -> (r: Option<Self>) {
        let blen: usize = b.len();
        proof {
            lemma_module_parts();
        }
        let r0 = dv_u128(b, 0);
        match r0 {
            Some((id, p1)) => {
            let r1 = dv_u128(b, p1);
            match r1 {
                Some((repo_id, p2)) => {
                let r2 = dv_str(b, p2);
                match r2 {
                    Some((name, p3)) => {
                    let r3 = dv_str(b, p3);
                    match r3 {
                        Some((arch, p4)) => {
                        if p4 == blen {
                            let v = Module { id: Uuid(id), attrs: ModuleAttrs { repo_id: Uuid(repo_id), name, arch } };
                            proof {
                                lemma_subrange_join(b@, 0, p1 as int, p2 as int);
                                lemma_subrange_join(b@, 0, p2 as int, p3 as int);
                                lemma_subrange_join(b@, 0, p3 as int, p4 as int);
                                assert(b@.subrange(0, p4 as int) =~= b@);
                                assert(Self::enc_val_spec(v@) == b@);
                            }
                            Some(v)
                        } else {
                            proof {
                                assert forall|m: <Self as View>::V| Self::enc_val_spec(m) == b@ implies false by {
                                    module_dec_chain(m, b@);
                                }
                            }
                            None
                        }
                        },
                        None => {
                            proof {
                                assert forall|m: <Self as View>::V| Self::enc_val_spec(m) == b@ implies false by {
                                    module_dec_chain(m, b@);
                                }
                            }
                            None
                        },
                    }
                    },
                    None => {
                        proof {
                            assert forall|m: <Self as View>::V| Self::enc_val_spec(m) == b@ implies false by {
                                module_dec_chain(m, b@);
                            }
                        }
                        None
                    },
                }
                },
                None => {
                    proof {
                        assert forall|m: <Self as View>::V| Self::enc_val_spec(m) == b@ implies false by {
                            module_dec_chain(m, b@);
                        }
                    }
                    None
                },
            }
            },
            None => {
                proof {
                    assert forall|m: <Self as View>::V| Self::enc_val_spec(m) == b@ implies false by {
                        module_dec_chain(m, b@);
                    }
                }
                None
            },
        }
    }

    proof fn enc_val_injective(m1: <Self as View>::V, m2: <Self as View>::V) {
        lemma_module_fields(m1, m2);
    }

    open spec fn index_names_spec() -> Seq<Seq<char>> {
        seq!["module_attrs"@]
    }

    fn index_count() -> (r: usize) {
        proof {
            assert(Self::index_names_spec().len() == 1);
        }
        1
    }

    fn index_name(i: usize) -> (r: String) {
        String::from_str("module_attrs")
    }

    open spec fn index_keys_spec(m: <Self as View>::V) -> Seq<Seq<u8>> {
        seq![module_attrs_bytes((m.1, m.2, m.3))]
    }

    fn index_key(&self, i: usize) -> (r: Vec<u8>) {
        let mut out: Vec<u8> = Vec::new();
        enc_module_attrs(&self.attrs, &mut out);
        proof {
            assert(out@ =~= module_attrs_bytes((self@.1, self@.2, self@.3)));
            assert(Self::index_keys_spec(self@)[i as int] == module_attrs_bytes((self@.1, self@.2, self@.3)));
        }
        out
    }

    proof fn index_arity(m: <Self as View>::V) {
        assert(Self::index_keys_spec(m).len() == 1);
        assert(Self::index_names_spec().len() == 1);
    }

    proof fn names_distinct() {
        assert("module_attrs"@ != "module"@) by {
            reveal_strlit("module_attrs");
            reveal_strlit("module");
            assert("module_attrs"@.len() == 12);
            assert("module"@.len() == 6);
        }
        assert(forall|i: int|
            0 <= i < Self::index_names_spec().len() ==> #[trigger] Self::index_names_spec()[i]
                == "module_attrs"@);
    }

    open spec fn adopted_model(m: <Self as View>::V, donor: <Self as View>::V) -> <Self as View>::V {
        (donor.0, m.1, m.2, m.3)
    }

    fn adopt_key(&mut self, donor: &Self) {
        self.id = donor.id;
    }

    proof fn adopted_key_is(m: <Self as View>::V, donor: <Self as View>::V) {
    }
}

/// The right-associated decomposition of a module stream row's encoding.
pub open spec fn module_stream_rest1(m: <ModuleStream as View>::V) -> Seq<u8> {
    vs_u128(m.1) + (vs_str(m.2) + (crate::values::vs_u64(m.3) + (vs_str(m.4) + (crate::values::vs_bool(m.5)))))
}

proof fn module_stream_parts_of(m: <ModuleStream as View>::V)
    ensures
        <ModuleStream as Table>::enc_val_spec(m) == vs_u128(m.0) + module_stream_rest1(m),
{
    assert(<ModuleStream as Table>::enc_val_spec(m) =~= vs_u128(m.0) + module_stream_rest1(m));
}

proof fn lemma_module_stream_parts()
    ensures
        forall|m: <ModuleStream as View>::V|
            #[trigger] <ModuleStream as Table>::enc_val_spec(m) == vs_u128(m.0) + module_stream_rest1(m),
{
    assert forall|m: <ModuleStream as View>::V|
        #[trigger] <ModuleStream as Table>::enc_val_spec(m) == vs_u128(m.0) + module_stream_rest1(m) by {
        module_stream_parts_of(m);
    }
}

/// Walk the decomposition of a valid encoding field by field.
proof fn module_stream_dec_chain(m: <ModuleStream as View>::V, b: Seq<u8>)
    requires
        <ModuleStream as Table>::enc_val_spec(m) == b,
    ensures
        b.skip(0) == vs_u128(m.0) + (vs_u128(m.1) + (vs_str(m.2) + (crate::values::vs_u64(m.3) + (vs_str(m.4) + (crate::values::vs_bool(m.5)))))),
        b.skip(16 as int) == vs_u128(m.1) + (vs_str(m.2) + (crate::values::vs_u64(m.3) + (vs_str(m.4) + (crate::values::vs_bool(m.5))))),
        b.skip(16 + 16 as int) == vs_str(m.2) + (crate::values::vs_u64(m.3) + (vs_str(m.4) + (crate::values::vs_bool(m.5)))),
        b.skip(16 + 16 + vs_str(m.2).len() as int) == crate::values::vs_u64(m.3) + (vs_str(m.4) + (crate::values::vs_bool(m.5))),
        b.skip(16 + 16 + vs_str(m.2).len() + 8 as int) == vs_str(m.4) + (crate::values::vs_bool(m.5)),
        b.skip(16 + 16 + vs_str(m.2).len() + 8 + vs_str(m.4).len() as int) == crate::values::vs_bool(m.5) + (Seq::<u8>::empty()),
        b.len() == 16 + 16 + vs_str(m.2).len() + 8 + vs_str(m.4).len() + 1,
{
    module_stream_parts_of(m);
    assert(b.skip(0) =~= b);
    lemma_pow256_vals();
    lemma_be_bytes_len((m.0) as nat, 16);
    lemma_be_bytes_len((m.1) as nat, 16);
    lemma_be_bytes_len((m.3) as nat, 8);
    lemma_concat_split(vs_u128(m.0), vs_u128(m.1) + (vs_str(m.2) + (crate::values::vs_u64(m.3) + (vs_str(m.4) + (crate::values::vs_bool(m.5))))));
    assert(b.skip(0).skip((16) as int) =~= b.skip(16 as int));
    lemma_concat_split(vs_u128(m.1), vs_str(m.2) + (crate::values::vs_u64(m.3) + (vs_str(m.4) + (crate::values::vs_bool(m.5)))));
    assert(b.skip(16 as int).skip((16) as int) =~= b.skip(16 + 16 as int));
    lemma_concat_split(vs_str(m.2), crate::values::vs_u64(m.3) + (vs_str(m.4) + (crate::values::vs_bool(m.5))));
    assert(b.skip(16 + 16 as int).skip((vs_str(m.2).len()) as int) =~= b.skip(16 + 16 + vs_str(m.2).len() as int));
    lemma_concat_split(crate::values::vs_u64(m.3), vs_str(m.4) + (crate::values::vs_bool(m.5)));
    assert(b.skip(16 + 16 + vs_str(m.2).len() as int).skip((8) as int) =~= b.skip(16 + 16 + vs_str(m.2).len() + 8 as int));
    lemma_concat_split(vs_str(m.4), crate::values::vs_bool(m.5));
    assert(b.skip(16 + 16 + vs_str(m.2).len() + 8 as int).skip((vs_str(m.4).len()) as int) =~= b.skip(16 + 16 + vs_str(m.2).len() + 8 + vs_str(m.4).len() as int));
    assert(crate::values::vs_bool(m.5) + Seq::<u8>::empty() =~= crate::values::vs_bool(m.5));
}

/// Equal encodings denote equal module stream rows.
proof fn lemma_module_stream_fields(m1: <ModuleStream as View>::V, m2: <ModuleStream as View>::V)
    requires
        <ModuleStream as Table>::enc_val_spec(m1) == <ModuleStream as Table>::enc_val_spec(m2),
        <ModuleStream as Table>::enc_val_spec(m1).len() <= usize::MAX,
    ensures
        m1 == m2,
{
    let b = <ModuleStream as Table>::enc_val_spec(m1);
    module_stream_dec_chain(m1, b);
    module_stream_dec_chain(m2, b);
    lemma_vs_u128_eq(m1.0, m2.0, vs_u128(m1.1) + (vs_str(m1.2) + (crate::values::vs_u64(m1.3) + (vs_str(m1.4) + (crate::values::vs_bool(m1.5))))), vs_u128(m2.1) + (vs_str(m2.2) + (crate::values::vs_u64(m2.3) + (vs_str(m2.4) + (crate::values::vs_bool(m2.5))))));
    lemma_vs_u128_eq(m1.1, m2.1, vs_str(m1.2) + (crate::values::vs_u64(m1.3) + (vs_str(m1.4) + (crate::values::vs_bool(m1.5)))), vs_str(m2.2) + (crate::values::vs_u64(m2.3) + (vs_str(m2.4) + (crate::values::vs_bool(m2.5)))));
    lemma_vs_str_eq(m1.2, m2.2, b.skip(16 + 16 as int));
    lemma_vs_u64_eq(m1.3, m2.3, vs_str(m1.4) + (crate::values::vs_bool(m1.5)), vs_str(m2.4) + (crate::values::vs_bool(m2.5)));
    lemma_vs_str_eq(m1.4, m2.4, b.skip(16 + 16 + vs_str(m1.2).len() + 8 as int));
    lemma_vs_bool_eq(m1.5, m2.5, Seq::<u8>::empty(), Seq::<u8>::empty());
}

impl Table for ModuleStream {
    type Key = Uuid;

    open spec fn table_name() -> Seq<char> {
        "module_stream"@
    }

    fn name() -> (r: String) {
        String::from_str("module_stream")
    }

    open spec fn enc_key_spec(km: <Uuid as View>::V) -> Seq<u8> {
        ks_u128(km)
    }

    fn enc_key(k: &Uuid) -> (r: Vec<u8>) {
        let mut out: Vec<u8> = Vec::new();
        ke_u128(k.0, &mut out);
        proof {
            assert(out@ =~= ks_u128(k.0));
        }
        out
    }

    proof fn enc_key_injective(k1: <Uuid as View>::V, k2: <Uuid as View>::V) {
        lemma_pow256_vals();
        lemma_ks_fixed_injective(k1 as nat, k2 as nat, 16);
    }

    open spec fn row_key_model(m: <Self as View>::V) -> <Uuid as View>::V {
        m.0
    }

    fn key_of(&self) -> (k: Uuid) {
        self.id
    }

    open spec fn enc_val_spec(m: <Self as View>::V) -> Seq<u8> {
        vs_u128(m.0) + vs_u128(m.1) + vs_str(m.2) + crate::values::vs_u64(m.3) + vs_str(m.4) + crate::values::vs_bool(m.5)
    }

    fn enc_val(&self) -> (r: Vec<u8>) {
        let mut out: Vec<u8> = Vec::new();
        ve_u128(self.id.0, &mut out);
        ve_u128(self.attrs.module_id.0, &mut out);
        ve_str(self.attrs.name.as_str(), &mut out);
        crate::values::ve_u64(self.attrs.version, &mut out);
        ve_str(self.attrs.context.as_str(), &mut out);
        crate::values::ve_bool(self.default, &mut out);
        proof {
            assert(out@ =~= Self::enc_val_spec(self@));
        }
        out
    }

    fn dec_val(b: &[u8]) -> (r: Option<Self>) {
        let blen: usize = b.len();
        proof {
            lemma_module_stream_parts();
        }
        let r0 = dv_u128(b, 0);
        match r0 {
            Some((id, p1)) => {
            let r1 = dv_u128(b, p1);
            match r1 {
                Some((module_id, p2)) => {
                let r2 = dv_str(b, p2);
                match r2 {
                    Some((name, p3)) => {
                    let r3 = dv_u64(b, p3);
                    match r3 {
                        Some((version, p4)) => {
                        let r4 = dv_str(b, p4);
                        match r4 {
                            Some((context, p5)) => {
                            let r5 = dv_bool(b, p5);
                            match r5 {
                                Some((default, p6)) => {
                                if p6 == blen {
                                    let v = ModuleStream { id: Uuid(id), attrs: StreamAttrs { module_id: Uuid(module_id), name, version, context }, default };
                                    proof {
                                        lemma_subrange_join(b@, 0, p1 as int, p2 as int);
                                        lemma_subrange_join(b@, 0, p2 as int, p3 as int);
                                        lemma_subrange_join(b@, 0, p3 as int, p4 as int);
                                        lemma_subrange_join(b@, 0, p4 as int, p5 as int);
                                        lemma_subrange_join(b@, 0, p5 as int, p6 as int);
                                        assert(b@.subrange(0, p6 as int) =~= b@);
                                        assert(Self::enc_val_spec(v@) == b@);
                                    }
                                    Some(v)
                                } else {
                                    proof {
                                        assert forall|m: <Self as View>::V| Self::enc_val_spec(m) == b@ implies false by {
                                            module_stream_dec_chain(m, b@);
                                        }
                                    }
                                    None
                                }
                                },
                                None => {
                                    proof {
                                        assert forall|m: <Self as View>::V| Self::enc_val_spec(m) == b@ implies false by {
                                            module_stream_dec_chain(m, b@);
                                        }
                                    }
                                    None
                                },
                            }
                            },
                            None => {
                                proof {
                                    assert forall|m: <Self as View>::V| Self::enc_val_spec(m) == b@ implies false by {
                                        module_stream_dec_chain(m, b@);
                                    }
                                }
                                None
                            },
                        }
                        },
                        None => {
                            proof {
                                assert forall|m: <Self as View>::V| Self::enc_val_spec(m) == b@ implies false by {
                                    module_stream_dec_chain(m, b@);
                                }
                            }
                            None
                        },
                    }
                    },
                    None => {
                        proof {
                            assert forall|m: <Self as View>::V| Self::enc_val_spec(m) == b@ implies false by {
                                module_stream_dec_chain(m, b@);
                            }
                        }
                        None
                    },
                }
                },
                None => {
                    proof {
                        assert forall|m: <Self as View>::V| Self::enc_val_spec(m) == b@ implies false by {
                            module_stream_dec_chain(m, b@);
                        }
                    }
                    None
                },
            }
            },
            None => {
                proof {
                    assert forall|m: <Self as View>::V| Self::enc_val_spec(m) == b@ implies false by {
                        module_stream_dec_chain(m, b@);
                    }
                }
                None
            },
        }
    }

    proof fn enc_val_injective(m1: <Self as View>::V, m2: <Self as View>::V) {
        lemma_module_stream_fields(m1, m2);
    }

    open spec fn index_names_spec() -> Seq<Seq<char>> {
        seq!["stream_attrs"@]
    }

    fn index_count() -> (r: usize) {
        proof {
            assert(Self::index_names_spec().len() == 1);
        }
        1
    }

    fn index_name(i: usize) -> (r: String) {
        String::from_str("stream_attrs")
    }

    open spec fn index_keys_spec(m: <Self as View>::V) -> Seq<Seq<u8>> {
        seq![stream_attrs_bytes((m.1, m.2, m.3, m.4))]
    }

    fn index_key(&self, i: usize) -> (r: Vec<u8>) {
        let mut out: Vec<u8> = Vec::new();
        enc_stream_attrs(&self.attrs, &mut out);
        proof {
            assert(out@ =~= stream_attrs_bytes((self@.1, self@.2, self@.3, self@.4)));
            assert(Self::index_keys_spec(self@)[i as int] == stream_attrs_bytes((self@.1, self@.2, self@.3, self@.4)));
        }
        out
    }

    proof fn index_arity(m: <Self as View>::V) {
        assert(Self::index_keys_spec(m).len() == 1);
        assert(Self::index_names_spec().len() == 1);
    }

    proof fn names_distinct() {
        assert("stream_attrs"@ != "module_stream"@) by {
            reveal_strlit("stream_attrs");
            reveal_strlit("module_stream");
            assert("stream_attrs"@.len() == 12);
            assert("module_stream"@.len() == 13);
        }
        assert(forall|i: int|
            0 <= i < Self::index_names_spec().len() ==> #[trigger] Self::index_names_spec()[i]
                == "stream_attrs"@);
    }

    open spec fn adopted_model(m: <Self as View>::V, donor: <Self as View>::V) -> <Self as View>::V {
        (donor.0, m.1, m.2, m.3, m.4, m.5)
    }

    fn adopt_key(&mut self, donor: &Self) {
        self.id = donor.id;
    }

    proof fn adopted_key_is(m: <Self as View>::V, donor: <Self as View>::V) {
    }
}

/// The right-associated decomposition of a package cross-reference row's encoding.
pub open spec fn pkg_repo_rest1(m: <PkgRepo as View>::V) -> Seq<u8> {
    vs_u128(m.1)
}

proof fn pkg_repo_parts_of(m: <PkgRepo as View>::V)
    ensures
        <PkgRepo as Table>::enc_val_spec(m) == vs_u128(m.0) + pkg_repo_rest1(m),
{
    assert(<PkgRepo as Table>::enc_val_spec(m) =~= vs_u128(m.0) + pkg_repo_rest1(m));
}

proof fn lemma_pkg_repo_parts()
    ensures
        forall|m: <PkgRepo as View>::V|
            #[trigger] <PkgRepo as Table>::enc_val_spec(m) == vs_u128(m.0) + pkg_repo_rest1(m),
{
    assert forall|m: <PkgRepo as View>::V|
        #[trigger] <PkgRepo as Table>::enc_val_spec(m) == vs_u128(m.0) + pkg_repo_rest1(m) by {
        pkg_repo_parts_of(m);
    }
}

/// Walk the decomposition of a valid encoding field by field.
proof fn pkg_repo_dec_chain(m: <PkgRepo as View>::V, b: Seq<u8>)
    requires
        <PkgRepo as Table>::enc_val_spec(m) == b,
    ensures
        b.skip(0) == vs_u128(m.0) + (vs_u128(m.1)),
        b.skip(16 as int) == vs_u128(m.1) + (Seq::<u8>::empty()),
        b.len() == 16 + 16,
{
    pkg_repo_parts_of(m);
    assert(b.skip(0) =~= b);
    lemma_pow256_vals();
    lemma_be_bytes_len((m.0) as nat, 16);
    lemma_be_bytes_len((m.1) as nat, 16);
    lemma_concat_split(vs_u128(m.0), vs_u128(m.1));
    assert(b.skip(0).skip((16) as int) =~= b.skip(16 as int));
    assert(vs_u128(m.1) + Seq::<u8>::empty() =~= vs_u128(m.1));
}

/// Equal encodings denote equal package cross-reference rows.
proof fn lemma_pkg_repo_fields(m1: <PkgRepo as View>::V, m2: <PkgRepo as View>::V)
    requires
        <PkgRepo as Table>::enc_val_spec(m1) == <PkgRepo as Table>::enc_val_spec(m2),
        <PkgRepo as Table>::enc_val_spec(m1).len() <= usize::MAX,
    ensures
        m1 == m2,
{
    let b = <PkgRepo as Table>::enc_val_spec(m1);
    pkg_repo_dec_chain(m1, b);
    pkg_repo_dec_chain(m2, b);
    lemma_vs_u128_eq(m1.0, m2.0, vs_u128(m1.1), vs_u128(m2.1));
    lemma_vs_u128_eq(m1.1, m2.1, Seq::<u8>::empty(), Seq::<u8>::empty());
}

impl Table for PkgRepo {
    type Key = PkgRepoId;

    open spec fn table_name() -> Seq<char> {
        "pkg_repo"@
    }

    fn name() -> (r: String) {
        String::from_str("pkg_repo")
    }

    open spec fn enc_key_spec(km: <PkgRepoId as View>::V) -> Seq<u8> {
        id_pair_bytes(km)
    }

    fn enc_key(k: &PkgRepoId) -> (r: Vec<u8>) {
        let mut out: Vec<u8> = Vec::new();
        ke_u128(k.pkg_id.0, &mut out);
        ke_u128(k.repo_id.0, &mut out);
        proof {
            assert(out@ =~= id_pair_bytes(k@));
        }
        out
    }

    proof fn enc_key_injective(k1: <PkgRepoId as View>::V, k2: <PkgRepoId as View>::V) {
        lemma_id_pair_inj(k1, k2);
    }

    open spec fn row_key_model(m: <Self as View>::V) -> <PkgRepoId as View>::V {
        m
    }

    fn key_of(&self) -> (k: PkgRepoId) {
        self.0
    }

    open spec fn enc_val_spec(m: <Self as View>::V) -> Seq<u8> {
        vs_u128(m.0) + vs_u128(m.1)
    }

    fn enc_val(&self) -> (r: Vec<u8>) {
        let mut out: Vec<u8> = Vec::new();
        ve_u128(self.0.pkg_id.0, &mut out);
        ve_u128(self.0.repo_id.0, &mut out);
        proof {
            assert(out@ =~= Self::enc_val_spec(self@));
        }
        out
    }

    fn dec_val(b: &[u8]) -> (r: Option<Self>) {
        let blen: usize = b.len();
        proof {
            lemma_pkg_repo_parts();
        }
        let r0 = dv_u128(b, 0);
        match r0 {
            Some((pkg_id, p1)) => {
            let r1 = dv_u128(b, p1);
            match r1 {
                Some((repo_id, p2)) => {
                if p2 == blen {
                    let v = PkgRepo(PkgRepoId { pkg_id: Uuid(pkg_id), repo_id: Uuid(repo_id) });
                    proof {
                        lemma_subrange_join(b@, 0, p1 as int, p2 as int);
                        assert(b@.subrange(0, p2 as int) =~= b@);
                        assert(Self::enc_val_spec(v@) == b@);
                    }
                    Some(v)
                } else {
                    proof {
                        assert forall|m: <Self as View>::V| Self::enc_val_spec(m) == b@ implies false by {
                            pkg_repo_dec_chain(m, b@);
                        }
                    }
                    None
                }
                },
                None => {
                    proof {
                        assert forall|m: <Self as View>::V| Self::enc_val_spec(m) == b@ implies false by {
                            pkg_repo_dec_chain(m, b@);
                        }
                    }
                    None
                },
            }
            },
            None => {
                proof {
                    assert forall|m: <Self as View>::V| Self::enc_val_spec(m) == b@ implies false by {
                        pkg_repo_dec_chain(m, b@);
                    }
                }
                None
            },
        }
    }

    proof fn enc_val_injective(m1: <Self as View>::V, m2: <Self as View>::V) {
        lemma_pkg_repo_fields(m1, m2);
    }

    open spec fn index_names_spec() -> Seq<Seq<char>> {
        Seq::<Seq<char>>::empty()
    }

    fn index_count() -> (r: usize) {
        proof {
            assert(Self::index_names_spec().len() == 0);
        }
        0
    }

    fn index_name(i: usize) -> (r: String) {
        unreached()
    }

    open spec fn index_keys_spec(m: <Self as View>::V) -> Seq<Seq<u8>> {
        Seq::<Seq<u8>>::empty()
    }

    fn index_key(&self, i: usize) -> (r: Vec<u8>) {
        unreached()
    }

    proof fn index_arity(m: <Self as View>::V) {
        assert(Self::index_keys_spec(m).len() == 0);
        assert(Self::index_names_spec().len() == 0);
    }

    proof fn names_distinct() {
        assert(Self::index_names_spec().len() == 0);
    }

    open spec fn adopted_model(m: <Self as View>::V, donor: <Self as View>::V) -> <Self as View>::V {
        donor
    }

    fn adopt_key(&mut self, donor: &Self) {
        self.0 = donor.0;
    }

    proof fn adopted_key_is(m: <Self as View>::V, donor: <Self as View>::V) {
    }
}

/// The right-associated decomposition of a advisory cross-reference row's encoding.
pub open spec fn advisory_repo_rest1(m: <AdvisoryRepo as View>::V) -> Seq<u8> {
    vs_u128(m.1)
}

proof fn advisory_repo_parts_of(m: <AdvisoryRepo as View>::V)
    ensures
        <AdvisoryRepo as Table>::enc_val_spec(m) == vs_u128(m.0) + advisory_repo_rest1(m),
{
    assert(<AdvisoryRepo as Table>::enc_val_spec(m) =~= vs_u128(m.0) + advisory_repo_rest1(m));
}

proof fn lemma_advisory_repo_parts()
    ensures
        forall|m: <AdvisoryRepo as View>::V|
            #[trigger] <AdvisoryRepo as Table>::enc_val_spec(m) == vs_u128(m.0) + advisory_repo_rest1(m),
{
    assert forall|m: <AdvisoryRepo as View>::V|
        #[trigger] <AdvisoryRepo as Table>::enc_val_spec(m) == vs_u128(m.0) + advisory_repo_rest1(m) by {
        advisory_repo_parts_of(m);
    }
}

/// Walk the decomposition of a valid encoding field by field.
proof fn advisory_repo_dec_chain(m: <AdvisoryRepo as View>::V, b: Seq<u8>)
    requires
        <AdvisoryRepo as Table>::enc_val_spec(m) == b,
    ensures
        b.skip(0) == vs_u128(m.0) + (vs_u128(m.1)),
        b.skip(16 as int) == vs_u128(m.1) + (Seq::<u8>::empty()),
        b.len() == 16 + 16,
{
    advisory_repo_parts_of(m);
    assert(b.skip(0) =~= b);
    lemma_pow256_vals();
    lemma_be_bytes_len((m.0) as nat, 16);
    lemma_be_bytes_len((m.1) as nat, 16);
    lemma_concat_split(vs_u128(m.0), vs_u128(m.1));
    assert(b.skip(0).skip((16) as int) =~= b.skip(16 as int));
    assert(vs_u128(m.1) + Seq::<u8>::empty() =~= vs_u128(m.1));
}

/// Equal encodings denote equal advisory cross-reference rows.
proof fn lemma_advisory_repo_fields(m1: <AdvisoryRepo as View>::V, m2: <AdvisoryRepo as View>::V)
    requires
        <AdvisoryRepo as Table>::enc_val_spec(m1) == <AdvisoryRepo as Table>::enc_val_spec(m2),
        <AdvisoryRepo as Table>::enc_val_spec(m1).len() <= usize::MAX,
    ensures
        m1 == m2,
{
    let b = <AdvisoryRepo as Table>::enc_val_spec(m1);
    advisory_repo_dec_chain(m1, b);
    advisory_repo_dec_chain(m2, b);
    lemma_vs_u128_eq(m1.0, m2.0, vs_u128(m1.1), vs_u128(m2.1));
    lemma_vs_u128_eq(m1.1, m2.1, Seq::<u8>::empty(), Seq::<u8>::empty());
}

impl Table for AdvisoryRepo {
    type Key = AdvisoryRepoId;

    open spec fn table_name() -> Seq<char> {
        "advisory_repo"@
    }

    fn name() -> (r: String) {
        String::from_str("advisory_repo")
    }

    open spec fn enc_key_spec(km: <AdvisoryRepoId as View>::V) -> Seq<u8> {
        id_pair_bytes(km)
    }

    fn enc_key(k: &AdvisoryRepoId) -> (r: Vec<u8>) {
        let mut out: Vec<u8> = Vec::new();
        ke_u128(k.adv_id.0, &mut out);
        ke_u128(k.repo_id.0, &mut out);
        proof {
            assert(out@ =~= id_pair_bytes(k@));
        }
        out
    }

    proof fn enc_key_injective(k1: <AdvisoryRepoId as View>::V, k2: <AdvisoryRepoId as View>::V) {
        lemma_id_pair_inj(k1, k2);
    }

    open spec fn row_key_model(m: <Self as View>::V) -> <AdvisoryRepoId as View>::V {
        m
    }

    fn key_of(&self) -> (k: AdvisoryRepoId) {
        self.0
    }

    open spec fn enc_val_spec(m: <Self as View>::V) -> Seq<u8> {
        vs_u128(m.0) + vs_u128(m.1)
    }

    fn enc_val(&self) -> (r: Vec<u8>) {
        let mut out: Vec<u8> = Vec::new();
        ve_u128(self.0.adv_id.0, &mut out);
        ve_u128(self.0.repo_id.0, &mut out);
        proof {
            assert(out@ =~= Self::enc_val_spec(self@));
        }
        out
    }

    fn dec_val(b: &[u8]) -> (r: Option<Self>) {
        let blen: usize = b.len();
        proof {
            lemma_advisory_repo_parts();
        }
        let r0 = dv_u128(b, 0);
        match r0 {
            Some((adv_id, p1)) => {
            let r1 = dv_u128(b, p1);
            match r1 {
                Some((repo_id, p2)) => {
                if p2 == blen {
                    let v = AdvisoryRepo(AdvisoryRepoId { adv_id: Uuid(adv_id), repo_id: Uuid(repo_id) });
                    proof {
                        lemma_subrange_join(b@, 0, p1 as int, p2 as int);
                        assert(b@.subrange(0, p2 as int) =~= b@);
                        assert(Self::enc_val_spec(v@) == b@);
                    }
                    Some(v)
                } else {
                    proof {
                        assert forall|m: <Self as View>::V| Self::enc_val_spec(m) == b@ implies false by {
                            advisory_repo_dec_chain(m, b@);
                        }
                    }
                    None
                }
                },
                None => {
                    proof {
                        assert forall|m: <Self as View>::V| Self::enc_val_spec(m) == b@ implies false by {
                            advisory_repo_dec_chain(m, b@);
                        }
                    }
                    None
                },
            }
            },
            None => {
                proof {
                    assert forall|m: <Self as View>::V| Self::enc_val_spec(m) == b@ implies false by {
                        advisory_repo_dec_chain(m, b@);
                    }
                }
                None
            },
        }
    }

    proof fn enc_val_injective(m1: <Self as View>::V, m2: <Self as View>::V) {
        lemma_advisory_repo_fields(m1, m2);
    }

    open spec fn index_names_spec() -> Seq<Seq<char>> {
        Seq::<Seq<char>>::empty()
    }

    fn index_count() -> (r: usize) {
        proof {
            assert(Self::index_names_spec().len() == 0);
        }
        0
    }

    fn index_name(i: usize) -> (r: String) {
        unreached()
    }

    open spec fn index_keys_spec(m: <Self as View>::V) -> Seq<Seq<u8>> {
        Seq::<Seq<u8>>::empty()
    }

    fn index_key(&self, i: usize) -> (r: Vec<u8>) {
        unreached()
    }

    proof fn index_arity(m: <Self as View>::V) {
        assert(Self::index_keys_spec(m).len() == 0);
        assert(Self::index_names_spec().len() == 0);
    }

    proof fn names_distinct() {
        assert(Self::index_names_spec().len() == 0);
    }

    open spec fn adopted_model(m: <Self as View>::V, donor: <Self as View>::V) -> <Self as View>::V {
        donor
    }

    fn adopt_key(&mut self, donor: &Self) {
        self.0 = donor.0;
    }

    proof fn adopted_key_is(m: <Self as View>::V, donor: <Self as View>::V) {
    }
}

/// The right-associated decomposition of a package-advisory cross-reference row's encoding.
pub open spec fn pkg_advisory_rest1(m: <PkgAdvisory as View>::V) -> Seq<u8> {
    vs_u128(m.1) + (vs_opt_u128(m.2))
}

proof fn pkg_advisory_parts_of(m: <PkgAdvisory as View>::V)
    ensures
        <PkgAdvisory as Table>::enc_val_spec(m) == vs_u128(m.0) + pkg_advisory_rest1(m),
{
    assert(<PkgAdvisory as Table>::enc_val_spec(m) =~= vs_u128(m.0) + pkg_advisory_rest1(m));
}

proof fn lemma_pkg_advisory_parts()
    ensures
        forall|m: <PkgAdvisory as View>::V|
            #[trigger] <PkgAdvisory as Table>::enc_val_spec(m) == vs_u128(m.0) + pkg_advisory_rest1(m),
{
    assert forall|m: <PkgAdvisory as View>::V|
        #[trigger] <PkgAdvisory as Table>::enc_val_spec(m) == vs_u128(m.0) + pkg_advisory_rest1(m) by {
        pkg_advisory_parts_of(m);
    }
}

/// Walk the decomposition of a valid encoding field by field.
proof fn pkg_advisory_dec_chain(m: <PkgAdvisory as View>::V, b: Seq<u8>)
    requires
        <PkgAdvisory as Table>::enc_val_spec(m) == b,
    ensures
        b.skip(0) == vs_u128(m.0) + (vs_u128(m.1) + (vs_opt_u128(m.2))),
        b.skip(16 as int) == vs_u128(m.1) + (vs_opt_u128(m.2)),
        b.skip(16 + 16 as int) == vs_opt_u128(m.2) + (Seq::<u8>::empty()),
        b.len() == 16 + 16 + vs_opt_u128(m.2).len(),
{
    pkg_advisory_parts_of(m);
    assert(b.skip(0) =~= b);
    lemma_pow256_vals();
    lemma_be_bytes_len((m.0) as nat, 16);
    lemma_be_bytes_len((m.1) as nat, 16);
    lemma_concat_split(vs_u128(m.0), vs_u128(m.1) + (vs_opt_u128(m.2)));
    assert(b.skip(0).skip((16) as int) =~= b.skip(16 as int));
    lemma_concat_split(vs_u128(m.1), vs_opt_u128(m.2));
    assert(b.skip(16 as int).skip((16) as int) =~= b.skip(16 + 16 as int));
    assert(vs_opt_u128(m.2) + Seq::<u8>::empty() =~= vs_opt_u128(m.2));
}

/// Equal encodings denote equal package-advisory cross-reference rows.
proof fn lemma_pkg_advisory_fields(m1: <PkgAdvisory as View>::V, m2: <PkgAdvisory as View>::V)
    requires
        <PkgAdvisory as Table>::enc_val_spec(m1) == <PkgAdvisory as Table>::enc_val_spec(m2),
        <PkgAdvisory as Table>::enc_val_spec(m1).len() <= usize::MAX,
    ensures
        m1 == m2,
{
    let b = <PkgAdvisory as Table>::enc_val_spec(m1);
    pkg_advisory_dec_chain(m1, b);
    pkg_advisory_dec_chain(m2, b);
    lemma_vs_u128_eq(m1.0, m2.0, vs_u128(m1.1) + (vs_opt_u128(m1.2)), vs_u128(m2.1) + (vs_opt_u128(m2.2)));
    lemma_vs_u128_eq(m1.1, m2.1, vs_opt_u128(m1.2), vs_opt_u128(m2.2));
    lemma_vs_opt_u128_eq(m1.2, m2.2, b.skip(16 + 16 as int));
}

impl Table for PkgAdvisory {
    type Key = PkgAdvisoryId;

    open spec fn table_name() -> Seq<char> {
        "pkg_advisory"@
    }

    fn name() -> (r: String) {
        String::from_str("pkg_advisory")
    }

    open spec fn enc_key_spec(km: <PkgAdvisoryId as View>::V) -> Seq<u8> {
        pkg_advisory_id_bytes(km)
    }

    fn enc_key(k: &PkgAdvisoryId) -> (r: Vec<u8>) {
        let mut out: Vec<u8> = Vec::new();
        ke_u128(k.pkg_id.0, &mut out);
        ke_u128(k.adv_id.0, &mut out);
        let st: Option<u128> = match k.stream_id {
            Some(u) => Some(u.0),
            None => None,
        };
        crate::keys::ke_opt_u128(&st, &mut out);
        proof {
            assert(out@ =~= pkg_advisory_id_bytes(k@));
        }
        out
    }

    proof fn enc_key_injective(k1: <PkgAdvisoryId as View>::V, k2: <PkgAdvisoryId as View>::V) {
        lemma_pkg_advisory_id_inj(k1, k2);
    }

    open spec fn row_key_model(m: <Self as View>::V) -> <PkgAdvisoryId as View>::V {
        m
    }

    fn key_of(&self) -> (k: PkgAdvisoryId) {
        self.0
    }

    open spec fn enc_val_spec(m: <Self as View>::V) -> Seq<u8> {
        vs_u128(m.0) + vs_u128(m.1) + vs_opt_u128(m.2)
    }

    fn enc_val(&self) -> (r: Vec<u8>) {
        let mut out: Vec<u8> = Vec::new();
        ve_u128(self.0.pkg_id.0, &mut out);
        ve_u128(self.0.adv_id.0, &mut out);
        let st: Option<u128> = match self.0.stream_id {
            Some(u) => Some(u.0),
            None => None,
        };
        crate::values::ve_opt_u128(&st, &mut out);
        proof {
            assert(out@ =~= Self::enc_val_spec(self@));
        }
        out
    }

    fn dec_val(b: &[u8]) -> (r: Option<Self>) {
        let blen: usize = b.len();
        proof {
            lemma_pkg_advisory_parts();
        }
        let r0 = dv_u128(b, 0);
        match r0 {
            Some((pkg_id, p1)) => {
            let r1 = dv_u128(b, p1);
            match r1 {
                Some((adv_id, p2)) => {
                let r2 = dv_opt_u128(b, p2);
                match r2 {
                    Some((stream, p3)) => {
                    if p3 == blen {
                        let v = PkgAdvisory(PkgAdvisoryId { pkg_id: Uuid(pkg_id), adv_id: Uuid(adv_id), stream_id: (match stream { Some(x) => Some(Uuid(x)), None => None }) });
                        proof {
                            lemma_subrange_join(b@, 0, p1 as int, p2 as int);
                            lemma_subrange_join(b@, 0, p2 as int, p3 as int);
                            assert(b@.subrange(0, p3 as int) =~= b@);
                            assert(Self::enc_val_spec(v@) == b@);
                        }
                        Some(v)
                    } else {
                        proof {
                            assert forall|m: <Self as View>::V| Self::enc_val_spec(m) == b@ implies false by {
                                pkg_advisory_dec_chain(m, b@);
                            }
                        }
                        None
                    }
                    },
                    None => {
                        proof {
                            assert forall|m: <Self as View>::V| Self::enc_val_spec(m) == b@ implies false by {
                                pkg_advisory_dec_chain(m, b@);
                            }
                        }
                        None
                    },
                }
                },
                None => {
                    proof {
                        assert forall|m: <Self as View>::V| Self::enc_val_spec(m) == b@ implies false by {
                            pkg_advisory_dec_chain(m, b@);
                        }
                    }
                    None
                },
            }
            },
            None => {
                proof {
                    assert forall|m: <Self as View>::V| Self::enc_val_spec(m) == b@ implies false by {
                        pkg_advisory_dec_chain(m, b@);
                    }
                }
                None
            },
        }
    }

    proof fn enc_val_injective(m1: <Self as View>::V, m2: <Self as View>::V) {
        lemma_pkg_advisory_fields(m1, m2);
    }

    open spec fn index_names_spec() -> Seq<Seq<char>> {
        Seq::<Seq<char>>::empty()
    }

    fn index_count() -> (r: usize) {
        proof {
            assert(Self::index_names_spec().len() == 0);
        }
        0
    }

    fn index_name(i: usize) -> (r: String) {
        unreached()
    }

    open spec fn index_keys_spec(m: <Self as View>::V) -> Seq<Seq<u8>> {
        Seq::<Seq<u8>>::empty()
    }

    fn index_key(&self, i: usize) -> (r: Vec<u8>) {
        unreached()
    }

    proof fn index_arity(m: <Self as View>::V) {
        assert(Self::index_keys_spec(m).len() == 0);
        assert(Self::index_names_spec().len() == 0);
    }

    proof fn names_distinct() {
        assert(Self::index_names_spec().len() == 0);
    }

    open spec fn adopted_model(m: <Self as View>::V, donor: <Self as View>::V) -> <Self as View>::V {
        donor
    }

    fn adopt_key(&mut self, donor: &Self) {
        self.0 = donor.0;
    }

    proof fn adopted_key_is(m: <Self as View>::V, donor: <Self as View>::V) {
    }
}

/// The right-associated decomposition of a label row's encoding.
pub open spec fn label_rest1(m: <Label as View>::V) -> Seq<u8> {
    Seq::<u8>::empty()
}

proof fn label_parts_of(m: <Label as View>::V)
    ensures
        <Label as Table>::enc_val_spec(m) == vs_str(m) + label_rest1(m),
{
    assert(<Label as Table>::enc_val_spec(m) =~= vs_str(m) + label_rest1(m));
}

proof fn lemma_label_parts()
    ensures
        forall|m: <Label as View>::V|
            #[trigger] <Label as Table>::enc_val_spec(m) == vs_str(m) + label_rest1(m),
{
    assert forall|m: <Label as View>::V|
        #[trigger] <Label as Table>::enc_val_spec(m) == vs_str(m) + label_rest1(m) by {
        label_parts_of(m);
    }
}

/// Walk the decomposition of a valid encoding field by field.
proof fn label_dec_chain(m: <Label as View>::V, b: Seq<u8>)
    requires
        <Label as Table>::enc_val_spec(m) == b,
    ensures
        b.skip(0) == vs_str(m) + (Seq::<u8>::empty()),
        b.len() == vs_str(m).len(),
{
    label_parts_of(m);
    assert(b.skip(0) =~= b);
    lemma_pow256_vals();
    assert(vs_str(m) + Seq::<u8>::empty() =~= vs_str(m));
}

/// Equal encodings denote equal label rows.
proof fn lemma_label_fields(m1: <Label as View>::V, m2: <Label as View>::V)
    requires
        <Label as Table>::enc_val_spec(m1) == <Label as Table>::enc_val_spec(m2),
        <Label as Table>::enc_val_spec(m1).len() <= usize::MAX,
    ensures
        m1 == m2,
{
    let b = <Label as Table>::enc_val_spec(m1);
    label_dec_chain(m1, b);
    label_dec_chain(m2, b);
    lemma_vs_str_eq(m1, m2, b.skip(0));
}

impl Table for Label {
    type Key = String;

    open spec fn table_name() -> Seq<char> {
        "label"@
    }

    fn name() -> (r: String) {
        String::from_str("label")
    }

    open spec fn enc_key_spec(km: <String as View>::V) -> Seq<u8> {
        ks_str_raw(km)
    }

    fn enc_key(k: &String) -> (r: Vec<u8>) {
        let mut out: Vec<u8> = Vec::new();
        ke_str_raw(k.as_str(), &mut out);
        proof {
            assert(out@ =~= ks_str_raw(k@));
        }
        out
    }

    proof fn enc_key_injective(k1: <String as View>::V, k2: <String as View>::V) {
        lemma_ks_raw_total(k1, k2);
    }

    open spec fn row_key_model(m: <Self as View>::V) -> <String as View>::V {
        m
    }

    fn key_of(&self) -> (k: String) {
        self.0.clone()
    }

    open spec fn enc_val_spec(m: <Self as View>::V) -> Seq<u8> {
        vs_str(m)
    }

    fn enc_val(&self) -> (r: Vec<u8>) {
        let mut out: Vec<u8> = Vec::new();
        ve_str(self.0.as_str(), &mut out);
        proof {
            assert(out@ =~= Self::enc_val_spec(self@));
        }
        out
    }

    fn dec_val(b: &[u8]) -> (r: Option<Self>) {
        let blen: usize = b.len();
        proof {
            lemma_label_parts();
        }
        let r0 = dv_str(b, 0);
        match r0 {
            Some((text, p1)) => {
            if p1 == blen {
                let v = Label(text);
                proof {
                    assert(b@.subrange(0, p1 as int) =~= b@);
                    assert(Self::enc_val_spec(v@) == b@);
                }
                Some(v)
            } else {
                proof {
                    assert forall|m: <Self as View>::V| Self::enc_val_spec(m) == b@ implies false by {
                        label_dec_chain(m, b@);
                    }
                }
                None
            }
            },
            None => {
                proof {
                    assert forall|m: <Self as View>::V| Self::enc_val_spec(m) == b@ implies false by {
                        label_dec_chain(m, b@);
                    }
                }
                None
            },
        }
    }

    proof fn enc_val_injective(m1: <Self as View>::V, m2: <Self as View>::V) {
        lemma_label_fields(m1, m2);
    }

    open spec fn index_names_spec() -> Seq<Seq<char>> {
        Seq::<Seq<char>>::empty()
    }

    fn index_count() -> (r: usize) {
        proof {
            assert(Self::index_names_spec().len() == 0);
        }
        0
    }

    fn index_name(i: usize) -> (r: String) {
        unreached()
    }

    open spec fn index_keys_spec(m: <Self as View>::V) -> Seq<Seq<u8>> {
        Seq::<Seq<u8>>::empty()
    }

    fn index_key(&self, i: usize) -> (r: Vec<u8>) {
        unreached()
    }

    proof fn index_arity(m: <Self as View>::V) {
        assert(Self::index_keys_spec(m).len() == 0);
        assert(Self::index_names_spec().len() == 0);
    }

    proof fn names_distinct() {
        assert(Self::index_names_spec().len() == 0);
    }

    open spec fn adopted_model(m: <Self as View>::V, donor: <Self as View>::V) -> <Self as View>::V {
        donor
    }

    fn adopt_key(&mut self, donor: &Self) {
        self.0 = donor.0.clone();
    }

    proof fn adopted_key_is(m: <Self as View>::V, donor: <Self as View>::V) {
    }
}

/// The index of advisories by name: their natural key.
pub struct AdvisoryNameIdx {}

impl Index for AdvisoryNameIdx {
    type Owner = Advisory;

    type Key = String;

    open spec fn index_name() -> Seq<char> {
        "advisory_name"@
    }

    fn name() -> (r: String) {
        String::from_str("advisory_name")
    }

    open spec fn slot() -> int {
        0
    }

    fn slot_exec() -> (r: usize) {
        0
    }

    open spec fn enc_ikey_spec(km: Seq<char>) -> Seq<u8> {
        ks_str_raw(km)
    }

    fn enc_ikey(k: &String) -> (r: Vec<u8>) {
        let mut out: Vec<u8> = Vec::new();
        ke_str_raw(k.as_str(), &mut out);
        proof {
            assert(out@ =~= ks_str_raw(k@));
        }
        out
    }

    open spec fn proj_model(m: <Advisory as View>::V) -> Seq<char> {
        m.2
    }

    proof fn index_laws() {
        assert(<Advisory as Table>::index_names_spec()[0] == "advisory_name"@);
        assert(forall|m: <Advisory as View>::V|
            #[trigger] <Advisory as Table>::index_keys_spec(m)[0] == ks_str_raw(m.2));
    }
}

/// The index of modules by their natural attributes.
pub struct ModuleAttrsIdx {}

impl Index for ModuleAttrsIdx {
    type Owner = Module;

    type Key = ModuleAttrs;

    open spec fn index_name() -> Seq<char> {
        "module_attrs"@
    }

    fn name() -> (r: String) {
        String::from_str("module_attrs")
    }

    open spec fn slot() -> int {
        0
    }

    fn slot_exec() -> (r: usize) {
        0
    }

    open spec fn enc_ikey_spec(km: <ModuleAttrs as View>::V) -> Seq<u8> {
        module_attrs_bytes(km)
    }

    fn enc_ikey(k: &ModuleAttrs) -> (r: Vec<u8>) {
        let mut out: Vec<u8> = Vec::new();
        enc_module_attrs(k, &mut out);
        proof {
            assert(out@ =~= module_attrs_bytes(k@));
        }
        out
    }

    open spec fn proj_model(m: <Module as View>::V) -> <ModuleAttrs as View>::V {
        (m.1, m.2, m.3)
    }

    proof fn index_laws() {
        assert(<Module as Table>::index_names_spec()[0] == "module_attrs"@);
        assert(forall|m: <Module as View>::V|
            #[trigger] <Module as Table>::index_keys_spec(m)[0] == module_attrs_bytes(
                (m.1, m.2, m.3),
            ));
    }
}

/// The index of module streams by their natural attributes.
pub struct StreamAttrsIdx {}

impl Index for StreamAttrsIdx {
    type Owner = ModuleStream;

    type Key = StreamAttrs;

    open spec fn index_name() -> Seq<char> {
        "stream_attrs"@
    }

    fn name() -> (r: String) {
        String::from_str("stream_attrs")
    }

    open spec fn slot() -> int {
        0
    }

    fn slot_exec() -> (r: usize) {
        0
    }

    open spec fn enc_ikey_spec(km: <StreamAttrs as View>::V) -> Seq<u8> {
        stream_attrs_bytes(km)
    }

    fn enc_ikey(k: &StreamAttrs) -> (r: Vec<u8>) {
        let mut out: Vec<u8> = Vec::new();
        enc_stream_attrs(k, &mut out);
        proof {
            assert(out@ =~= stream_attrs_bytes(k@));
        }
        out
    }

    open spec fn proj_model(m: <ModuleStream as View>::V) -> <StreamAttrs as View>::V {
        (m.1, m.2, m.3, m.4)
    }

    proof fn index_laws() {
        assert(<ModuleStream as Table>::index_names_spec()[0] == "stream_attrs"@);
        assert(forall|m: <ModuleStream as View>::V|
            #[trigger] <ModuleStream as Table>::index_keys_spec(m)[0] == stream_attrs_bytes(
                (m.1, m.2, m.3, m.4),
            ));
    }
}

/// The smallest example table: a pair of machine words keyed on the first
/// field, with no indices.
#[derive(Clone, Copy, Debug, PartialEq, Eq, Hash, Structural)]
pub struct Item(pub usize, pub usize);

impl View for Item {
    type V = (usize, usize);

    open spec fn view(&self) -> (usize, usize) {
        (self.0, self.1)
    }
}

impl Table for Item {
    type Key = usize;

    open spec fn table_name() -> Seq<char> {
        "item"@
    }

    fn name() -> (r: String) {
        String::from_str("item")
    }

    open spec fn enc_key_spec(km: usize) -> Seq<u8> {
        be_bytes(km as nat, 8)
    }

    fn enc_key(k: &usize) -> (r: Vec<u8>) {
        proof {
            lemma_pow256_vals();
        }
        let mut out: Vec<u8> = Vec::new();
        crate::keys::ke_u64(*k as u64, &mut out);
        proof {
            assert(out@ =~= be_bytes(*k as nat, 8));
        }
        out
    }

    proof fn enc_key_injective(k1: usize, k2: usize) {
        lemma_pow256_vals();
        lemma_ks_fixed_injective(k1 as nat, k2 as nat, 8);
    }

    open spec fn row_key_model(m: (usize, usize)) -> usize {
        m.0
    }

    fn key_of(&self) -> (k: usize) {
        self.0
    }

    open spec fn enc_val_spec(m: (usize, usize)) -> Seq<u8> {
        crate::values::vs_u64(m.0 as u64) + crate::values::vs_u64(m.1 as u64)
    }

    fn enc_val(&self) -> (r: Vec<u8>) {
        let mut out: Vec<u8> = Vec::new();
        crate::values::ve_u64(self.0 as u64, &mut out);
        crate::values::ve_u64(self.1 as u64, &mut out);
        proof {
            assert(out@ =~= Self::enc_val_spec(self@));
        }
        out
    }

    fn dec_val(b: &[u8]) -> (r: Option<Self>) {
        let blen: usize = b.len();
        proof {
            lemma_item_parts();
        }
        let r0 = dv_u64(b, 0);
        match r0 {
            Some((x0, p1)) => {
                let r1 = dv_u64(b, p1);
                match r1 {
                    Some((x1, p2)) => {
                        if p2 == blen && x0 <= usize::MAX as u64 && x1 <= usize::MAX as u64 {
                            let v = Item(x0 as usize, x1 as usize);
                            proof {
                                lemma_subrange_join(b@, 0, p1 as int, p2 as int);
                                assert(b@.subrange(0, p2 as int) =~= b@);
                                assert(Self::enc_val_spec(v@) == b@);
                            }
                            Some(v)
                        } else {
                            proof {
                                assert forall|m: (usize, usize)|
                                    Self::enc_val_spec(m) == b@ implies false by {
                                    item_dec_chain(m, b@);
                                }
                            }
                            None
                        }
                    },
                    None => {
                        proof {
                            assert forall|m: (usize, usize)|
                                Self::enc_val_spec(m) == b@ implies false by {
                                item_dec_chain(m, b@);
                            }
                        }
                        None
                    },
                }
            },
            None => {
                proof {
                    assert forall|m: (usize, usize)| Self::enc_val_spec(m) == b@ implies false by {
                        item_dec_chain(m, b@);
                    }
                }
                None
            },
        }
    }

    proof fn enc_val_injective(m1: (usize, usize), m2: (usize, usize)) {
        let b = Self::enc_val_spec(m1);
        item_dec_chain(m1, b);
        item_dec_chain(m2, b);
        lemma_vs_u64_eq(
            m1.0 as u64,
            m2.0 as u64,
            crate::values::vs_u64(m1.1 as u64),
            crate::values::vs_u64(m2.1 as u64),
        );
        lemma_vs_u64_eq(m1.1 as u64, m2.1 as u64, Seq::<u8>::empty(), Seq::<u8>::empty());
    }

    open spec fn index_names_spec() -> Seq<Seq<char>> {
        Seq::<Seq<char>>::empty()
    }

    fn index_count() -> (r: usize) {
        proof {
            assert(Self::index_names_spec().len() == 0);
        }
        0
    }

    fn index_name(i: usize) -> (r: String) {
        unreached()
    }

    open spec fn index_keys_spec(m: (usize, usize)) -> Seq<Seq<u8>> {
        Seq::<Seq<u8>>::empty()
    }

    fn index_key(&self, i: usize) -> (r: Vec<u8>) {
        unreached()
    }

    proof fn index_arity(m: (usize, usize)) {
        assert(Self::index_keys_spec(m).len() == 0);
        assert(Self::index_names_spec().len() == 0);
    }

    proof fn names_distinct() {
        assert(Self::index_names_spec().len() == 0);
    }

    open spec fn adopted_model(m: (usize, usize), donor: (usize, usize)) -> (usize, usize) {
        (donor.0, m.1)
    }

    fn adopt_key(&mut self, donor: &Self) {
        self.0 = donor.0;
    }

    proof fn adopted_key_is(m: (usize, usize), donor: (usize, usize)) {
    }
}

proof fn lemma_item_parts()
    ensures
        forall|m: (usize, usize)|
            #[trigger] <Item as Table>::enc_val_spec(m) == crate::values::vs_u64(m.0 as u64)
                + crate::values::vs_u64(m.1 as u64),
{
}

/// Walk the decomposition of a valid item encoding.
proof fn item_dec_chain(m: (usize, usize), b: Seq<u8>)
    requires
        <Item as Table>::enc_val_spec(m) == b,
    ensures
        b.skip(0) == crate::values::vs_u64(m.0 as u64) + (crate::values::vs_u64(m.1 as u64)),
        b.skip(8) == crate::values::vs_u64(m.1 as u64) + Seq::<u8>::empty(),
        b.len() == 16,
        (m.0 as u64) <= usize::MAX as u64,
        (m.1 as u64) <= usize::MAX as u64,
{
    assert(b.skip(0) =~= b);
    lemma_pow256_vals();
    lemma_be_bytes_len(m.0 as nat, 8);
    lemma_be_bytes_len(m.1 as nat, 8);
    lemma_concat_split(crate::values::vs_u64(m.0 as u64), crate::values::vs_u64(m.1 as u64));
    assert(crate::values::vs_u64(m.1 as u64) + Seq::<u8>::empty() =~= crate::values::vs_u64(
        m.1 as u64,
    ));
}

/// The semantic order of NEVRAs: by name, then epoch, then version,
/// release and architecture; strings compare by their UTF-8 bytes.
pub open spec fn nevra_lt(
    a: (Seq<char>, u32, Seq<char>, Seq<char>, Seq<char>),
    b: (Seq<char>, u32, Seq<char>, Seq<char>, Seq<char>),
) -> bool {
    let an = encode_utf8(a.0);
    let bn = encode_utf8(b.0);
    ||| crate::lex::lex_lt(an, bn)
    ||| (a.0 == b.0 && a.1 < b.1)
    ||| (a.0 == b.0 && a.1 == b.1 && crate::lex::lex_lt(encode_utf8(a.2), encode_utf8(b.2)))
    ||| (a.0 == b.0 && a.1 == b.1 && a.2 == b.2 && crate::lex::lex_lt(
        encode_utf8(a.3),
        encode_utf8(b.3),
    ))
    ||| (a.0 == b.0 && a.1 == b.1 && a.2 == b.2 && a.3 == b.3 && crate::lex::lex_lt(
        encode_utf8(a.4),
        encode_utf8(b.4),
    ))
}

/// A smaller NEVRA encodes to a lexicographically smaller key.
pub proof fn lemma_nevra_lt_bytes(
    a: (Seq<char>, u32, Seq<char>, Seq<char>, Seq<char>),
    b: (Seq<char>, u32, Seq<char>, Seq<char>, Seq<char>),
)
    requires
        nevra_lt(a, b),
    ensures
        crate::lex::lex_lt(nevra_bytes(a), nevra_bytes(b)),
{
    lemma_pow256_vals();
    let ra = crate::keys::ks_u32(a.1) + (crate::keys::ks_str_term(a.2) + (crate::keys::ks_str_term(
        a.3,
    ) + ks_str_raw(a.4)));
    let rb = crate::keys::ks_u32(b.1) + (crate::keys::ks_str_term(b.2) + (crate::keys::ks_str_term(
        b.3,
    ) + ks_str_raw(b.4)));
    assert(nevra_bytes(a) =~= crate::keys::ks_str_term(a.0) + ra);
    assert(nevra_bytes(b) =~= crate::keys::ks_str_term(b.0) + rb);
    if crate::lex::lex_lt(encode_utf8(a.0), encode_utf8(b.0)) {
        crate::codec::lemma_term_order(encode_utf8(a.0), encode_utf8(b.0), ra, rb);
    } else {
        assert(a.0 == b.0);
        lemma_be_bytes_len(a.1 as nat, 4);
        lemma_be_bytes_len(b.1 as nat, 4);
        let ra2 = crate::keys::ks_str_term(a.2) + (crate::keys::ks_str_term(a.3) + ks_str_raw(a.4));
        let rb2 = crate::keys::ks_str_term(b.2) + (crate::keys::ks_str_term(b.3) + ks_str_raw(b.4));
        if a.1 < b.1 {
            crate::codec::lemma_be_order(a.1 as nat, b.1 as nat, 4);
            crate::codec::lemma_lex_append_lt(
                crate::keys::ks_u32(a.1),
                crate::keys::ks_u32(b.1),
                ra2,
                rb2,
            );
            assert(crate::lex::lex_lt(ra, rb));
        } else {
            assert(a.1 == b.1);
            let ra3 = crate::keys::ks_str_term(a.3) + ks_str_raw(a.4);
            let rb3 = crate::keys::ks_str_term(b.3) + ks_str_raw(b.4);
            if crate::lex::lex_lt(encode_utf8(a.2), encode_utf8(b.2)) {
                crate::codec::lemma_term_order(encode_utf8(a.2), encode_utf8(b.2), ra3, rb3);
                assert(crate::lex::lex_lt(ra2, rb2));
            } else {
                assert(a.2 == b.2);
                if crate::lex::lex_lt(encode_utf8(a.3), encode_utf8(b.3)) {
                    crate::codec::lemma_term_order(
                        encode_utf8(a.3),
                        encode_utf8(b.3),
                        ks_str_raw(a.4),
                        ks_str_raw(b.4),
                    );
                    assert(crate::lex::lex_lt(ra3, rb3));
                } else {
                    assert(a.3 == b.3);
                    assert(crate::lex::lex_lt(ks_str_raw(a.4), ks_str_raw(b.4)));
                    crate::lex::lemma_lex_prepend(
                        crate::keys::ks_str_term(a.3),
                        ks_str_raw(a.4),
                        ks_str_raw(b.4),
                    );
                    assert(crate::lex::lex_lt(ra3, rb3));
                }
                crate::lex::lemma_lex_prepend(crate::keys::ks_str_term(a.2), ra3, rb3);
                assert(crate::lex::lex_lt(ra2, rb2));
            }
            crate::lex::lemma_lex_prepend(crate::keys::ks_u32(a.1), ra2, rb2);
            assert(crate::lex::lex_lt(ra, rb));
        }
        crate::lex::lemma_lex_prepend(crate::keys::ks_str_term(a.0), ra, rb);
        assert(crate::lex::lex_lt(nevra_bytes(a), nevra_bytes(b)));
    }
}

/// NEVRAs order exactly as their encoded keys do: the encoding preserves
/// and reflects the semantic order.
pub proof fn lemma_nevra_order(
    a: (Seq<char>, u32, Seq<char>, Seq<char>, Seq<char>),
    b: (Seq<char>, u32, Seq<char>, Seq<char>, Seq<char>),
)
    ensures
        nevra_lt(a, b) <==> crate::lex::lex_lt(nevra_bytes(a), nevra_bytes(b)),
{
    if nevra_lt(a, b) {
        lemma_nevra_lt_bytes(a, b);
    } else if nevra_lt(b, a) {
        lemma_nevra_lt_bytes(b, a);
        crate::lex::lemma_lex_asym(nevra_bytes(b), nevra_bytes(a));
    } else {
        // neither is smaller: the fields agree, so the encodings agree
        assert(a.0 == b.0) by {
            if a.0 != b.0 {
                if encode_utf8(a.0) == encode_utf8(b.0) {
                    encode_utf8_decode_utf8(a.0);
                    encode_utf8_decode_utf8(b.0);
                } else {
                    crate::lex::lemma_lex_total(encode_utf8(a.0), encode_utf8(b.0));
                }
            }
        }
        assert(a.1 == b.1);
        assert(a.2 == b.2) by {
            if a.2 != b.2 {
                if encode_utf8(a.2) == encode_utf8(b.2) {
                    encode_utf8_decode_utf8(a.2);
                    encode_utf8_decode_utf8(b.2);
                } else {
                    crate::lex::lemma_lex_total(encode_utf8(a.2), encode_utf8(b.2));
                }
            }
        }
        assert(a.3 == b.3) by {
            if a.3 != b.3 {
                if encode_utf8(a.3) == encode_utf8(b.3) {
                    encode_utf8_decode_utf8(a.3);
                    encode_utf8_decode_utf8(b.3);
                } else {
                    crate::lex::lemma_lex_total(encode_utf8(a.3), encode_utf8(b.3));
                }
            }
        }
        assert(a.4 == b.4) by {
            if a.4 != b.4 {
                if encode_utf8(a.4) == encode_utf8(b.4) {
                    encode_utf8_decode_utf8(a.4);
                    encode_utf8_decode_utf8(b.4);
                } else {
                    crate::lex::lemma_lex_total(encode_utf8(a.4), encode_utf8(b.4));
                }
            }
        }
        assert(nevra_bytes(a) == nevra_bytes(b));
        if crate::lex::lex_lt(nevra_bytes(a), nevra_bytes(b)) {
            crate::lex::lemma_lex_asym(nevra_bytes(a), nevra_bytes(b));
        }
    }
}

/// The semantic order of id pairs: by first id, then second.
pub open spec fn id_pair_lt(a: (u128, u128), b: (u128, u128)) -> bool {
    a.0 < b.0 || (a.0 == b.0 && a.1 < b.1)
}

/// Id pairs order exactly as their encoded keys do.
pub proof fn lemma_id_pair_order(a: (u128, u128), b: (u128, u128))
    ensures
        id_pair_lt(a, b) <==> crate::lex::lex_lt(id_pair_bytes(a), id_pair_bytes(b)),
{
    lemma_pow256_vals();
    lemma_be_bytes_len(a.0 as nat, 16);
    lemma_be_bytes_len(b.0 as nat, 16);
    if id_pair_lt(a, b) {
        lemma_id_pair_order_fwd(a, b);
    } else if id_pair_lt(b, a) {
        lemma_id_pair_order_fwd(b, a);
        crate::lex::lemma_lex_asym(id_pair_bytes(b), id_pair_bytes(a));
    } else {
        assert(a == b);
        if crate::lex::lex_lt(id_pair_bytes(a), id_pair_bytes(b)) {
            crate::lex::lemma_lex_asym(id_pair_bytes(a), id_pair_bytes(b));
        }
    }
}

proof fn lemma_id_pair_order_fwd(a: (u128, u128), b: (u128, u128))
    requires
        id_pair_lt(a, b),
    ensures
        crate::lex::lex_lt(id_pair_bytes(a), id_pair_bytes(b)),
{
    lemma_pow256_vals();
    lemma_be_bytes_len(a.0 as nat, 16);
    lemma_be_bytes_len(b.0 as nat, 16);
    if a.0 < b.0 {
        crate::codec::lemma_be_order(a.0 as nat, b.0 as nat, 16);
        crate::codec::lemma_lex_append_lt(ks_u128(a.0), ks_u128(b.0), ks_u128(a.1), ks_u128(b.1));
    } else {
        crate::codec::lemma_be_order(a.1 as nat, b.1 as nat, 16);
        crate::lex::lemma_lex_prepend(ks_u128(a.0), ks_u128(a.1), ks_u128(b.1));
    }
}

/// The semantic order of package-advisory identities: by package id, then
/// advisory id, then stream id, an absent stream sorting first.
pub open spec fn pkg_advisory_id_lt(a: (u128, u128, Option<u128>), b: (u128, u128, Option<u128>)) -> bool {
    ||| a.0 < b.0
    ||| (a.0 == b.0 && a.1 < b.1)
    ||| (a.0 == b.0 && a.1 == b.1 && (match (a.2, b.2) {
        (None, Some(_)) => true,
        (Some(x), Some(y)) => x < y,
        _ => false,
    }))
}

/// Package-advisory identities order exactly as their encoded keys do.
pub proof fn lemma_pkg_advisory_id_order(
    a: (u128, u128, Option<u128>),
    b: (u128, u128, Option<u128>),
)
    ensures
        pkg_advisory_id_lt(a, b) <==> crate::lex::lex_lt(
            pkg_advisory_id_bytes(a),
            pkg_advisory_id_bytes(b),
        ),
{
    if pkg_advisory_id_lt(a, b) {
        lemma_pkg_advisory_fwd(a, b);
    } else if pkg_advisory_id_lt(b, a) {
        lemma_pkg_advisory_fwd(b, a);
        crate::lex::lemma_lex_asym(pkg_advisory_id_bytes(b), pkg_advisory_id_bytes(a));
    } else {
        assert(a == b);
        if crate::lex::lex_lt(pkg_advisory_id_bytes(a), pkg_advisory_id_bytes(b)) {
            crate::lex::lemma_lex_asym(pkg_advisory_id_bytes(a), pkg_advisory_id_bytes(b));
        }
    }
}

proof fn lemma_pkg_advisory_fwd(a: (u128, u128, Option<u128>), b: (u128, u128, Option<u128>))
    requires
        pkg_advisory_id_lt(a, b),
    ensures
        crate::lex::lex_lt(pkg_advisory_id_bytes(a), pkg_advisory_id_bytes(b)),
{
    lemma_pow256_vals();
    lemma_be_bytes_len(a.0 as nat, 16);
    lemma_be_bytes_len(b.0 as nat, 16);
    lemma_be_bytes_len(a.1 as nat, 16);
    lemma_be_bytes_len(b.1 as nat, 16);
    let ra = ks_u128(a.1) + crate::keys::ks_opt_u128(a.2);
    let rb = ks_u128(b.1) + crate::keys::ks_opt_u128(b.2);
    assert(pkg_advisory_id_bytes(a) =~= ks_u128(a.0) + ra);
    assert(pkg_advisory_id_bytes(b) =~= ks_u128(b.0) + rb);
    if a.0 < b.0 {
        crate::codec::lemma_be_order(a.0 as nat, b.0 as nat, 16);
        crate::codec::lemma_lex_append_lt(ks_u128(a.0), ks_u128(b.0), ra, rb);
    } else if a.1 < b.1 {
        crate::codec::lemma_be_order(a.1 as nat, b.1 as nat, 16);
        crate::codec::lemma_lex_append_lt(
            ks_u128(a.1),
            ks_u128(b.1),
            crate::keys::ks_opt_u128(a.2),
            crate::keys::ks_opt_u128(b.2),
        );
        crate::lex::lemma_lex_prepend(ks_u128(a.0), ra, rb);
    } else {
        assert(a.0 == b.0 && a.1 == b.1);
        let oa = crate::keys::ks_opt_u128(a.2);
        let ob = crate::keys::ks_opt_u128(b.2);
        assert(crate::lex::lex_lt(oa, ob)) by {
            match (a.2, b.2) {
                (None, Some(y)) => {
                    lemma_be_bytes_len(y as nat, 16);
                    crate::lex::lemma_lex_lt_from_diff(oa, ob, 0);
                },
                (Some(x), Some(y)) => {
                    lemma_be_bytes_len(x as nat, 16);
                    lemma_be_bytes_len(y as nat, 16);
                    crate::codec::lemma_be_order(x as nat, y as nat, 16);
                    assert(oa =~= seq![1u8] + be_bytes(x as nat, 16));
                    assert(ob =~= seq![1u8] + be_bytes(y as nat, 16));
                    crate::lex::lemma_lex_prepend(
                        seq![1u8],
                        be_bytes(x as nat, 16),
                        be_bytes(y as nat, 16),
                    );
                },
                _ => {
                    assert(false);
                },
            }
        }
        crate::lex::lemma_lex_prepend(ks_u128(a.0) + ks_u128(a.1), oa, ob);
        assert(ks_u128(a.0) + ra =~= (ks_u128(a.0) + ks_u128(a.1)) + oa);
        assert(ks_u128(b.0) + rb =~= (ks_u128(b.0) + ks_u128(b.1)) + ob);
    }
}

/// The semantic order of module attributes: by repository id, then name
/// bytes, then architecture bytes.
pub open spec fn module_attrs_lt(a: (u128, Seq<char>, Seq<char>), b: (u128, Seq<char>, Seq<char>)) -> bool {
    ||| a.0 < b.0
    ||| (a.0 == b.0 && crate::lex::lex_lt(encode_utf8(a.1), encode_utf8(b.1)))
    ||| (a.0 == b.0 && a.1 == b.1 && crate::lex::lex_lt(encode_utf8(a.2), encode_utf8(b.2)))
}

/// Module attributes order exactly as their encoded keys do.
pub proof fn lemma_module_attrs_order(a: (u128, Seq<char>, Seq<char>), b: (u128, Seq<char>, Seq<char>))
    ensures
        module_attrs_lt(a, b) <==> crate::lex::lex_lt(module_attrs_bytes(a), module_attrs_bytes(b)),
{
    if module_attrs_lt(a, b) {
        lemma_module_attrs_fwd(a, b);
    } else if module_attrs_lt(b, a) {
        lemma_module_attrs_fwd(b, a);
        crate::lex::lemma_lex_asym(module_attrs_bytes(b), module_attrs_bytes(a));
    } else {
        assert(a.0 == b.0);
        assert(a.1 == b.1) by {
            if a.1 != b.1 {
                if encode_utf8(a.1) == encode_utf8(b.1) {
                    encode_utf8_decode_utf8(a.1);
                    encode_utf8_decode_utf8(b.1);
                } else {
                    crate::lex::lemma_lex_total(encode_utf8(a.1), encode_utf8(b.1));
                }
            }
        }
        assert(a.2 == b.2) by {
            if a.2 != b.2 {
                if encode_utf8(a.2) == encode_utf8(b.2) {
                    encode_utf8_decode_utf8(a.2);
                    encode_utf8_decode_utf8(b.2);
                } else {
                    crate::lex::lemma_lex_total(encode_utf8(a.2), encode_utf8(b.2));
                }
            }
        }
        assert(module_attrs_bytes(a) == module_attrs_bytes(b));
        if crate::lex::lex_lt(module_attrs_bytes(a), module_attrs_bytes(b)) {
            crate::lex::lemma_lex_asym(module_attrs_bytes(a), module_attrs_bytes(b));
        }
    }
}

proof fn lemma_module_attrs_fwd(a: (u128, Seq<char>, Seq<char>), b: (u128, Seq<char>, Seq<char>))
    requires
        module_attrs_lt(a, b),
    ensures
        crate::lex::lex_lt(module_attrs_bytes(a), module_attrs_bytes(b)),
{
    lemma_pow256_vals();
    lemma_be_bytes_len(a.0 as nat, 16);
    lemma_be_bytes_len(b.0 as nat, 16);
    let ra = crate::keys::ks_str_term(a.1) + ks_str_raw(a.2);
    let rb = crate::keys::ks_str_term(b.1) + ks_str_raw(b.2);
    assert(module_attrs_bytes(a) =~= ks_u128(a.0) + ra);
    assert(module_attrs_bytes(b) =~= ks_u128(b.0) + rb);
    if a.0 < b.0 {
        crate::codec::lemma_be_order(a.0 as nat, b.0 as nat, 16);
        crate::codec::lemma_lex_append_lt(ks_u128(a.0), ks_u128(b.0), ra, rb);
    } else if crate::lex::lex_lt(encode_utf8(a.1), encode_utf8(b.1)) {
        crate::codec::lemma_term_order(
            encode_utf8(a.1),
            encode_utf8(b.1),
            ks_str_raw(a.2),
            ks_str_raw(b.2),
        );
        crate::lex::lemma_lex_prepend(ks_u128(a.0), ra, rb);
    } else {
        assert(a.1 == b.1);
        crate::lex::lemma_lex_prepend(crate::keys::ks_str_term(a.1), ks_str_raw(a.2), ks_str_raw(b.2));
        crate::lex::lemma_lex_prepend(ks_u128(a.0), ra, rb);
    }
}

/// The semantic order of stream attributes: by module id, then name bytes,
/// then version, then context bytes.
pub open spec fn stream_attrs_lt(
    a: (u128, Seq<char>, u64, Seq<char>),
    b: (u128, Seq<char>, u64, Seq<char>),
) -> bool {
    ||| a.0 < b.0
    ||| (a.0 == b.0 && crate::lex::lex_lt(encode_utf8(a.1), encode_utf8(b.1)))
    ||| (a.0 == b.0 && a.1 == b.1 && a.2 < b.2)
    ||| (a.0 == b.0 && a.1 == b.1 && a.2 == b.2 && crate::lex::lex_lt(
        encode_utf8(a.3),
        encode_utf8(b.3),
    ))
}

/// Stream attributes order exactly as their encoded keys do.
pub proof fn lemma_stream_attrs_order(
    a: (u128, Seq<char>, u64, Seq<char>),
    b: (u128, Seq<char>, u64, Seq<char>),
)
    ensures
        stream_attrs_lt(a, b) <==> crate::lex::lex_lt(stream_attrs_bytes(a), stream_attrs_bytes(b)),
{
    if stream_attrs_lt(a, b) {
        lemma_stream_attrs_fwd(a, b);
    } else if stream_attrs_lt(b, a) {
        lemma_stream_attrs_fwd(b, a);
        crate::lex::lemma_lex_asym(stream_attrs_bytes(b), stream_attrs_bytes(a));
    } else {
        assert(a.0 == b.0);
        assert(a.1 == b.1) by {
            if a.1 != b.1 {
                if encode_utf8(a.1) == encode_utf8(b.1) {
                    encode_utf8_decode_utf8(a.1);
                    encode_utf8_decode_utf8(b.1);
                } else {
                    crate::lex::lemma_lex_total(encode_utf8(a.1), encode_utf8(b.1));
                }
            }
        }
        assert(a.2 == b.2);
        assert(a.3 == b.3) by {
            if a.3 != b.3 {
                if encode_utf8(a.3) == encode_utf8(b.3) {
                    encode_utf8_decode_utf8(a.3);
                    encode_utf8_decode_utf8(b.3);
                } else {
                    crate::lex::lemma_lex_total(encode_utf8(a.3), encode_utf8(b.3));
                }
            }
        }
        assert(stream_attrs_bytes(a) == stream_attrs_bytes(b));
        if crate::lex::lex_lt(stream_attrs_bytes(a), stream_attrs_bytes(b)) {
            crate::lex::lemma_lex_asym(stream_attrs_bytes(a), stream_attrs_bytes(b));
        }
    }
}

proof fn lemma_stream_attrs_fwd(
    a: (u128, Seq<char>, u64, Seq<char>),
    b: (u128, Seq<char>, u64, Seq<char>),
)
    requires
        stream_attrs_lt(a, b),
    ensures
        crate::lex::lex_lt(stream_attrs_bytes(a), stream_attrs_bytes(b)),
{
    lemma_pow256_vals();
    lemma_be_bytes_len(a.0 as nat, 16);
    lemma_be_bytes_len(b.0 as nat, 16);
    lemma_be_bytes_len(a.2 as nat, 8);
    lemma_be_bytes_len(b.2 as nat, 8);
    let ra = crate::keys::ks_str_term(a.1) + (crate::keys::ks_u64(a.2) + ks_str_raw(a.3));
    let rb = crate::keys::ks_str_term(b.1) + (crate::keys::ks_u64(b.2) + ks_str_raw(b.3));
    assert(stream_attrs_bytes(a) =~= ks_u128(a.0) + ra);
    assert(stream_attrs_bytes(b) =~= ks_u128(b.0) + rb);
    if a.0 < b.0 {
        crate::codec::lemma_be_order(a.0 as nat, b.0 as nat, 16);
        crate::codec::lemma_lex_append_lt(ks_u128(a.0), ks_u128(b.0), ra, rb);
    } else if crate::lex::lex_lt(encode_utf8(a.1), encode_utf8(b.1)) {
        crate::codec::lemma_term_order(
            encode_utf8(a.1),
            encode_utf8(b.1),
            crate::keys::ks_u64(a.2) + ks_str_raw(a.3),
            crate::keys::ks_u64(b.2) + ks_str_raw(b.3),
        );
        crate::lex::lemma_lex_prepend(ks_u128(a.0), ra, rb);
    } else if a.2 < b.2 {
        assert(a.1 == b.1);
        crate::codec::lemma_be_order(a.2 as nat, b.2 as nat, 8);
        crate::codec::lemma_lex_append_lt(
            crate::keys::ks_u64(a.2),
            crate::keys::ks_u64(b.2),
            ks_str_raw(a.3),
            ks_str_raw(b.3),
        );
        crate::lex::lemma_lex_prepend(crate::keys::ks_str_term(a.1), crate::keys::ks_u64(a.2) + ks_str_raw(a.3), crate::keys::ks_u64(b.2) + ks_str_raw(b.3));
        crate::lex::lemma_lex_prepend(ks_u128(a.0), ra, rb);
    } else {
        assert(a.1 == b.1 && a.2 == b.2);
        crate::lex::lemma_lex_prepend(crate::keys::ks_u64(a.2), ks_str_raw(a.3), ks_str_raw(b.3));
        crate::lex::lemma_lex_prepend(crate::keys::ks_str_term(a.1), crate::keys::ks_u64(a.2) + ks_str_raw(a.3), crate::keys::ks_u64(b.2) + ks_str_raw(b.3));
        crate::lex::lemma_lex_prepend(ks_u128(a.0), ra, rb);
    }
}
} // verus!

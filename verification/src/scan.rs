//! The scanner logic: converting parsed documents into rows, flushing
//! batches into the store with index maintenance, and expanding the
//! repolist into concrete repositories.

use vstd::prelude::*;
use crate::data::{
    Repo,
    RepoUrl,
    Pkg,
    PkgNevraIdx,
    Nevra,
    Advisory,
    AdvisoryNameIdx,
    Module,
    ModuleAttrs,
    ModuleAttrsIdx,
    ModuleStream,
    StreamAttrs,
    StreamAttrsIdx,
    PkgRepo,
    PkgRepoId,
    AdvisoryRepo,
    AdvisoryRepoId,
    PkgAdvisory,
    PkgAdvisoryId,
    Uuid,
    opt_str_view,
    nevra_bytes,
};
use crate::store::{Database, Wtx, has_key, val_of};
use crate::table::{Table, Index, tbl, tbl_idx, table_registered, values_ok};
use crate::ops::{put_effect, touches};

verus! {

/// All table and index names of the domain catalog are pairwise distinct:
/// writing one sub-database never touches another.
pub proof fn lemma_catalog_names_distinct()
    ensures
        "repo"@ != "repo_url"@,
        "repo"@ != "pkg"@,
        "repo"@ != "pkg_nevra"@,
        "repo"@ != "advisory"@,
        "repo"@ != "advisory_name"@,
        "repo"@ != "module"@,
        "repo"@ != "module_attrs"@,
        "repo"@ != "module_stream"@,
        "repo"@ != "stream_attrs"@,
        "repo"@ != "pkg_repo"@,
        "repo"@ != "advisory_repo"@,
        "repo"@ != "pkg_advisory"@,
        "repo"@ != "item"@,
        "repo"@ != "label"@,
        "repo_url"@ != "pkg"@,
        "repo_url"@ != "pkg_nevra"@,
        "repo_url"@ != "advisory"@,
        "repo_url"@ != "advisory_name"@,
        "repo_url"@ != "module"@,
        "repo_url"@ != "module_attrs"@,
        "repo_url"@ != "module_stream"@,
        "repo_url"@ != "stream_attrs"@,
        "repo_url"@ != "pkg_repo"@,
        "repo_url"@ != "advisory_repo"@,
        "repo_url"@ != "pkg_advisory"@,
        "repo_url"@ != "item"@,
        "repo_url"@ != "label"@,
        "pkg"@ != "pkg_nevra"@,
        "pkg"@ != "advisory"@,
        "pkg"@ != "advisory_name"@,
        "pkg"@ != "module"@,
        "pkg"@ != "module_attrs"@,
        "pkg"@ != "module_stream"@,
        "pkg"@ != "stream_attrs"@,
        "pkg"@ != "pkg_repo"@,
        "pkg"@ != "advisory_repo"@,
        "pkg"@ != "pkg_advisory"@,
        "pkg"@ != "item"@,
        "pkg"@ != "label"@,
        "pkg_nevra"@ != "advisory"@,
        "pkg_nevra"@ != "advisory_name"@,
        "pkg_nevra"@ != "module"@,
        "pkg_nevra"@ != "module_attrs"@,
        "pkg_nevra"@ != "module_stream"@,
        "pkg_nevra"@ != "stream_attrs"@,
        "pkg_nevra"@ != "pkg_repo"@,
        "pkg_nevra"@ != "advisory_repo"@,
        "pkg_nevra"@ != "pkg_advisory"@,
        "pkg_nevra"@ != "item"@,
        "pkg_nevra"@ != "label"@,
        "advisory"@ != "advisory_name"@,
        "advisory"@ != "module"@,
        "advisory"@ != "module_attrs"@,
        "advisory"@ != "module_stream"@,
        "advisory"@ != "stream_attrs"@,
        "advisory"@ != "pkg_repo"@,
        "advisory"@ != "advisory_repo"@,
        "advisory"@ != "pkg_advisory"@,
        "advisory"@ != "item"@,
        "advisory"@ != "label"@,
        "advisory_name"@ != "module"@,
        "advisory_name"@ != "module_attrs"@,
        "advisory_name"@ != "module_stream"@,
        "advisory_name"@ != "stream_attrs"@,
        "advisory_name"@ != "pkg_repo"@,
        "advisory_name"@ != "advisory_repo"@,
        "advisory_name"@ != "pkg_advisory"@,
        "advisory_name"@ != "item"@,
        "advisory_name"@ != "label"@,
        "module"@ != "module_attrs"@,
        "module"@ != "module_stream"@,
        "module"@ != "stream_attrs"@,
        "module"@ != "pkg_repo"@,
        "module"@ != "advisory_repo"@,
        "module"@ != "pkg_advisory"@,
        "module"@ != "item"@,
        "module"@ != "label"@,
        "module_attrs"@ != "module_stream"@,
        "module_attrs"@ != "stream_attrs"@,
        "module_attrs"@ != "pkg_repo"@,
        "module_attrs"@ != "advisory_repo"@,
        "module_attrs"@ != "pkg_advisory"@,
        "module_attrs"@ != "item"@,
        "module_attrs"@ != "label"@,
        "module_stream"@ != "stream_attrs"@,
        "module_stream"@ != "pkg_repo"@,
        "module_stream"@ != "advisory_repo"@,
        "module_stream"@ != "pkg_advisory"@,
        "module_stream"@ != "item"@,
        "module_stream"@ != "label"@,
        "stream_attrs"@ != "pkg_repo"@,
        "stream_attrs"@ != "advisory_repo"@,
        "stream_attrs"@ != "pkg_advisory"@,
        "stream_attrs"@ != "item"@,
        "stream_attrs"@ != "label"@,
        "pkg_repo"@ != "advisory_repo"@,
        "pkg_repo"@ != "pkg_advisory"@,
        "pkg_repo"@ != "item"@,
        "pkg_repo"@ != "label"@,
        "advisory_repo"@ != "pkg_advisory"@,
        "advisory_repo"@ != "item"@,
        "advisory_repo"@ != "label"@,
        "pkg_advisory"@ != "item"@,
        "pkg_advisory"@ != "label"@,
        "item"@ != "label"@,
{
    reveal_strlit("repo");
    reveal_strlit("repo_url");
    reveal_strlit("pkg");
    reveal_strlit("pkg_nevra");
    reveal_strlit("advisory");
    reveal_strlit("advisory_name");
    reveal_strlit("module");
    reveal_strlit("module_attrs");
    reveal_strlit("module_stream");
    reveal_strlit("stream_attrs");
    reveal_strlit("pkg_repo");
    reveal_strlit("advisory_repo");
    reveal_strlit("pkg_advisory");
    reveal_strlit("item");
    reveal_strlit("label");
    assert("repo"@.len() == 4 && "repo_url"@.len() == 8);
    assert("repo"@.len() == 4 && "pkg"@.len() == 3);
    assert("repo"@.len() == 4 && "pkg_nevra"@.len() == 9);
    assert("repo"@.len() == 4 && "advisory"@.len() == 8);
    assert("repo"@.len() == 4 && "advisory_name"@.len() == 13);
    assert("repo"@.len() == 4 && "module"@.len() == 6);
    assert("repo"@.len() == 4 && "module_attrs"@.len() == 12);
    assert("repo"@.len() == 4 && "module_stream"@.len() == 13);
    assert("repo"@.len() == 4 && "stream_attrs"@.len() == 12);
    assert("repo"@.len() == 4 && "pkg_repo"@.len() == 8);
    assert("repo"@.len() == 4 && "advisory_repo"@.len() == 13);
    assert("repo"@.len() == 4 && "pkg_advisory"@.len() == 12);
    assert("repo"@[0] == 'r' && "item"@[0] == 'i');
    assert("repo"@.len() == 4 && "label"@.len() == 5);
    assert("repo_url"@.len() == 8 && "pkg"@.len() == 3);
    assert("repo_url"@.len() == 8 && "pkg_nevra"@.len() == 9);
    assert("repo_url"@[0] == 'r' && "advisory"@[0] == 'a');
    assert("repo_url"@.len() == 8 && "advisory_name"@.len() == 13);
    assert("repo_url"@.len() == 8 && "module"@.len() == 6);
    assert("repo_url"@.len() == 8 && "module_attrs"@.len() == 12);
    assert("repo_url"@.len() == 8 && "module_stream"@.len() == 13);
    assert("repo_url"@.len() == 8 && "stream_attrs"@.len() == 12);
    assert("repo_url"@[0] == 'r' && "pkg_repo"@[0] == 'p');
    assert("repo_url"@.len() == 8 && "advisory_repo"@.len() == 13);
    assert("repo_url"@.len() == 8 && "pkg_advisory"@.len() == 12);
    assert("repo_url"@.len() == 8 && "item"@.len() == 4);
    assert("repo_url"@.len() == 8 && "label"@.len() == 5);
    assert("pkg"@.len() == 3 && "pkg_nevra"@.len() == 9);
    assert("pkg"@.len() == 3 && "advisory"@.len() == 8);
    assert("pkg"@.len() == 3 && "advisory_name"@.len() == 13);
    assert("pkg"@.len() == 3 && "module"@.len() == 6);
    assert("pkg"@.len() == 3 && "module_attrs"@.len() == 12);
    assert("pkg"@.len() == 3 && "module_stream"@.len() == 13);
    assert("pkg"@.len() == 3 && "stream_attrs"@.len() == 12);
    assert("pkg"@.len() == 3 && "pkg_repo"@.len() == 8);
    assert("pkg"@.len() == 3 && "advisory_repo"@.len() == 13);
    assert("pkg"@.len() == 3 && "pkg_advisory"@.len() == 12);
    assert("pkg"@.len() == 3 && "item"@.len() == 4);
    assert("pkg"@.len() == 3 && "label"@.len() == 5);
    assert("pkg_nevra"@.len() == 9 && "advisory"@.len() == 8);
    assert("pkg_nevra"@.len() == 9 && "advisory_name"@.len() == 13);
    assert("pkg_nevra"@.len() == 9 && "module"@.len() == 6);
    assert("pkg_nevra"@.len() == 9 && "module_attrs"@.len() == 12);
    assert("pkg_nevra"@.len() == 9 && "module_stream"@.len() == 13);
    assert("pkg_nevra"@.len() == 9 && "stream_attrs"@.len() == 12);
    assert("pkg_nevra"@.len() == 9 && "pkg_repo"@.len() == 8);
    assert("pkg_nevra"@.len() == 9 && "advisory_repo"@.len() == 13);
    assert("pkg_nevra"@.len() == 9 && "pkg_advisory"@.len() == 12);
    assert("pkg_nevra"@.len() == 9 && "item"@.len() == 4);
    assert("pkg_nevra"@.len() == 9 && "label"@.len() == 5);
    assert("advisory"@.len() == 8 && "advisory_name"@.len() == 13);
    assert("advisory"@.len() == 8 && "module"@.len() == 6);
    assert("advisory"@.len() == 8 && "module_attrs"@.len() == 12);
    assert("advisory"@.len() == 8 && "module_stream"@.len() == 13);
    assert("advisory"@.len() == 8 && "stream_attrs"@.len() == 12);
    assert("advisory"@[0] == 'a' && "pkg_repo"@[0] == 'p');
    assert("advisory"@.len() == 8 && "advisory_repo"@.len() == 13);
    assert("advisory"@.len() == 8 && "pkg_advisory"@.len() == 12);
    assert("advisory"@.len() == 8 && "item"@.len() == 4);
    assert("advisory"@.len() == 8 && "label"@.len() == 5);
    assert("advisory_name"@.len() == 13 && "module"@.len() == 6);
    assert("advisory_name"@.len() == 13 && "module_attrs"@.len() == 12);
    assert("advisory_name"@[0] == 'a' && "module_stream"@[0] == 'm');
    assert("advisory_name"@.len() == 13 && "stream_attrs"@.len() == 12);
    assert("advisory_name"@.len() == 13 && "pkg_repo"@.len() == 8);
    assert("advisory_name"@[9] == 'n' && "advisory_repo"@[9] == 'r');
    assert("advisory_name"@.len() == 13 && "pkg_advisory"@.len() == 12);
    assert("advisory_name"@.len() == 13 && "item"@.len() == 4);
    assert("advisory_name"@.len() == 13 && "label"@.len() == 5);
    assert("module"@.len() == 6 && "module_attrs"@.len() == 12);
    assert("module"@.len() == 6 && "module_stream"@.len() == 13);
    assert("module"@.len() == 6 && "stream_attrs"@.len() == 12);
    assert("module"@.len() == 6 && "pkg_repo"@.len() == 8);
    assert("module"@.len() == 6 && "advisory_repo"@.len() == 13);
    assert("module"@.len() == 6 && "pkg_advisory"@.len() == 12);
    assert("module"@.len() == 6 && "item"@.len() == 4);
    assert("module"@.len() == 6 && "label"@.len() == 5);
    assert("module_attrs"@.len() == 12 && "module_stream"@.len() == 13);
    assert("module_attrs"@[0] == 'm' && "stream_attrs"@[0] == 's');
    assert("module_attrs"@.len() == 12 && "pkg_repo"@.len() == 8);
    assert("module_attrs"@.len() == 12 && "advisory_repo"@.len() == 13);
    assert("module_attrs"@[0] == 'm' && "pkg_advisory"@[0] == 'p');
    assert("module_attrs"@.len() == 12 && "item"@.len() == 4);
    assert("module_attrs"@.len() == 12 && "label"@.len() == 5);
    assert("module_stream"@.len() == 13 && "stream_attrs"@.len() == 12);
    assert("module_stream"@.len() == 13 && "pkg_repo"@.len() == 8);
    assert("module_stream"@[0] == 'm' && "advisory_repo"@[0] == 'a');
    assert("module_stream"@.len() == 13 && "pkg_advisory"@.len() == 12);
    assert("module_stream"@.len() == 13 && "item"@.len() == 4);
    assert("module_stream"@.len() == 13 && "label"@.len() == 5);
    assert("stream_attrs"@.len() == 12 && "pkg_repo"@.len() == 8);
    assert("stream_attrs"@.len() == 12 && "advisory_repo"@.len() == 13);
    assert("stream_attrs"@[0] == 's' && "pkg_advisory"@[0] == 'p');
    assert("stream_attrs"@.len() == 12 && "item"@.len() == 4);
    assert("stream_attrs"@.len() == 12 && "label"@.len() == 5);
    assert("pkg_repo"@.len() == 8 && "advisory_repo"@.len() == 13);
    assert("pkg_repo"@.len() == 8 && "pkg_advisory"@.len() == 12);
    assert("pkg_repo"@.len() == 8 && "item"@.len() == 4);
    assert("pkg_repo"@.len() == 8 && "label"@.len() == 5);
    assert("advisory_repo"@.len() == 13 && "pkg_advisory"@.len() == 12);
    assert("advisory_repo"@.len() == 13 && "item"@.len() == 4);
    assert("advisory_repo"@.len() == 13 && "label"@.len() == 5);
    assert("pkg_advisory"@.len() == 12 && "item"@.len() == 4);
    assert("pkg_advisory"@.len() == 12 && "label"@.len() == 5);
    assert("item"@.len() == 4 && "label"@.len() == 5);
}


/// A table's stored values stay valid whenever its sub-database is
/// untouched.
pub proof fn lemma_values_ok_frame<T: Table>(pre: &Database, post: &Database)
    requires
        tbl::<T>(pre) == tbl::<T>(post),
        values_ok::<T>(pre),
    ensures
        values_ok::<T>(post),
{
}

/// The value of a decimal digit string, most significant digit first.
pub open spec fn digits_val(s: Seq<char>) -> nat
    decreases s.len(),
{
    if s.len() == 0 {
        0
    } else {
        (digits_val(s.drop_last()) * 10 + (s.last() as nat - '0' as nat)) as nat
    }
}

/// Whether every character is a decimal digit.
pub open spec fn all_digits(s: Seq<char>) -> bool {
    forall|i: int| 0 <= i < s.len() ==> '0' <= #[trigger] s[i] <= '9'
}

/// The epoch a document string denotes: its decimal value when it is a
/// short plain digit string, otherwise zero.
pub open spec fn epoch_spec(s: Seq<char>) -> u32 {
    if s.len() > 0 && s.len() <= 9 && all_digits(s) {
        digits_val(s) as u32
    } else {
        0u32
    }
}

pub open spec fn pow10(n: nat) -> nat
    decreases n,
{
    if n == 0 {
        1
    } else {
        10 * pow10((n - 1) as nat)
    }
}

proof fn lemma_pow10_increases(i: nat, j: nat)
    requires
        i <= j,
    ensures
        pow10(i) <= pow10(j),
    decreases j,
{
    if i < j {
        lemma_pow10_increases(i, (j - 1) as nat);
        lemma_pow10_pos((j - 1) as nat);
    }
}

proof fn lemma_pow10_pos(n: nat)
    ensures
        pow10(n) >= 1,
    decreases n,
{
    if n > 0 {
        lemma_pow10_pos((n - 1) as nat);
    }
}

/// A digit string of length `n` denotes less than ten to the `n`.
proof fn lemma_digits_lt(s: Seq<char>)
    requires
        all_digits(s),
    ensures
        digits_val(s) < pow10(s.len()),
    decreases s.len(),
{
    if s.len() > 0 {
        assert(all_digits(s.drop_last())) by {
            assert(forall|i: int| 0 <= i < s.len() - 1 ==> s.drop_last()[i] == s[i]);
        }
        lemma_digits_lt(s.drop_last());
        let d = digits_val(s.drop_last());
        let p = pow10((s.len() - 1) as nat);
        assert(s.last() as nat - '0' as nat <= 9);
        assert(d * 10 + 9 < 10 * p) by (nonlinear_arith)
            requires
                d < p,
                p >= 1,
        ;
    }
}

/// Parse the epoch field of a document: a short plain digit string gives
/// its value, anything else gives zero.
pub fn parse_epoch(s: &str) -> (r: u32)
    ensures
        r == epoch_spec(s@),
{
    let n = s.unicode_len();
    if n == 0 || n > 9 {
        return 0;
    }
    let mut acc: u32 = 0;
    let mut i: usize = 0;
    while i < n
        invariant
            0 <= i <= n,
            n == s@.len(),
            0 < n <= 9,
            all_digits(s@.take(i as int)),
            acc == digits_val(s@.take(i as int)),
            acc < 1000000000,
        decreases n - i,
    {
        let c = s.get_char(i);
        if c < '0' || c > '9' {
            proof {
                assert(!all_digits(s@));
            }
            return 0;
        }
        proof {
            assert(s@.take(i + 1).drop_last() =~= s@.take(i as int));
            assert(s@.take(i + 1).last() == s@[i as int]);
            assert(all_digits(s@.take(i + 1)));
            lemma_digits_lt(s@.take(i + 1));
            lemma_pow10_increases((i + 1) as nat, 9);
            reveal_with_fuel(pow10, 10);
        }
        acc = acc * 10 + (char_digit(c));
        i = i + 1;
    }
    proof {
        assert(s@.take(n as int) =~= s@);
    }
    acc
}

/// The version a document string denotes: its decimal value when it is a
/// plain digit string fitting a 64-bit word, otherwise zero. Module
/// versions are long timestamps, so the range is wider than an epoch's.
pub open spec fn version_spec(s: Seq<char>) -> u64 {
    if s.len() > 0 && s.len() <= 18 && all_digits(s) {
        digits_val(s) as u64
    } else {
        0u64
    }
}

/// Parse a version field of a document.
pub fn parse_version(s: &str) -> (r: u64)
    ensures
        r == version_spec(s@),
{
    let n = s.unicode_len();
    if n == 0 || n > 18 {
        return 0;
    }
    let mut acc: u64 = 0;
    let mut i: usize = 0;
    while i < n
        invariant
            0 <= i <= n,
            n == s@.len(),
            0 < n <= 18,
            all_digits(s@.take(i as int)),
            acc == digits_val(s@.take(i as int)),
            acc < 1000000000000000000,
        decreases n - i,
    {
        let c = s.get_char(i);
        if c < '0' || c > '9' {
            proof {
                assert(!all_digits(s@));
            }
            return 0;
        }
        proof {
            assert(s@.take(i + 1).drop_last() =~= s@.take(i as int));
            assert(s@.take(i + 1).last() == s@[i as int]);
            assert(all_digits(s@.take(i + 1)));
            lemma_digits_lt(s@.take(i + 1));
            lemma_pow10_increases((i + 1) as nat, 18);
            reveal_with_fuel(pow10, 19);
        }
        acc = acc * 10 + (char_digit(c) as u64);
        i = i + 1;
    }
    proof {
        assert(s@.take(n as int) =~= s@);
    }
    acc
}

/// The numeric value of one digit character.
fn char_digit(c: char) -> (r: u32)
    requires
        '0' <= c <= '9',
    ensures
        r == c as nat - '0' as nat,
        r <= 9,
{
    (c as u32) - ('0' as u32)
}

/// The package row a primary-document entry denotes, under a fresh id.
pub fn pkg_from_package(p: &crate::primary::Package, id: Uuid) -> (r: Pkg)
    ensures
        r@.0 == id@,
        r@.1 == p.name@,
        r@.2 == epoch_spec(p.version.epoch@),
        r@.3 == p.version.ver@,
        r@.4 == p.version.rel@,
        r@.5 == p.arch@,
{
    Pkg {
        id,
        nevra: Nevra {
            name: p.name.clone(),
            epoch: parse_epoch(p.version.epoch.as_str()),
            ver: p.version.ver.clone(),
            rel: p.version.rel.clone(),
            arch: p.arch.clone(),
        },
    }
}

/// The package row an advisory's package entry denotes, under a fresh id.
pub fn pkg_from_update_package(p: &crate::updateinfo::Package, id: Uuid) -> (r: Pkg)
    ensures
        r@.0 == id@,
        r@.1 == p.name@,
        r@.2 == epoch_spec(p.epoch@),
        r@.3 == p.version@,
        r@.4 == p.release@,
        r@.5 == p.arch@,
{
    Pkg {
        id,
        nevra: Nevra {
            name: p.name.clone(),
            epoch: parse_epoch(p.epoch.as_str()),
            ver: p.version.clone(),
            rel: p.release.clone(),
            arch: p.arch.clone(),
        },
    }
}

/// The advisory row an update entry denotes, under a fresh id; the
/// advisory's natural key is the update's id string.
pub fn advisory_from_update(up: &crate::updateinfo::Update, id: Uuid) -> (r: Advisory)
    ensures
        r@.0 == id@,
        r@.1 == up.typ@,
        r@.2 == up.id@,
        r@.3 == opt_str_view(&up.summary),
        r@.4 == opt_str_view(&up.description),
        r@.5 == up.issued.date@,
        r@.6 == up.updated.date@,
{
    Advisory {
        id,
        typ: up.typ.clone(),
        name: up.id.clone(),
        summary: crate::sync::clone_opt_string(&up.summary),
        desc: crate::sync::clone_opt_string(&up.description),
        issued: up.issued.date.clone(),
        updated: up.updated.date.clone(),
    }
}

/// The sub-database names the synchronizer's flushes touch are pairwise
/// distinct.
pub proof fn lemma_sync_names()
    ensures
        "pkg"@ != "pkg_nevra"@,
        "pkg"@ != "pkg_repo"@,
        "pkg"@ != "advisory"@,
        "pkg"@ != "advisory_name"@,
        "pkg"@ != "advisory_repo"@,
        "pkg"@ != "pkg_advisory"@,
        "pkg"@ != "module"@,
        "pkg"@ != "module_attrs"@,
        "pkg"@ != "module_stream"@,
        "pkg"@ != "stream_attrs"@,
        "pkg_nevra"@ != "pkg_repo"@,
        "pkg_nevra"@ != "advisory"@,
        "pkg_nevra"@ != "advisory_name"@,
        "pkg_nevra"@ != "advisory_repo"@,
        "pkg_nevra"@ != "pkg_advisory"@,
        "pkg_nevra"@ != "module"@,
        "pkg_nevra"@ != "module_attrs"@,
        "pkg_nevra"@ != "module_stream"@,
        "pkg_nevra"@ != "stream_attrs"@,
        "pkg_repo"@ != "advisory"@,
        "pkg_repo"@ != "advisory_name"@,
        "pkg_repo"@ != "advisory_repo"@,
        "pkg_repo"@ != "pkg_advisory"@,
        "pkg_repo"@ != "module"@,
        "pkg_repo"@ != "module_attrs"@,
        "pkg_repo"@ != "module_stream"@,
        "pkg_repo"@ != "stream_attrs"@,
        "advisory"@ != "advisory_name"@,
        "advisory"@ != "advisory_repo"@,
        "advisory"@ != "pkg_advisory"@,
        "advisory"@ != "module"@,
        "advisory"@ != "module_attrs"@,
        "advisory"@ != "module_stream"@,
        "advisory"@ != "stream_attrs"@,
        "advisory_name"@ != "advisory_repo"@,
        "advisory_name"@ != "pkg_advisory"@,
        "advisory_name"@ != "module"@,
        "advisory_name"@ != "module_attrs"@,
        "advisory_name"@ != "module_stream"@,
        "advisory_name"@ != "stream_attrs"@,
        "advisory_repo"@ != "pkg_advisory"@,
        "advisory_repo"@ != "module"@,
        "advisory_repo"@ != "module_attrs"@,
        "advisory_repo"@ != "module_stream"@,
        "advisory_repo"@ != "stream_attrs"@,
        "pkg_advisory"@ != "module"@,
        "pkg_advisory"@ != "module_attrs"@,
        "pkg_advisory"@ != "module_stream"@,
        "pkg_advisory"@ != "stream_attrs"@,
        "module"@ != "module_attrs"@,
        "module"@ != "module_stream"@,
        "module"@ != "stream_attrs"@,
        "module_attrs"@ != "module_stream"@,
        "module_attrs"@ != "stream_attrs"@,
        "module_stream"@ != "stream_attrs"@,
{
    reveal_strlit("pkg");
    reveal_strlit("pkg_nevra");
    reveal_strlit("pkg_repo");
    reveal_strlit("advisory");
    reveal_strlit("advisory_name");
    reveal_strlit("advisory_repo");
    reveal_strlit("pkg_advisory");
    reveal_strlit("module");
    reveal_strlit("module_attrs");
    reveal_strlit("module_stream");
    reveal_strlit("stream_attrs");
    assert("pkg"@.len() == 3 && "pkg_nevra"@.len() == 9);
    assert("pkg"@.len() == 3 && "pkg_repo"@.len() == 8);
    assert("pkg"@.len() == 3 && "advisory"@.len() == 8);
    assert("pkg"@.len() == 3 && "advisory_name"@.len() == 13);
    assert("pkg"@.len() == 3 && "advisory_repo"@.len() == 13);
    assert("pkg"@.len() == 3 && "pkg_advisory"@.len() == 12);
    assert("pkg"@.len() == 3 && "module"@.len() == 6);
    assert("pkg"@.len() == 3 && "module_attrs"@.len() == 12);
    assert("pkg"@.len() == 3 && "module_stream"@.len() == 13);
    assert("pkg"@.len() == 3 && "stream_attrs"@.len() == 12);
    assert("pkg_nevra"@.len() == 9 && "pkg_repo"@.len() == 8);
    assert("pkg_nevra"@.len() == 9 && "advisory"@.len() == 8);
    assert("pkg_nevra"@.len() == 9 && "advisory_name"@.len() == 13);
    assert("pkg_nevra"@.len() == 9 && "advisory_repo"@.len() == 13);
    assert("pkg_nevra"@.len() == 9 && "pkg_advisory"@.len() == 12);
    assert("pkg_nevra"@.len() == 9 && "module"@.len() == 6);
    assert("pkg_nevra"@.len() == 9 && "module_attrs"@.len() == 12);
    assert("pkg_nevra"@.len() == 9 && "module_stream"@.len() == 13);
    assert("pkg_nevra"@.len() == 9 && "stream_attrs"@.len() == 12);
    assert("pkg_repo"@[0] == 'p' && "advisory"@[0] == 'a');
    assert("pkg_repo"@.len() == 8 && "advisory_name"@.len() == 13);
    assert("pkg_repo"@.len() == 8 && "advisory_repo"@.len() == 13);
    assert("pkg_repo"@.len() == 8 && "pkg_advisory"@.len() == 12);
    assert("pkg_repo"@.len() == 8 && "module"@.len() == 6);
    assert("pkg_repo"@.len() == 8 && "module_attrs"@.len() == 12);
    assert("pkg_repo"@.len() == 8 && "module_stream"@.len() == 13);
    assert("pkg_repo"@.len() == 8 && "stream_attrs"@.len() == 12);
    assert("advisory"@.len() == 8 && "advisory_name"@.len() == 13);
    assert("advisory"@.len() == 8 && "advisory_repo"@.len() == 13);
    assert("advisory"@.len() == 8 && "pkg_advisory"@.len() == 12);
    assert("advisory"@.len() == 8 && "module"@.len() == 6);
    assert("advisory"@.len() == 8 && "module_attrs"@.len() == 12);
    assert("advisory"@.len() == 8 && "module_stream"@.len() == 13);
    assert("advisory"@.len() == 8 && "stream_attrs"@.len() == 12);
    assert("advisory_name"@[9] == 'n' && "advisory_repo"@[9] == 'r');
    assert("advisory_name"@.len() == 13 && "pkg_advisory"@.len() == 12);
    assert("advisory_name"@.len() == 13 && "module"@.len() == 6);
    assert("advisory_name"@.len() == 13 && "module_attrs"@.len() == 12);
    assert("advisory_name"@[0] == 'a' && "module_stream"@[0] == 'm');
    assert("advisory_name"@.len() == 13 && "stream_attrs"@.len() == 12);
    assert("advisory_repo"@.len() == 13 && "pkg_advisory"@.len() == 12);
    assert("advisory_repo"@.len() == 13 && "module"@.len() == 6);
    assert("advisory_repo"@.len() == 13 && "module_attrs"@.len() == 12);
    assert("advisory_repo"@[0] == 'a' && "module_stream"@[0] == 'm');
    assert("advisory_repo"@.len() == 13 && "stream_attrs"@.len() == 12);
    assert("pkg_advisory"@.len() == 12 && "module"@.len() == 6);
    assert("pkg_advisory"@[0] == 'p' && "module_attrs"@[0] == 'm');
    assert("pkg_advisory"@.len() == 12 && "module_stream"@.len() == 13);
    assert("pkg_advisory"@[0] == 'p' && "stream_attrs"@[0] == 's');
    assert("module"@.len() == 6 && "module_attrs"@.len() == 12);
    assert("module"@.len() == 6 && "module_stream"@.len() == 13);
    assert("module"@.len() == 6 && "stream_attrs"@.len() == 12);
    assert("module_attrs"@.len() == 12 && "module_stream"@.len() == 13);
    assert("module_attrs"@[0] == 'm' && "stream_attrs"@[0] == 's');
    assert("module_stream"@.len() == 13 && "stream_attrs"@.len() == 12);
}

/// Every table the synchronizer writes is registered with valid contents.
pub open spec fn sync_store_ok(db: &Database) -> bool {
    &&& db.db_wf()
    &&& table_registered::<Pkg>(db) && values_ok::<Pkg>(db)
    &&& table_registered::<PkgRepo>(db) && values_ok::<PkgRepo>(db)
    &&& table_registered::<Advisory>(db) && values_ok::<Advisory>(db)
    &&& table_registered::<AdvisoryRepo>(db) && values_ok::<AdvisoryRepo>(db)
    &&& table_registered::<PkgAdvisory>(db) && values_ok::<PkgAdvisory>(db)
    &&& table_registered::<Module>(db) && values_ok::<Module>(db)
    &&& table_registered::<ModuleStream>(db) && values_ok::<ModuleStream>(db)
}

/// Keys stay present when a write only adds or overwrites one key.
proof fn lemma_keys_monotone(a: Seq<(Seq<u8>, Seq<u8>)>, b: Seq<(Seq<u8>, Seq<u8>)>, kb: Seq<u8>)
    requires
        has_key(b, kb),
        forall|k2: Seq<u8>| k2 != kb ==> has_key(b, k2) == has_key(a, k2),
    ensures
        forall|k2: Seq<u8>| has_key(a, k2) ==> #[trigger] has_key(b, k2),
{
}

/// A write into the pkg sub-databases leaves every other
/// synchronizer table and index untouched.
proof fn lemma_frame_after_pkg(pre: Database, post: Database)
    requires
        sync_store_ok(&pre),
        forall|n2: Seq<char>| post.holds(n2) == pre.holds(n2),
        forall|n2: Seq<char>|
            pre.holds(n2) && !touches::<Pkg>(n2) ==> #[trigger] post.at(n2) == pre.at(n2),
    ensures
        tbl::<PkgRepo>(&post) == tbl::<PkgRepo>(&pre),
        values_ok::<PkgRepo>(&post),
        tbl::<Advisory>(&post) == tbl::<Advisory>(&pre),
        values_ok::<Advisory>(&post),
        tbl_idx::<Advisory>(&post, 0) == tbl_idx::<Advisory>(&pre, 0),
        tbl::<AdvisoryRepo>(&post) == tbl::<AdvisoryRepo>(&pre),
        values_ok::<AdvisoryRepo>(&post),
        tbl::<PkgAdvisory>(&post) == tbl::<PkgAdvisory>(&pre),
        values_ok::<PkgAdvisory>(&post),
        tbl::<Module>(&post) == tbl::<Module>(&pre),
        values_ok::<Module>(&post),
        tbl_idx::<Module>(&post, 0) == tbl_idx::<Module>(&pre, 0),
        tbl::<ModuleStream>(&post) == tbl::<ModuleStream>(&pre),
        values_ok::<ModuleStream>(&post),
        tbl_idx::<ModuleStream>(&post, 0) == tbl_idx::<ModuleStream>(&pre, 0),
{
    lemma_sync_names();
    assert(tbl::<PkgRepo>(&post) == tbl::<PkgRepo>(&pre)) by {
        assert(!touches::<Pkg>(<PkgRepo as Table>::table_name()));
    }
    lemma_values_ok_frame::<PkgRepo>(&pre, &post);
    assert(tbl::<Advisory>(&post) == tbl::<Advisory>(&pre)) by {
        assert(!touches::<Pkg>(<Advisory as Table>::table_name()));
    }
    lemma_values_ok_frame::<Advisory>(&pre, &post);
    assert(tbl_idx::<Advisory>(&post, 0) == tbl_idx::<Advisory>(&pre, 0)) by {
        assert(!touches::<Pkg>(<Advisory as Table>::index_names_spec()[0]));
    }
    assert(tbl::<AdvisoryRepo>(&post) == tbl::<AdvisoryRepo>(&pre)) by {
        assert(!touches::<Pkg>(<AdvisoryRepo as Table>::table_name()));
    }
    lemma_values_ok_frame::<AdvisoryRepo>(&pre, &post);
    assert(tbl::<PkgAdvisory>(&post) == tbl::<PkgAdvisory>(&pre)) by {
        assert(!touches::<Pkg>(<PkgAdvisory as Table>::table_name()));
    }
    lemma_values_ok_frame::<PkgAdvisory>(&pre, &post);
    assert(tbl::<Module>(&post) == tbl::<Module>(&pre)) by {
        assert(!touches::<Pkg>(<Module as Table>::table_name()));
    }
    lemma_values_ok_frame::<Module>(&pre, &post);
    assert(tbl_idx::<Module>(&post, 0) == tbl_idx::<Module>(&pre, 0)) by {
        assert(!touches::<Pkg>(<Module as Table>::index_names_spec()[0]));
    }
    assert(tbl::<ModuleStream>(&post) == tbl::<ModuleStream>(&pre)) by {
        assert(!touches::<Pkg>(<ModuleStream as Table>::table_name()));
    }
    lemma_values_ok_frame::<ModuleStream>(&pre, &post);
    assert(tbl_idx::<ModuleStream>(&post, 0) == tbl_idx::<ModuleStream>(&pre, 0)) by {
        assert(!touches::<Pkg>(<ModuleStream as Table>::index_names_spec()[0]));
    }
}

/// A write into the pkgrepo sub-databases leaves every other
/// synchronizer table and index untouched.
proof fn lemma_frame_after_pkgrepo(pre: Database, post: Database)
    requires
        sync_store_ok(&pre),
        forall|n2: Seq<char>| post.holds(n2) == pre.holds(n2),
        forall|n2: Seq<char>|
            pre.holds(n2) && !touches::<PkgRepo>(n2) ==> #[trigger] post.at(n2) == pre.at(n2),
    ensures
        tbl::<Pkg>(&post) == tbl::<Pkg>(&pre),
        values_ok::<Pkg>(&post),
        tbl_idx::<Pkg>(&post, 0) == tbl_idx::<Pkg>(&pre, 0),
        tbl::<Advisory>(&post) == tbl::<Advisory>(&pre),
        values_ok::<Advisory>(&post),
        tbl_idx::<Advisory>(&post, 0) == tbl_idx::<Advisory>(&pre, 0),
        tbl::<AdvisoryRepo>(&post) == tbl::<AdvisoryRepo>(&pre),
        values_ok::<AdvisoryRepo>(&post),
        tbl::<PkgAdvisory>(&post) == tbl::<PkgAdvisory>(&pre),
        values_ok::<PkgAdvisory>(&post),
        tbl::<Module>(&post) == tbl::<Module>(&pre),
        values_ok::<Module>(&post),
        tbl_idx::<Module>(&post, 0) == tbl_idx::<Module>(&pre, 0),
        tbl::<ModuleStream>(&post) == tbl::<ModuleStream>(&pre),
        values_ok::<ModuleStream>(&post),
        tbl_idx::<ModuleStream>(&post, 0) == tbl_idx::<ModuleStream>(&pre, 0),
{
    lemma_sync_names();
    assert(tbl::<Pkg>(&post) == tbl::<Pkg>(&pre)) by {
        assert(!touches::<PkgRepo>(<Pkg as Table>::table_name()));
    }
    lemma_values_ok_frame::<Pkg>(&pre, &post);
    assert(tbl_idx::<Pkg>(&post, 0) == tbl_idx::<Pkg>(&pre, 0)) by {
        assert(!touches::<PkgRepo>(<Pkg as Table>::index_names_spec()[0]));
    }
    assert(tbl::<Advisory>(&post) == tbl::<Advisory>(&pre)) by {
        assert(!touches::<PkgRepo>(<Advisory as Table>::table_name()));
    }
    lemma_values_ok_frame::<Advisory>(&pre, &post);
    assert(tbl_idx::<Advisory>(&post, 0) == tbl_idx::<Advisory>(&pre, 0)) by {
        assert(!touches::<PkgRepo>(<Advisory as Table>::index_names_spec()[0]));
    }
    assert(tbl::<AdvisoryRepo>(&post) == tbl::<AdvisoryRepo>(&pre)) by {
        assert(!touches::<PkgRepo>(<AdvisoryRepo as Table>::table_name()));
    }
    lemma_values_ok_frame::<AdvisoryRepo>(&pre, &post);
    assert(tbl::<PkgAdvisory>(&post) == tbl::<PkgAdvisory>(&pre)) by {
        assert(!touches::<PkgRepo>(<PkgAdvisory as Table>::table_name()));
    }
    lemma_values_ok_frame::<PkgAdvisory>(&pre, &post);
    assert(tbl::<Module>(&post) == tbl::<Module>(&pre)) by {
        assert(!touches::<PkgRepo>(<Module as Table>::table_name()));
    }
    lemma_values_ok_frame::<Module>(&pre, &post);
    assert(tbl_idx::<Module>(&post, 0) == tbl_idx::<Module>(&pre, 0)) by {
        assert(!touches::<PkgRepo>(<Module as Table>::index_names_spec()[0]));
    }
    assert(tbl::<ModuleStream>(&post) == tbl::<ModuleStream>(&pre)) by {
        assert(!touches::<PkgRepo>(<ModuleStream as Table>::table_name()));
    }
    lemma_values_ok_frame::<ModuleStream>(&pre, &post);
    assert(tbl_idx::<ModuleStream>(&post, 0) == tbl_idx::<ModuleStream>(&pre, 0)) by {
        assert(!touches::<PkgRepo>(<ModuleStream as Table>::index_names_spec()[0]));
    }
}

/// A write into the advisory sub-databases leaves every other
/// synchronizer table and index untouched.
proof fn lemma_frame_after_advisory(pre: Database, post: Database)
    requires
        sync_store_ok(&pre),
        forall|n2: Seq<char>| post.holds(n2) == pre.holds(n2),
        forall|n2: Seq<char>|
            pre.holds(n2) && !touches::<Advisory>(n2) ==> #[trigger] post.at(n2) == pre.at(n2),
    ensures
        tbl::<Pkg>(&post) == tbl::<Pkg>(&pre),
        values_ok::<Pkg>(&post),
        tbl_idx::<Pkg>(&post, 0) == tbl_idx::<Pkg>(&pre, 0),
        tbl::<PkgRepo>(&post) == tbl::<PkgRepo>(&pre),
        values_ok::<PkgRepo>(&post),
        tbl::<AdvisoryRepo>(&post) == tbl::<AdvisoryRepo>(&pre),
        values_ok::<AdvisoryRepo>(&post),
        tbl::<PkgAdvisory>(&post) == tbl::<PkgAdvisory>(&pre),
        values_ok::<PkgAdvisory>(&post),
        tbl::<Module>(&post) == tbl::<Module>(&pre),
        values_ok::<Module>(&post),
        tbl_idx::<Module>(&post, 0) == tbl_idx::<Module>(&pre, 0),
        tbl::<ModuleStream>(&post) == tbl::<ModuleStream>(&pre),
        values_ok::<ModuleStream>(&post),
        tbl_idx::<ModuleStream>(&post, 0) == tbl_idx::<ModuleStream>(&pre, 0),
{
    lemma_sync_names();
    assert(tbl::<Pkg>(&post) == tbl::<Pkg>(&pre)) by {
        assert(!touches::<Advisory>(<Pkg as Table>::table_name()));
    }
    lemma_values_ok_frame::<Pkg>(&pre, &post);
    assert(tbl_idx::<Pkg>(&post, 0) == tbl_idx::<Pkg>(&pre, 0)) by {
        assert(!touches::<Advisory>(<Pkg as Table>::index_names_spec()[0]));
    }
    assert(tbl::<PkgRepo>(&post) == tbl::<PkgRepo>(&pre)) by {
        assert(!touches::<Advisory>(<PkgRepo as Table>::table_name()));
    }
    lemma_values_ok_frame::<PkgRepo>(&pre, &post);
    assert(tbl::<AdvisoryRepo>(&post) == tbl::<AdvisoryRepo>(&pre)) by {
        assert(!touches::<Advisory>(<AdvisoryRepo as Table>::table_name()));
    }
    lemma_values_ok_frame::<AdvisoryRepo>(&pre, &post);
    assert(tbl::<PkgAdvisory>(&post) == tbl::<PkgAdvisory>(&pre)) by {
        assert(!touches::<Advisory>(<PkgAdvisory as Table>::table_name()));
    }
    lemma_values_ok_frame::<PkgAdvisory>(&pre, &post);
    assert(tbl::<Module>(&post) == tbl::<Module>(&pre)) by {
        assert(!touches::<Advisory>(<Module as Table>::table_name()));
    }
    lemma_values_ok_frame::<Module>(&pre, &post);
    assert(tbl_idx::<Module>(&post, 0) == tbl_idx::<Module>(&pre, 0)) by {
        assert(!touches::<Advisory>(<Module as Table>::index_names_spec()[0]));
    }
    assert(tbl::<ModuleStream>(&post) == tbl::<ModuleStream>(&pre)) by {
        assert(!touches::<Advisory>(<ModuleStream as Table>::table_name()));
    }
    lemma_values_ok_frame::<ModuleStream>(&pre, &post);
    assert(tbl_idx::<ModuleStream>(&post, 0) == tbl_idx::<ModuleStream>(&pre, 0)) by {
        assert(!touches::<Advisory>(<ModuleStream as Table>::index_names_spec()[0]));
    }
}

/// A write into the advisoryrepo sub-databases leaves every other
/// synchronizer table and index untouched.
proof fn lemma_frame_after_advisoryrepo(pre: Database, post: Database)
    requires
        sync_store_ok(&pre),
        forall|n2: Seq<char>| post.holds(n2) == pre.holds(n2),
        forall|n2: Seq<char>|
            pre.holds(n2) && !touches::<AdvisoryRepo>(n2) ==> #[trigger] post.at(n2) == pre.at(n2),
    ensures
        tbl::<Pkg>(&post) == tbl::<Pkg>(&pre),
        values_ok::<Pkg>(&post),
        tbl_idx::<Pkg>(&post, 0) == tbl_idx::<Pkg>(&pre, 0),
        tbl::<PkgRepo>(&post) == tbl::<PkgRepo>(&pre),
        values_ok::<PkgRepo>(&post),
        tbl::<Advisory>(&post) == tbl::<Advisory>(&pre),
        values_ok::<Advisory>(&post),
        tbl_idx::<Advisory>(&post, 0) == tbl_idx::<Advisory>(&pre, 0),
        tbl::<PkgAdvisory>(&post) == tbl::<PkgAdvisory>(&pre),
        values_ok::<PkgAdvisory>(&post),
        tbl::<Module>(&post) == tbl::<Module>(&pre),
        values_ok::<Module>(&post),
        tbl_idx::<Module>(&post, 0) == tbl_idx::<Module>(&pre, 0),
        tbl::<ModuleStream>(&post) == tbl::<ModuleStream>(&pre),
        values_ok::<ModuleStream>(&post),
        tbl_idx::<ModuleStream>(&post, 0) == tbl_idx::<ModuleStream>(&pre, 0),
{
    lemma_sync_names();
    assert(tbl::<Pkg>(&post) == tbl::<Pkg>(&pre)) by {
        assert(!touches::<AdvisoryRepo>(<Pkg as Table>::table_name()));
    }
    lemma_values_ok_frame::<Pkg>(&pre, &post);
    assert(tbl_idx::<Pkg>(&post, 0) == tbl_idx::<Pkg>(&pre, 0)) by {
        assert(!touches::<AdvisoryRepo>(<Pkg as Table>::index_names_spec()[0]));
    }
    assert(tbl::<PkgRepo>(&post) == tbl::<PkgRepo>(&pre)) by {
        assert(!touches::<AdvisoryRepo>(<PkgRepo as Table>::table_name()));
    }
    lemma_values_ok_frame::<PkgRepo>(&pre, &post);
    assert(tbl::<Advisory>(&post) == tbl::<Advisory>(&pre)) by {
        assert(!touches::<AdvisoryRepo>(<Advisory as Table>::table_name()));
    }
    lemma_values_ok_frame::<Advisory>(&pre, &post);
    assert(tbl_idx::<Advisory>(&post, 0) == tbl_idx::<Advisory>(&pre, 0)) by {
        assert(!touches::<AdvisoryRepo>(<Advisory as Table>::index_names_spec()[0]));
    }
    assert(tbl::<PkgAdvisory>(&post) == tbl::<PkgAdvisory>(&pre)) by {
        assert(!touches::<AdvisoryRepo>(<PkgAdvisory as Table>::table_name()));
    }
    lemma_values_ok_frame::<PkgAdvisory>(&pre, &post);
    assert(tbl::<Module>(&post) == tbl::<Module>(&pre)) by {
        assert(!touches::<AdvisoryRepo>(<Module as Table>::table_name()));
    }
    lemma_values_ok_frame::<Module>(&pre, &post);
    assert(tbl_idx::<Module>(&post, 0) == tbl_idx::<Module>(&pre, 0)) by {
        assert(!touches::<AdvisoryRepo>(<Module as Table>::index_names_spec()[0]));
    }
    assert(tbl::<ModuleStream>(&post) == tbl::<ModuleStream>(&pre)) by {
        assert(!touches::<AdvisoryRepo>(<ModuleStream as Table>::table_name()));
    }
    lemma_values_ok_frame::<ModuleStream>(&pre, &post);
    assert(tbl_idx::<ModuleStream>(&post, 0) == tbl_idx::<ModuleStream>(&pre, 0)) by {
        assert(!touches::<AdvisoryRepo>(<ModuleStream as Table>::index_names_spec()[0]));
    }
}

/// A write into the pkgadvisory sub-databases leaves every other
/// synchronizer table and index untouched.
proof fn lemma_frame_after_pkgadvisory(pre: Database, post: Database)
    requires
        sync_store_ok(&pre),
        forall|n2: Seq<char>| post.holds(n2) == pre.holds(n2),
        forall|n2: Seq<char>|
            pre.holds(n2) && !touches::<PkgAdvisory>(n2) ==> #[trigger] post.at(n2) == pre.at(n2),
    ensures
        tbl::<Pkg>(&post) == tbl::<Pkg>(&pre),
        values_ok::<Pkg>(&post),
        tbl_idx::<Pkg>(&post, 0) == tbl_idx::<Pkg>(&pre, 0),
        tbl::<PkgRepo>(&post) == tbl::<PkgRepo>(&pre),
        values_ok::<PkgRepo>(&post),
        tbl::<Advisory>(&post) == tbl::<Advisory>(&pre),
        values_ok::<Advisory>(&post),
        tbl_idx::<Advisory>(&post, 0) == tbl_idx::<Advisory>(&pre, 0),
        tbl::<AdvisoryRepo>(&post) == tbl::<AdvisoryRepo>(&pre),
        values_ok::<AdvisoryRepo>(&post),
        tbl::<Module>(&post) == tbl::<Module>(&pre),
        values_ok::<Module>(&post),
        tbl_idx::<Module>(&post, 0) == tbl_idx::<Module>(&pre, 0),
        tbl::<ModuleStream>(&post) == tbl::<ModuleStream>(&pre),
        values_ok::<ModuleStream>(&post),
        tbl_idx::<ModuleStream>(&post, 0) == tbl_idx::<ModuleStream>(&pre, 0),
{
    lemma_sync_names();
    assert(tbl::<Pkg>(&post) == tbl::<Pkg>(&pre)) by {
        assert(!touches::<PkgAdvisory>(<Pkg as Table>::table_name()));
    }
    lemma_values_ok_frame::<Pkg>(&pre, &post);
    assert(tbl_idx::<Pkg>(&post, 0) == tbl_idx::<Pkg>(&pre, 0)) by {
        assert(!touches::<PkgAdvisory>(<Pkg as Table>::index_names_spec()[0]));
    }
    assert(tbl::<PkgRepo>(&post) == tbl::<PkgRepo>(&pre)) by {
        assert(!touches::<PkgAdvisory>(<PkgRepo as Table>::table_name()));
    }
    lemma_values_ok_frame::<PkgRepo>(&pre, &post);
    assert(tbl::<Advisory>(&post) == tbl::<Advisory>(&pre)) by {
        assert(!touches::<PkgAdvisory>(<Advisory as Table>::table_name()));
    }
    lemma_values_ok_frame::<Advisory>(&pre, &post);
    assert(tbl_idx::<Advisory>(&post, 0) == tbl_idx::<Advisory>(&pre, 0)) by {
        assert(!touches::<PkgAdvisory>(<Advisory as Table>::index_names_spec()[0]));
    }
    assert(tbl::<AdvisoryRepo>(&post) == tbl::<AdvisoryRepo>(&pre)) by {
        assert(!touches::<PkgAdvisory>(<AdvisoryRepo as Table>::table_name()));
    }
    lemma_values_ok_frame::<AdvisoryRepo>(&pre, &post);
    assert(tbl::<Module>(&post) == tbl::<Module>(&pre)) by {
        assert(!touches::<PkgAdvisory>(<Module as Table>::table_name()));
    }
    lemma_values_ok_frame::<Module>(&pre, &post);
    assert(tbl_idx::<Module>(&post, 0) == tbl_idx::<Module>(&pre, 0)) by {
        assert(!touches::<PkgAdvisory>(<Module as Table>::index_names_spec()[0]));
    }
    assert(tbl::<ModuleStream>(&post) == tbl::<ModuleStream>(&pre)) by {
        assert(!touches::<PkgAdvisory>(<ModuleStream as Table>::table_name()));
    }
    lemma_values_ok_frame::<ModuleStream>(&pre, &post);
    assert(tbl_idx::<ModuleStream>(&post, 0) == tbl_idx::<ModuleStream>(&pre, 0)) by {
        assert(!touches::<PkgAdvisory>(<ModuleStream as Table>::index_names_spec()[0]));
    }
}

/// A write into the module sub-databases leaves every other
/// synchronizer table and index untouched.
proof fn lemma_frame_after_module(pre: Database, post: Database)
    requires
        sync_store_ok(&pre),
        forall|n2: Seq<char>| post.holds(n2) == pre.holds(n2),
        forall|n2: Seq<char>|
            pre.holds(n2) && !touches::<Module>(n2) ==> #[trigger] post.at(n2) == pre.at(n2),
    ensures
        tbl::<Pkg>(&post) == tbl::<Pkg>(&pre),
        values_ok::<Pkg>(&post),
        tbl_idx::<Pkg>(&post, 0) == tbl_idx::<Pkg>(&pre, 0),
        tbl::<PkgRepo>(&post) == tbl::<PkgRepo>(&pre),
        values_ok::<PkgRepo>(&post),
        tbl::<Advisory>(&post) == tbl::<Advisory>(&pre),
        values_ok::<Advisory>(&post),
        tbl_idx::<Advisory>(&post, 0) == tbl_idx::<Advisory>(&pre, 0),
        tbl::<AdvisoryRepo>(&post) == tbl::<AdvisoryRepo>(&pre),
        values_ok::<AdvisoryRepo>(&post),
        tbl::<PkgAdvisory>(&post) == tbl::<PkgAdvisory>(&pre),
        values_ok::<PkgAdvisory>(&post),
        tbl::<ModuleStream>(&post) == tbl::<ModuleStream>(&pre),
        values_ok::<ModuleStream>(&post),
        tbl_idx::<ModuleStream>(&post, 0) == tbl_idx::<ModuleStream>(&pre, 0),
{
    lemma_sync_names();
    assert(tbl::<Pkg>(&post) == tbl::<Pkg>(&pre)) by {
        assert(!touches::<Module>(<Pkg as Table>::table_name()));
    }
    lemma_values_ok_frame::<Pkg>(&pre, &post);
    assert(tbl_idx::<Pkg>(&post, 0) == tbl_idx::<Pkg>(&pre, 0)) by {
        assert(!touches::<Module>(<Pkg as Table>::index_names_spec()[0]));
    }
    assert(tbl::<PkgRepo>(&post) == tbl::<PkgRepo>(&pre)) by {
        assert(!touches::<Module>(<PkgRepo as Table>::table_name()));
    }
    lemma_values_ok_frame::<PkgRepo>(&pre, &post);
    assert(tbl::<Advisory>(&post) == tbl::<Advisory>(&pre)) by {
        assert(!touches::<Module>(<Advisory as Table>::table_name()));
    }
    lemma_values_ok_frame::<Advisory>(&pre, &post);
    assert(tbl_idx::<Advisory>(&post, 0) == tbl_idx::<Advisory>(&pre, 0)) by {
        assert(!touches::<Module>(<Advisory as Table>::index_names_spec()[0]));
    }
    assert(tbl::<AdvisoryRepo>(&post) == tbl::<AdvisoryRepo>(&pre)) by {
        assert(!touches::<Module>(<AdvisoryRepo as Table>::table_name()));
    }
    lemma_values_ok_frame::<AdvisoryRepo>(&pre, &post);
    assert(tbl::<PkgAdvisory>(&post) == tbl::<PkgAdvisory>(&pre)) by {
        assert(!touches::<Module>(<PkgAdvisory as Table>::table_name()));
    }
    lemma_values_ok_frame::<PkgAdvisory>(&pre, &post);
    assert(tbl::<ModuleStream>(&post) == tbl::<ModuleStream>(&pre)) by {
        assert(!touches::<Module>(<ModuleStream as Table>::table_name()));
    }
    lemma_values_ok_frame::<ModuleStream>(&pre, &post);
    assert(tbl_idx::<ModuleStream>(&post, 0) == tbl_idx::<ModuleStream>(&pre, 0)) by {
        assert(!touches::<Module>(<ModuleStream as Table>::index_names_spec()[0]));
    }
}

/// A write into the modulestream sub-databases leaves every other
/// synchronizer table and index untouched.
proof fn lemma_frame_after_modulestream(pre: Database, post: Database)
    requires
        sync_store_ok(&pre),
        forall|n2: Seq<char>| post.holds(n2) == pre.holds(n2),
        forall|n2: Seq<char>|
            pre.holds(n2) && !touches::<ModuleStream>(n2) ==> #[trigger] post.at(n2) == pre.at(n2),
    ensures
        tbl::<Pkg>(&post) == tbl::<Pkg>(&pre),
        values_ok::<Pkg>(&post),
        tbl_idx::<Pkg>(&post, 0) == tbl_idx::<Pkg>(&pre, 0),
        tbl::<PkgRepo>(&post) == tbl::<PkgRepo>(&pre),
        values_ok::<PkgRepo>(&post),
        tbl::<Advisory>(&post) == tbl::<Advisory>(&pre),
        values_ok::<Advisory>(&post),
        tbl_idx::<Advisory>(&post, 0) == tbl_idx::<Advisory>(&pre, 0),
        tbl::<AdvisoryRepo>(&post) == tbl::<AdvisoryRepo>(&pre),
        values_ok::<AdvisoryRepo>(&post),
        tbl::<PkgAdvisory>(&post) == tbl::<PkgAdvisory>(&pre),
        values_ok::<PkgAdvisory>(&post),
        tbl::<Module>(&post) == tbl::<Module>(&pre),
        values_ok::<Module>(&post),
        tbl_idx::<Module>(&post, 0) == tbl_idx::<Module>(&pre, 0),
{
    lemma_sync_names();
    assert(tbl::<Pkg>(&post) == tbl::<Pkg>(&pre)) by {
        assert(!touches::<ModuleStream>(<Pkg as Table>::table_name()));
    }
    lemma_values_ok_frame::<Pkg>(&pre, &post);
    assert(tbl_idx::<Pkg>(&post, 0) == tbl_idx::<Pkg>(&pre, 0)) by {
        assert(!touches::<ModuleStream>(<Pkg as Table>::index_names_spec()[0]));
    }
    assert(tbl::<PkgRepo>(&post) == tbl::<PkgRepo>(&pre)) by {
        assert(!touches::<ModuleStream>(<PkgRepo as Table>::table_name()));
    }
    lemma_values_ok_frame::<PkgRepo>(&pre, &post);
    assert(tbl::<Advisory>(&post) == tbl::<Advisory>(&pre)) by {
        assert(!touches::<ModuleStream>(<Advisory as Table>::table_name()));
    }
    lemma_values_ok_frame::<Advisory>(&pre, &post);
    assert(tbl_idx::<Advisory>(&post, 0) == tbl_idx::<Advisory>(&pre, 0)) by {
        assert(!touches::<ModuleStream>(<Advisory as Table>::index_names_spec()[0]));
    }
    assert(tbl::<AdvisoryRepo>(&post) == tbl::<AdvisoryRepo>(&pre)) by {
        assert(!touches::<ModuleStream>(<AdvisoryRepo as Table>::table_name()));
    }
    lemma_values_ok_frame::<AdvisoryRepo>(&pre, &post);
    assert(tbl::<PkgAdvisory>(&post) == tbl::<PkgAdvisory>(&pre)) by {
        assert(!touches::<ModuleStream>(<PkgAdvisory as Table>::table_name()));
    }
    lemma_values_ok_frame::<PkgAdvisory>(&pre, &post);
    assert(tbl::<Module>(&post) == tbl::<Module>(&pre)) by {
        assert(!touches::<ModuleStream>(<Module as Table>::table_name()));
    }
    lemma_values_ok_frame::<Module>(&pre, &post);
    assert(tbl_idx::<Module>(&post, 0) == tbl_idx::<Module>(&pre, 0)) by {
        assert(!touches::<ModuleStream>(<Module as Table>::index_names_spec()[0]));
    }
}

/// Upsert one advisory by name: every field but the surrogate id is the
/// incoming advisory's, and the name index finds it.
#[verifier::rlimit(100)]
#[verifier::spinoff_prover]
fn upsert_advisory(w: &mut Wtx, adv: Advisory) -> (r: Advisory)
    requires
        sync_store_ok(&old(w).work),
    ensures
        sync_store_ok(&final(w).work),
        forall|n2: Seq<char>| final(w).work.holds(n2) == old(w).work.holds(n2),
        has_key(
            tbl::<Advisory>(&final(w).work),
            <Advisory as Table>::enc_key_spec(<Advisory as Table>::row_key_model(r@)),
        ),
        r@.1 == adv@.1 && r@.2 == adv@.2 && r@.3 == adv@.3 && r@.4 == adv@.4 && r@.5 == adv@.5
            && r@.6 == adv@.6,
        // an advisory already stored under this name keeps its id
        ({
            let iks = crate::keys::ks_str_raw(adv@.2);
            let iat = old(w).work.at(<Advisory as Table>::index_names_spec()[0]);
            if has_key(iat, iks) && has_key(tbl::<Advisory>(&old(w).work), val_of(iat, iks)) {
                r@.0 == crate::table::val_model_of::<Advisory>(
                    val_of(tbl::<Advisory>(&old(w).work), val_of(iat, iks)),
                ).0
            } else {
                r@.0 == adv@.0
            }
        }),
        forall|k2: Seq<u8>|
            has_key(tbl::<Advisory>(&old(w).work), k2) ==> #[trigger] has_key(
                tbl::<Advisory>(&final(w).work),
                k2,
            ),
        has_key(tbl_idx::<Advisory>(&final(w).work, 0), crate::keys::ks_str_raw(adv@.2)),
        forall|ik2: Seq<u8>|
            has_key(tbl_idx::<Advisory>(&old(w).work, 0), ik2) ==> #[trigger] has_key(
                tbl_idx::<Advisory>(&final(w).work, 0),
                ik2,
            ),
        tbl::<Pkg>(&final(w).work) == tbl::<Pkg>(&old(w).work),
        tbl_idx::<Pkg>(&final(w).work, 0) == tbl_idx::<Pkg>(&old(w).work, 0),
        tbl::<PkgRepo>(&final(w).work) == tbl::<PkgRepo>(&old(w).work),
        tbl::<AdvisoryRepo>(&final(w).work) == tbl::<AdvisoryRepo>(&old(w).work),
        tbl::<PkgAdvisory>(&final(w).work) == tbl::<PkgAdvisory>(&old(w).work),
        tbl::<Module>(&final(w).work) == tbl::<Module>(&old(w).work),
        tbl_idx::<Module>(&final(w).work, 0) == tbl_idx::<Module>(&old(w).work, 0),
        tbl::<ModuleStream>(&final(w).work) == tbl::<ModuleStream>(&old(w).work),
        tbl_idx::<ModuleStream>(&final(w).work, 0) == tbl_idx::<ModuleStream>(&old(w).work, 0),
{
    let ghost before = w.work;
    let stored = w.put_by::<AdvisoryNameIdx>(adv);
    proof {
        lemma_sync_names();
        lemma_frame_after_advisory(before, w.work);

        lemma_keys_monotone(
            tbl::<Advisory>(&before),
            tbl::<Advisory>(&w.work),
            <Advisory as Table>::enc_key_spec(<Advisory as Table>::row_key_model(stored@)),
        );
        assert(<Advisory as Table>::index_keys_spec(stored@)[0] == crate::keys::ks_str_raw(adv@.2));
        lemma_keys_monotone(
            tbl_idx::<Advisory>(&before, 0),
            tbl_idx::<Advisory>(&w.work, 0),
            <Advisory as Table>::index_keys_spec(stored@)[0],
        );
    }
    stored
}

/// Link one advisory to the repository.
#[verifier::rlimit(100)]
#[verifier::spinoff_prover]
fn link_advisory(w: &mut Wtx, adv_id: Uuid, repo_id: Uuid) -> (r: AdvisoryRepo)
    requires
        sync_store_ok(&old(w).work),
    ensures
        sync_store_ok(&final(w).work),
        forall|n2: Seq<char>| final(w).work.holds(n2) == old(w).work.holds(n2),
        has_key(
            tbl::<AdvisoryRepo>(&final(w).work),
            crate::data::id_pair_bytes((adv_id@, repo_id@)),
        ),
        forall|k2: Seq<u8>|
            has_key(tbl::<AdvisoryRepo>(&old(w).work), k2) ==> #[trigger] has_key(
                tbl::<AdvisoryRepo>(&final(w).work),
                k2,
            ),

        tbl::<Pkg>(&final(w).work) == tbl::<Pkg>(&old(w).work),
        tbl_idx::<Pkg>(&final(w).work, 0) == tbl_idx::<Pkg>(&old(w).work, 0),
        tbl::<PkgRepo>(&final(w).work) == tbl::<PkgRepo>(&old(w).work),
        tbl::<Advisory>(&final(w).work) == tbl::<Advisory>(&old(w).work),
        tbl_idx::<Advisory>(&final(w).work, 0) == tbl_idx::<Advisory>(&old(w).work, 0),
        tbl::<PkgAdvisory>(&final(w).work) == tbl::<PkgAdvisory>(&old(w).work),
        tbl::<Module>(&final(w).work) == tbl::<Module>(&old(w).work),
        tbl_idx::<Module>(&final(w).work, 0) == tbl_idx::<Module>(&old(w).work, 0),
        tbl::<ModuleStream>(&final(w).work) == tbl::<ModuleStream>(&old(w).work),
        tbl_idx::<ModuleStream>(&final(w).work, 0) == tbl_idx::<ModuleStream>(&old(w).work, 0),
{
    let ghost before = w.work;
    let link = AdvisoryRepo(AdvisoryRepoId { adv_id, repo_id });
    w.put::<AdvisoryRepo>(&link);
    proof {
        lemma_sync_names();
        lemma_frame_after_advisoryrepo(before, w.work);

        lemma_keys_monotone(
            tbl::<AdvisoryRepo>(&before),
            tbl::<AdvisoryRepo>(&w.work),
            <AdvisoryRepo as Table>::enc_key_spec(<AdvisoryRepo as Table>::row_key_model(link@)),
        );

    }
    link
}

/// Upsert one module by attributes: the stored row keeps the incoming
/// attributes, under the stored surrogate id if the attributes were known.
#[verifier::rlimit(100)]
#[verifier::spinoff_prover]
fn upsert_module(w: &mut Wtx, module: Module) -> (r: Module)
    requires
        sync_store_ok(&old(w).work),
    ensures
        sync_store_ok(&final(w).work),
        forall|n2: Seq<char>| final(w).work.holds(n2) == old(w).work.holds(n2),
        has_key(
            tbl::<Module>(&final(w).work),
            <Module as Table>::enc_key_spec(<Module as Table>::row_key_model(r@)),
        ),
        r@.1 == module@.1 && r@.2 == module@.2 && r@.3 == module@.3,
        // a module already stored under these attributes keeps its id
        ({
            let iks = crate::data::module_attrs_bytes((module@.1, module@.2, module@.3));
            let iat = old(w).work.at(<Module as Table>::index_names_spec()[0]);
            if has_key(iat, iks) && has_key(tbl::<Module>(&old(w).work), val_of(iat, iks)) {
                r@.0 == crate::table::val_model_of::<Module>(
                    val_of(tbl::<Module>(&old(w).work), val_of(iat, iks)),
                ).0
            } else {
                r@.0 == module@.0
            }
        }),
        // the attribute entry points exactly at the stored row
        val_of(
            tbl_idx::<Module>(&final(w).work, 0),
            crate::data::module_attrs_bytes((module@.1, module@.2, module@.3)),
        ) == <Module as Table>::enc_key_spec(<Module as Table>::row_key_model(r@)),
        val_of(
            tbl::<Module>(&final(w).work),
            <Module as Table>::enc_key_spec(<Module as Table>::row_key_model(r@)),
        ) == <Module as Table>::enc_val_spec(r@),
        // entries backed by a live row keep their target
        forall|ik2: Seq<u8>|
            #![trigger val_of(tbl_idx::<Module>(&final(w).work, 0), ik2)]
            has_key(tbl_idx::<Module>(&old(w).work, 0), ik2) && has_key(
                tbl::<Module>(&old(w).work),
                val_of(tbl_idx::<Module>(&old(w).work, 0), ik2),
            ) ==> val_of(tbl_idx::<Module>(&final(w).work, 0), ik2) == val_of(
                tbl_idx::<Module>(&old(w).work, 0),
                ik2,
            ),
        forall|k2: Seq<u8>|
            has_key(tbl::<Module>(&old(w).work), k2) ==> #[trigger] has_key(
                tbl::<Module>(&final(w).work),
                k2,
            ),
        has_key(tbl_idx::<Module>(&final(w).work, 0), crate::data::module_attrs_bytes((module@.1, module@.2, module@.3))),
        forall|ik2: Seq<u8>|
            has_key(tbl_idx::<Module>(&old(w).work, 0), ik2) ==> #[trigger] has_key(
                tbl_idx::<Module>(&final(w).work, 0),
                ik2,
            ),
        tbl::<Pkg>(&final(w).work) == tbl::<Pkg>(&old(w).work),
        tbl_idx::<Pkg>(&final(w).work, 0) == tbl_idx::<Pkg>(&old(w).work, 0),
        tbl::<PkgRepo>(&final(w).work) == tbl::<PkgRepo>(&old(w).work),
        tbl::<Advisory>(&final(w).work) == tbl::<Advisory>(&old(w).work),
        tbl_idx::<Advisory>(&final(w).work, 0) == tbl_idx::<Advisory>(&old(w).work, 0),
        tbl::<AdvisoryRepo>(&final(w).work) == tbl::<AdvisoryRepo>(&old(w).work),
        tbl::<PkgAdvisory>(&final(w).work) == tbl::<PkgAdvisory>(&old(w).work),
        tbl::<ModuleStream>(&final(w).work) == tbl::<ModuleStream>(&old(w).work),
        tbl_idx::<ModuleStream>(&final(w).work, 0) == tbl_idx::<ModuleStream>(&old(w).work, 0),
{
    let ghost before = w.work;
    let ghost module0 = module;
    let stored = w.put_by::<ModuleAttrsIdx>(module);
    proof {
        lemma_sync_names();
        lemma_frame_after_module(before, w.work);
        assert(<Module as Table>::index_keys_spec(stored@)[0] == crate::data::module_attrs_bytes(
            (module0@.1, module0@.2, module0@.3),
        ));
        // a live entry under the written attributes keeps its target: the
        // rebound row carries the found row's key
        let ik = <Module as Table>::index_keys_spec(stored@)[0];
        let iat = before.at(<Module as Table>::index_names_spec()[0]);
        if has_key(iat, ik) && has_key(tbl::<Module>(&before), val_of(iat, ik)) {
            let pk = val_of(iat, ik);
            let j = crate::store::idx_of(tbl::<Module>(&before), pk);
            assert(0 <= j < tbl::<Module>(&before).len() && tbl::<Module>(&before)[j].0 == pk);
            crate::ops::lemma_at_sorted(&before, <Module as Table>::table_name());
            crate::store::lemma_idx_at(tbl::<Module>(&before), j);
            assert(<Module as Table>::enc_key_spec(
                <Module as Table>::row_key_model(
                    crate::table::val_model_of::<Module>(tbl::<Module>(&before)[j].1),
                ),
            ) == pk);
        }

        lemma_keys_monotone(
            tbl::<Module>(&before),
            tbl::<Module>(&w.work),
            <Module as Table>::enc_key_spec(<Module as Table>::row_key_model(stored@)),
        );
        assert(<Module as Table>::index_keys_spec(stored@)[0] == crate::data::module_attrs_bytes((module@.1, module@.2, module@.3)));
        lemma_keys_monotone(
            tbl_idx::<Module>(&before, 0),
            tbl_idx::<Module>(&w.work, 0),
            <Module as Table>::index_keys_spec(stored@)[0],
        );
    }
    stored
}

/// Upsert one package by NEVRA: the stored row carries the incoming NEVRA
/// entirely; a package already stored under that NEVRA keeps its stored
/// surrogate id, otherwise the incoming id is used. The NEVRA index maps
/// the incoming NEVRA to the stored row.
#[verifier::rlimit(100)]
#[verifier::spinoff_prover]
fn upsert_pkg_full(w: &mut Wtx, pkg: Pkg) -> (r: Pkg)
    requires
        sync_store_ok(&old(w).work),
    ensures
        sync_store_ok(&final(w).work),
        forall|n2: Seq<char>| final(w).work.holds(n2) == old(w).work.holds(n2),
        r@.1 == pkg@.1 && r@.2 == pkg@.2 && r@.3 == pkg@.3 && r@.4 == pkg@.4 && r@.5 == pkg@.5,
        // the surrogate id stays stable: a NEVRA hit keeps the stored id
        ({
            let iks = crate::data::nevra_bytes((pkg@.1, pkg@.2, pkg@.3, pkg@.4, pkg@.5));
            let iat = old(w).work.at(<Pkg as Table>::index_names_spec()[0]);
            if has_key(iat, iks) && has_key(tbl::<Pkg>(&old(w).work), val_of(iat, iks)) {
                r@.0 == crate::table::val_model_of::<Pkg>(
                    val_of(tbl::<Pkg>(&old(w).work), val_of(iat, iks)),
                ).0
            } else {
                r@.0 == pkg@.0
            }
        }),
        has_key(
            tbl::<Pkg>(&final(w).work),
            <Pkg as Table>::enc_key_spec(<Pkg as Table>::row_key_model(r@)),
        ),
        val_of(
            tbl::<Pkg>(&final(w).work),
            <Pkg as Table>::enc_key_spec(<Pkg as Table>::row_key_model(r@)),
        ) == <Pkg as Table>::enc_val_spec(r@),
        has_key(
            tbl_idx::<Pkg>(&final(w).work, 0),
            crate::data::nevra_bytes((pkg@.1, pkg@.2, pkg@.3, pkg@.4, pkg@.5)),
        ),
        // the entry under the incoming NEVRA points exactly at the stored row
        val_of(
            tbl_idx::<Pkg>(&final(w).work, 0),
            crate::data::nevra_bytes((pkg@.1, pkg@.2, pkg@.3, pkg@.4, pkg@.5)),
        ) == <Pkg as Table>::enc_key_spec(<Pkg as Table>::row_key_model(r@)),
        forall|k2: Seq<u8>|
            has_key(tbl::<Pkg>(&old(w).work), k2) ==> #[trigger] has_key(
                tbl::<Pkg>(&final(w).work),
                k2,
            ),
        forall|ik2: Seq<u8>|
            has_key(tbl_idx::<Pkg>(&old(w).work, 0), ik2) ==> #[trigger] has_key(
                tbl_idx::<Pkg>(&final(w).work, 0),
                ik2,
            ),
        tbl::<PkgRepo>(&final(w).work) == tbl::<PkgRepo>(&old(w).work),
        tbl::<Advisory>(&final(w).work) == tbl::<Advisory>(&old(w).work),
        tbl_idx::<Advisory>(&final(w).work, 0) == tbl_idx::<Advisory>(&old(w).work, 0),
        tbl::<AdvisoryRepo>(&final(w).work) == tbl::<AdvisoryRepo>(&old(w).work),
        tbl::<PkgAdvisory>(&final(w).work) == tbl::<PkgAdvisory>(&old(w).work),
        tbl::<Module>(&final(w).work) == tbl::<Module>(&old(w).work),
        tbl_idx::<Module>(&final(w).work, 0) == tbl_idx::<Module>(&old(w).work, 0),
        tbl::<ModuleStream>(&final(w).work) == tbl::<ModuleStream>(&old(w).work),
        tbl_idx::<ModuleStream>(&final(w).work, 0) == tbl_idx::<ModuleStream>(&old(w).work, 0),
{
    let ghost before = w.work;
    let ghost pkg0 = pkg;
    let stored = w.put_by::<PkgNevraIdx>(pkg);
    proof {
        lemma_sync_names();
        lemma_frame_after_pkg(before, w.work);
        lemma_keys_monotone(
            tbl::<Pkg>(&before),
            tbl::<Pkg>(&w.work),
            <Pkg as Table>::enc_key_spec(<Pkg as Table>::row_key_model(stored@)),
        );
        // the row the upsert wrote projects to the incoming NEVRA
        assert(<Pkg as Table>::index_keys_spec(stored@)[0] == crate::data::nevra_bytes(
            (pkg0@.1, pkg0@.2, pkg0@.3, pkg0@.4, pkg0@.5),
        ));
        lemma_keys_monotone(
            tbl_idx::<Pkg>(&before, 0),
            tbl_idx::<Pkg>(&w.work, 0),
            <Pkg as Table>::index_keys_spec(stored@)[0],
        );
    }
    stored
}

/// Link one package to the repository.
#[verifier::rlimit(100)]
#[verifier::spinoff_prover]
fn link_pkg_full(w: &mut Wtx, pkg_id: Uuid, repo_id: Uuid) -> (r: PkgRepo)
    requires
        sync_store_ok(&old(w).work),
    ensures
        sync_store_ok(&final(w).work),
        forall|n2: Seq<char>| final(w).work.holds(n2) == old(w).work.holds(n2),
        has_key(
            tbl::<PkgRepo>(&final(w).work),
            crate::data::id_pair_bytes((pkg_id@, repo_id@)),
        ),
        forall|k2: Seq<u8>|
            has_key(tbl::<PkgRepo>(&old(w).work), k2) ==> #[trigger] has_key(
                tbl::<PkgRepo>(&final(w).work),
                k2,
            ),

        tbl::<Pkg>(&final(w).work) == tbl::<Pkg>(&old(w).work),
        tbl_idx::<Pkg>(&final(w).work, 0) == tbl_idx::<Pkg>(&old(w).work, 0),
        tbl::<Advisory>(&final(w).work) == tbl::<Advisory>(&old(w).work),
        tbl_idx::<Advisory>(&final(w).work, 0) == tbl_idx::<Advisory>(&old(w).work, 0),
        tbl::<AdvisoryRepo>(&final(w).work) == tbl::<AdvisoryRepo>(&old(w).work),
        tbl::<PkgAdvisory>(&final(w).work) == tbl::<PkgAdvisory>(&old(w).work),
        tbl::<Module>(&final(w).work) == tbl::<Module>(&old(w).work),
        tbl_idx::<Module>(&final(w).work, 0) == tbl_idx::<Module>(&old(w).work, 0),
        tbl::<ModuleStream>(&final(w).work) == tbl::<ModuleStream>(&old(w).work),
        tbl_idx::<ModuleStream>(&final(w).work, 0) == tbl_idx::<ModuleStream>(&old(w).work, 0),
{
    let ghost before = w.work;
    let link = PkgRepo(PkgRepoId { pkg_id, repo_id });
    w.put::<PkgRepo>(&link);
    proof {
        lemma_sync_names();
        lemma_frame_after_pkgrepo(before, w.work);

        lemma_keys_monotone(
            tbl::<PkgRepo>(&before),
            tbl::<PkgRepo>(&w.work),
            <PkgRepo as Table>::enc_key_spec(<PkgRepo as Table>::row_key_model(link@)),
        );

    }
    link
}

/// Link one package to one advisory, through the stream it came by.
#[verifier::rlimit(100)]
#[verifier::spinoff_prover]
fn link_pkg_advisory(w: &mut Wtx, pkg_id: Uuid, adv_id: Uuid, stream_id: Option<Uuid>) -> (r: PkgAdvisory)
    requires
        sync_store_ok(&old(w).work),
    ensures
        sync_store_ok(&final(w).work),
        forall|n2: Seq<char>| final(w).work.holds(n2) == old(w).work.holds(n2),
        has_key(
            tbl::<PkgAdvisory>(&final(w).work),
            crate::data::pkg_advisory_id_bytes(
                (pkg_id@, adv_id@, crate::data::opt_uuid_view(stream_id)),
            ),
        ),
        forall|k2: Seq<u8>|
            has_key(tbl::<PkgAdvisory>(&old(w).work), k2) ==> #[trigger] has_key(
                tbl::<PkgAdvisory>(&final(w).work),
                k2,
            ),

        tbl::<Pkg>(&final(w).work) == tbl::<Pkg>(&old(w).work),
        tbl_idx::<Pkg>(&final(w).work, 0) == tbl_idx::<Pkg>(&old(w).work, 0),
        tbl::<PkgRepo>(&final(w).work) == tbl::<PkgRepo>(&old(w).work),
        tbl::<Advisory>(&final(w).work) == tbl::<Advisory>(&old(w).work),
        tbl_idx::<Advisory>(&final(w).work, 0) == tbl_idx::<Advisory>(&old(w).work, 0),
        tbl::<AdvisoryRepo>(&final(w).work) == tbl::<AdvisoryRepo>(&old(w).work),
        tbl::<Module>(&final(w).work) == tbl::<Module>(&old(w).work),
        tbl_idx::<Module>(&final(w).work, 0) == tbl_idx::<Module>(&old(w).work, 0),
        tbl::<ModuleStream>(&final(w).work) == tbl::<ModuleStream>(&old(w).work),
        tbl_idx::<ModuleStream>(&final(w).work, 0) == tbl_idx::<ModuleStream>(&old(w).work, 0),
{
    let ghost before = w.work;
    let link = PkgAdvisory(PkgAdvisoryId { pkg_id, adv_id, stream_id });
    w.put::<PkgAdvisory>(&link);
    proof {
        lemma_sync_names();
        lemma_frame_after_pkgadvisory(before, w.work);

        lemma_keys_monotone(
            tbl::<PkgAdvisory>(&before),
            tbl::<PkgAdvisory>(&w.work),
            <PkgAdvisory as Table>::enc_key_spec(<PkgAdvisory as Table>::row_key_model(link@)),
        );

    }
    link
}

/// Upsert one module stream by attributes, carrying the stored stream's
/// default flag forward where one was stored.
#[verifier::rlimit(100)]
#[verifier::spinoff_prover]
fn upsert_stream(w: &mut Wtx, stream: ModuleStream) -> (r: ModuleStream)
    requires
        sync_store_ok(&old(w).work),
    ensures
        sync_store_ok(&final(w).work),
        forall|n2: Seq<char>| final(w).work.holds(n2) == old(w).work.holds(n2),
        has_key(
            tbl::<ModuleStream>(&final(w).work),
            <ModuleStream as Table>::enc_key_spec(<ModuleStream as Table>::row_key_model(r@)),
        ),
        r@.1 == stream@.1 && r@.2 == stream@.2 && r@.3 == stream@.3 && r@.4 == stream@.4,
        ({
            let iks = <ModuleStream as Table>::index_keys_spec(stream@)[0];
            let iat = old(w).work.at(<ModuleStream as Table>::index_names_spec()[0]);
            if has_key(iat, iks) && has_key(tbl::<ModuleStream>(&old(w).work), val_of(iat, iks)) {
                r@.5 == crate::table::val_model_of::<ModuleStream>(
                    val_of(tbl::<ModuleStream>(&old(w).work), val_of(iat, iks)),
                ).5
            } else {
                r@.5 == stream@.5
            }
        }),
        // the attribute entry points exactly at the stored row
        val_of(
            tbl_idx::<ModuleStream>(&final(w).work, 0),
            crate::data::stream_attrs_bytes((stream@.1, stream@.2, stream@.3, stream@.4)),
        ) == <ModuleStream as Table>::enc_key_spec(<ModuleStream as Table>::row_key_model(r@)),
        val_of(
            tbl::<ModuleStream>(&final(w).work),
            <ModuleStream as Table>::enc_key_spec(<ModuleStream as Table>::row_key_model(r@)),
        ) == <ModuleStream as Table>::enc_val_spec(r@),
        forall|k2: Seq<u8>|
            has_key(tbl::<ModuleStream>(&old(w).work), k2) ==> #[trigger] has_key(
                tbl::<ModuleStream>(&final(w).work),
                k2,
            ),
        has_key(tbl_idx::<ModuleStream>(&final(w).work, 0), crate::data::stream_attrs_bytes((stream@.1, stream@.2, stream@.3, stream@.4))),
        forall|ik2: Seq<u8>|
            has_key(tbl_idx::<ModuleStream>(&old(w).work, 0), ik2) ==> #[trigger] has_key(
                tbl_idx::<ModuleStream>(&final(w).work, 0),
                ik2,
            ),
        tbl::<Pkg>(&final(w).work) == tbl::<Pkg>(&old(w).work),
        tbl_idx::<Pkg>(&final(w).work, 0) == tbl_idx::<Pkg>(&old(w).work, 0),
        tbl::<PkgRepo>(&final(w).work) == tbl::<PkgRepo>(&old(w).work),
        tbl::<Advisory>(&final(w).work) == tbl::<Advisory>(&old(w).work),
        tbl_idx::<Advisory>(&final(w).work, 0) == tbl_idx::<Advisory>(&old(w).work, 0),
        tbl::<AdvisoryRepo>(&final(w).work) == tbl::<AdvisoryRepo>(&old(w).work),
        tbl::<PkgAdvisory>(&final(w).work) == tbl::<PkgAdvisory>(&old(w).work),
        tbl::<Module>(&final(w).work) == tbl::<Module>(&old(w).work),
        tbl_idx::<Module>(&final(w).work, 0) == tbl_idx::<Module>(&old(w).work, 0),
{
    let ghost before = w.work;
    let ghost ghost_stream = stream;
    let keep_default = |old_row: ModuleStream, nv: ModuleStream| -> (res: ModuleStream)
        ensures
            res@ == (old_row@.0, nv@.1, nv@.2, nv@.3, nv@.4, old_row@.5),
        {
            let mut out = nv;
            out.adopt_key(&old_row);
            out.default = old_row.default;
            out
        };
    let stored = w.put_by_with::<StreamAttrsIdx, _>(stream, keep_default);
    proof {
        lemma_sync_names();
        lemma_frame_after_modulestream(before, w.work);
        {
            let ghost iks = <ModuleStream as Table>::index_keys_spec(ghost_stream@)[0];
            let ghost iat = before.at(<ModuleStream as Table>::index_names_spec()[0]);
            if has_key(iat, iks) && has_key(tbl::<ModuleStream>(&before), val_of(iat, iks)) {
                let ghost ov = choose|ov: ModuleStream|
                    ov@ == crate::table::val_model_of::<ModuleStream>(
                        val_of(tbl::<ModuleStream>(&before), val_of(iat, iks)),
                    ) && #[trigger] call_ensures(keep_default, (ov, ghost_stream), stored);
            }
        }
        lemma_keys_monotone(
            tbl::<ModuleStream>(&before),
            tbl::<ModuleStream>(&w.work),
            <ModuleStream as Table>::enc_key_spec(<ModuleStream as Table>::row_key_model(stored@)),
        );
        assert(<ModuleStream as Table>::index_keys_spec(stored@)[0] == crate::data::stream_attrs_bytes((stream@.1, stream@.2, stream@.3, stream@.4)));
        lemma_keys_monotone(
            tbl_idx::<ModuleStream>(&before, 0),
            tbl_idx::<ModuleStream>(&w.work, 0),
            <ModuleStream as Table>::index_keys_spec(stored@)[0],
        );
    }
    stored
}

/// What one advisory entry contributes: the advisory row and each package,
/// with the module its collection named, if any.
pub struct AdvisoryBatch {
    pub adv: Advisory,
    pub pkgs: Vec<(Pkg, Option<crate::updateinfo::Module>)>,
}

/// The packages one collection contributes, each paired with the
/// collection's module.
pub open spec fn coll_pairs(c: crate::updateinfo::Collection) -> Seq<
    (crate::updateinfo::Package, Option<crate::updateinfo::Module>),
> {
    c.package@.map_values(
        |p: crate::updateinfo::Package| (p, c.module),
    )
}

/// The packages a sequence of collections contributes, in order.
pub open spec fn colls_pairs(cs: Seq<crate::updateinfo::Collection>) -> Seq<
    (crate::updateinfo::Package, Option<crate::updateinfo::Module>),
>
    decreases cs.len(),
{
    if cs.len() == 0 {
        Seq::empty()
    } else {
        coll_pairs(cs[0]) + colls_pairs(cs.skip(1))
    }
}

/// The packages a whole package list contributes, in order.
pub open spec fn pl_pairs(pls: Seq<crate::updateinfo::PkgList>) -> Seq<
    (crate::updateinfo::Package, Option<crate::updateinfo::Module>),
>
    decreases pls.len(),
{
    if pls.len() == 0 {
        Seq::empty()
    } else {
        colls_pairs(pls[0].collection@) + pl_pairs(pls.skip(1))
    }
}

proof fn lemma_colls_snoc(cs: Seq<crate::updateinfo::Collection>, j: int)
    requires
        0 <= j < cs.len(),
    ensures
        colls_pairs(cs.take(j + 1)) == colls_pairs(cs.take(j)) + coll_pairs(cs[j]),
    decreases j,
{
    if j == 0 {
        assert(cs.take(1)[0] == cs[0]);
        assert(cs.take(1).skip(1) =~= Seq::<crate::updateinfo::Collection>::empty());
        assert(cs.take(0) =~= Seq::<crate::updateinfo::Collection>::empty());
        assert(colls_pairs(cs.take(1)) =~= colls_pairs(cs.take(0)) + coll_pairs(cs[0]));
    } else {
        lemma_colls_snoc(cs.skip(1), j - 1);
        assert(cs.take(j + 1)[0] == cs[0]);
        assert(cs.take(j + 1).skip(1) =~= cs.skip(1).take(j));
        assert(cs.take(j)[0] == cs[0]);
        assert(cs.take(j).skip(1) =~= cs.skip(1).take(j - 1));
        assert(cs.skip(1)[j - 1] == cs[j]);
        assert(colls_pairs(cs.take(j + 1)) =~= colls_pairs(cs.take(j)) + coll_pairs(cs[j]));
    }
}

proof fn lemma_pl_snoc(pls: Seq<crate::updateinfo::PkgList>, i: int)
    requires
        0 <= i < pls.len(),
    ensures
        pl_pairs(pls.take(i + 1)) == pl_pairs(pls.take(i)) + colls_pairs(pls[i].collection@),
    decreases i,
{
    if i == 0 {
        assert(pls.take(1)[0] == pls[0]);
        assert(pls.take(1).skip(1) =~= Seq::<crate::updateinfo::PkgList>::empty());
        assert(pls.take(0) =~= Seq::<crate::updateinfo::PkgList>::empty());
        assert(pl_pairs(pls.take(1)) =~= pl_pairs(pls.take(0)) + colls_pairs(
            pls[0].collection@,
        ));
    } else {
        lemma_pl_snoc(pls.skip(1), i - 1);
        assert(pls.take(i + 1)[0] == pls[0]);
        assert(pls.take(i + 1).skip(1) =~= pls.skip(1).take(i));
        assert(pls.take(i)[0] == pls[0]);
        assert(pls.take(i).skip(1) =~= pls.skip(1).take(i - 1));
        assert(pls.skip(1)[i - 1] == pls[i]);
        assert(pl_pairs(pls.take(i + 1)) =~= pl_pairs(pls.take(i)) + colls_pairs(
            pls[i].collection@,
        ));
    }
}

/// A built batch entry carries exactly one document package: the fields
/// converted, the collection's module alongside.
pub open spec fn pair_corr(
    built: (Pkg, Option<crate::updateinfo::Module>),
    doc: (crate::updateinfo::Package, Option<crate::updateinfo::Module>),
) -> bool {
    &&& built.0@.1 == doc.0.name@
    &&& built.0@.2 == epoch_spec(doc.0.epoch@)
    &&& built.0@.3 == doc.0.version@
    &&& built.0@.4 == doc.0.release@
    &&& built.0@.5 == doc.0.arch@
    &&& opt_module_view(&built.1) == opt_module_view(&doc.1)
}

/// The batch packages correspond one to one, in order, to the document's.
pub open spec fn batch_corr(
    built: Seq<(Pkg, Option<crate::updateinfo::Module>)>,
    docs: Seq<(crate::updateinfo::Package, Option<crate::updateinfo::Module>)>,
) -> bool {
    &&& built.len() == docs.len()
    &&& forall|j: int| 0 <= j < built.len() ==> pair_corr(#[trigger] built[j], docs[j])
}

/// Convert one update entry into rows: an advisory under a fresh id, and
/// one package row per package of every collection of the update's package
/// list, each under a fresh id and paired with its collection's module.
/// Nothing is written.
#[verifier::rlimit(100)]
pub fn on_update(db: &Database, up: &crate::updateinfo::Update) -> (r: AdvisoryBatch)
    ensures
        r.adv@.1 == up.typ@,
        r.adv@.2 == up.id@,
        r.adv@.3 == opt_str_view(&up.summary),
        r.adv@.4 == opt_str_view(&up.description),
        r.adv@.5 == up.issued.date@,
        r.adv@.6 == up.updated.date@,
        batch_corr(r.pkgs@, pl_pairs(up.pkglist@)),
{
    let adv = advisory_from_update(up, db.generate_id());
    let mut pkgs: Vec<(Pkg, Option<crate::updateinfo::Module>)> = Vec::new();
    let npl: usize = up.pkglist.len();
    proof {
        assert(up.pkglist@.take(0) =~= Seq::<crate::updateinfo::PkgList>::empty());
    }
    let mut i: usize = 0;
    while i < npl
        invariant
            0 <= i <= npl,
            npl == up.pkglist@.len(),
            batch_corr(pkgs@, pl_pairs(up.pkglist@.take(i as int))),
        decreases npl - i,
    {
        let ncol: usize = up.pkglist[i].collection.len();
        let ghost colls = up.pkglist@[i as int].collection@;
        proof {
            assert(colls.take(0) =~= Seq::<crate::updateinfo::Collection>::empty());
        }
        let mut j: usize = 0;
        while j < ncol
            invariant
                0 <= i < npl,
                npl == up.pkglist@.len(),
                0 <= j <= ncol,
                ncol == colls.len(),
                colls == up.pkglist@[i as int].collection@,
                batch_corr(
                    pkgs@,
                    pl_pairs(up.pkglist@.take(i as int)) + colls_pairs(colls.take(j as int)),
                ),
            decreases ncol - j,
        {
            let col = &up.pkglist[i].collection[j];
            let npk: usize = col.package.len();
            let ghost cur = colls[j as int];
            let mut q: usize = 0;
            while q < npk
                invariant
                    0 <= q <= npk,
                    npk == cur.package@.len(),
                    cur == colls[j as int],
                    0 <= j < ncol,
                    ncol == colls.len(),
                    colls == up.pkglist@[i as int].collection@,
                    0 <= i < npl,
                    npl == up.pkglist@.len(),
                    col == &up.pkglist@[i as int].collection@[j as int],
                    pkgs@.len() == (pl_pairs(up.pkglist@.take(i as int)) + colls_pairs(
                        colls.take(j as int),
                    )).len() + q,
                    batch_corr(
                        pkgs@.take(
                            (pl_pairs(up.pkglist@.take(i as int)) + colls_pairs(
                                colls.take(j as int),
                            )).len() as int,
                        ),
                        pl_pairs(up.pkglist@.take(i as int)) + colls_pairs(colls.take(j as int)),
                    ),
                    forall|z: int|
                        0 <= z < q ==> pair_corr(
                            #[trigger] pkgs@[(pl_pairs(up.pkglist@.take(i as int)) + colls_pairs(
                                colls.take(j as int),
                            )).len() + z],
                            (cur.package@[z], cur.module),
                        ),
                decreases npk - q,
            {
                let p = pkg_from_update_package(&col.package[q], db.generate_id());
                let md = match &col.module {
                    Some(m) => Some(
                        crate::updateinfo::Module {
                            name: m.name.clone(),
                            stream: m.stream.clone(),
                            arch: m.arch.clone(),
                            version: m.version.clone(),
                            context: m.context.clone(),
                        },
                    ),
                    None => None,
                };
                proof {
                    assert(opt_module_view(&md) == opt_module_view(&cur.module));
                }
                let ghost pre_pkgs = pkgs@;
                pkgs.push((p, md));
                proof {
                    let base = (pl_pairs(up.pkglist@.take(i as int)) + colls_pairs(
                        colls.take(j as int),
                    )).len() as int;
                    assert(pkgs@.take(base) =~= pre_pkgs.take(base));
                    assert forall|z: int|
                        0 <= z < q + 1 implies pair_corr(
                        #[trigger] pkgs@[base + z],
                        (cur.package@[z], cur.module),
                    ) by {
                        if z < q {
                            assert(pkgs@[base + z] == pre_pkgs[base + z]);
                        } else {
                            assert(pkgs@[base + z] == (p, md));
                        }
                    }
                }
                q = q + 1;
            }
            proof {
                lemma_colls_snoc(colls, j as int);
                let base = pl_pairs(up.pkglist@.take(i as int)) + colls_pairs(
                    colls.take(j as int),
                );
                let nxt = pl_pairs(up.pkglist@.take(i as int)) + colls_pairs(colls.take(j + 1));
                assert(coll_pairs(cur).len() == cur.package@.len());
                assert(nxt =~= base + coll_pairs(cur));
                assert(pkgs@.len() == nxt.len());
                assert forall|z: int| 0 <= z < pkgs@.len() implies pair_corr(
                    #[trigger] pkgs@[z],
                    nxt[z],
                ) by {
                    if z < base.len() {
                        assert(pkgs@.take(base.len() as int)[z] == pkgs@[z]);
                        assert(nxt[z] == base[z]);
                    } else {
                        let z2 = z - base.len() as int;
                        assert(pair_corr(pkgs@[base.len() + z2], (cur.package@[z2], cur.module)));
                        assert(nxt[z] == coll_pairs(cur)[z2]);
                        assert(coll_pairs(cur)[z2] == (cur.package@[z2], cur.module));
                    }
                }
            }
            j = j + 1;
        }
        proof {
            lemma_pl_snoc(up.pkglist@, i as int);
            assert(colls.take(ncol as int) =~= colls);
            assert(pl_pairs(up.pkglist@.take(i + 1)) =~= pl_pairs(up.pkglist@.take(i as int))
                + colls_pairs(colls));
        }
        i = i + 1;
    }
    proof {
        assert(up.pkglist@.take(npl as int) =~= up.pkglist@);
    }
    AdvisoryBatch { adv, pkgs }
}

/// What one flushed advisory package leaves in the store: the package row
/// under the batch row's surrogate id, findable under the batch row's
/// NEVRA, linked to the repository and the advisory, and — where the
/// document named a module — the module under its natural attributes and
/// its stream with the document's parsed version.
pub open spec fn pkg_recorded(
    db: &Database,
    src: Pkg,
    md: Option<crate::updateinfo::Module>,
    stored: Pkg,
    adv_id: u128,
    repo_id: u128,
) -> bool {
    &&& stored@.1 == src@.1 && stored@.2 == src@.2 && stored@.3 == src@.3 && stored@.4 == src@.4
        && stored@.5 == src@.5
    &&& has_key(
        tbl::<Pkg>(db),
        <Pkg as Table>::enc_key_spec(<Pkg as Table>::row_key_model(stored@)),
    )
    &&& has_key(
        tbl_idx::<Pkg>(db, 0),
        crate::data::nevra_bytes((src@.1, src@.2, src@.3, src@.4, src@.5)),
    )
    &&& has_key(tbl::<PkgRepo>(db), crate::data::id_pair_bytes((stored@.0, repo_id)))
    &&& exists|sid: Option<u128>|
        has_key(
            tbl::<PkgAdvisory>(db),
            crate::data::pkg_advisory_id_bytes((stored@.0, adv_id, sid)),
        )
    &&& md is Some ==> exists|mid: u128|
        #![trigger crate::keys::ks_u128(mid)]
        {
            let ik_m = crate::data::module_attrs_bytes(
                (repo_id, opt_module_view(&md).unwrap().0, opt_module_view(&md).unwrap().2),
            );
            &&& has_key(tbl_idx::<Module>(db, 0), ik_m)
            &&& val_of(tbl_idx::<Module>(db, 0), ik_m) == crate::keys::ks_u128(mid)
            &&& has_key(tbl::<Module>(db), crate::keys::ks_u128(mid))
            &&& has_key(
                tbl_idx::<ModuleStream>(db, 0),
                crate::data::stream_attrs_bytes(
                    (
                        mid,
                        opt_module_view(&md).unwrap().1,
                        version_spec(opt_module_view(&md).unwrap().3),
                        opt_module_view(&md).unwrap().4,
                    ),
                ),
            )
        }
}

/// Upsert the module one advisory package names, and its stream: the
/// module by its natural attributes, the stream under the stored module's
/// id with the document's parsed version, the stored default flag kept.
#[verifier::rlimit(100)]
#[verifier::spinoff_prover]
fn ingest_named_module(w: &mut Wtx, mod_data: &crate::updateinfo::Module, repo_id: Uuid) -> (sid:
    Uuid)
    requires
        sync_store_ok(&old(w).work),
    ensures
        sync_store_ok(&final(w).work),
        forall|n2: Seq<char>| final(w).work.holds(n2) == old(w).work.holds(n2),
        exists|mid: u128|
            #![trigger crate::keys::ks_u128(mid)]
            {
                let ik_m = crate::data::module_attrs_bytes(
                    (repo_id@, mod_data.name@, mod_data.arch@),
                );
                &&& has_key(tbl_idx::<Module>(&final(w).work, 0), ik_m)
                &&& val_of(tbl_idx::<Module>(&final(w).work, 0), ik_m) == crate::keys::ks_u128(
                    mid,
                )
                &&& has_key(tbl::<Module>(&final(w).work), crate::keys::ks_u128(mid))
                &&& has_key(
                    tbl_idx::<ModuleStream>(&final(w).work, 0),
                    crate::data::stream_attrs_bytes(
                        (
                            mid,
                            mod_data.stream@,
                            version_spec(mod_data.version@),
                            mod_data.context@,
                        ),
                    ),
                )
            },
        forall|k2: Seq<u8>|
            has_key(tbl::<Module>(&old(w).work), k2) ==> #[trigger] has_key(
                tbl::<Module>(&final(w).work),
                k2,
            ),
        forall|ik2: Seq<u8>|
            #![trigger val_of(tbl_idx::<Module>(&final(w).work, 0), ik2)]
            has_key(tbl_idx::<Module>(&old(w).work, 0), ik2) && has_key(
                tbl::<Module>(&old(w).work),
                val_of(tbl_idx::<Module>(&old(w).work, 0), ik2),
            ) ==> val_of(tbl_idx::<Module>(&final(w).work, 0), ik2) == val_of(
                tbl_idx::<Module>(&old(w).work, 0),
                ik2,
            ),
        forall|ik2: Seq<u8>|
            has_key(tbl_idx::<Module>(&old(w).work, 0), ik2) ==> #[trigger] has_key(
                tbl_idx::<Module>(&final(w).work, 0),
                ik2,
            ),
        forall|ik2: Seq<u8>|
            has_key(tbl_idx::<ModuleStream>(&old(w).work, 0), ik2) ==> #[trigger] has_key(
                tbl_idx::<ModuleStream>(&final(w).work, 0),
                ik2,
            ),
        tbl::<Pkg>(&final(w).work) == tbl::<Pkg>(&old(w).work),
        tbl_idx::<Pkg>(&final(w).work, 0) == tbl_idx::<Pkg>(&old(w).work, 0),
        tbl::<PkgRepo>(&final(w).work) == tbl::<PkgRepo>(&old(w).work),
        tbl::<PkgAdvisory>(&final(w).work) == tbl::<PkgAdvisory>(&old(w).work),
        tbl::<Advisory>(&final(w).work) == tbl::<Advisory>(&old(w).work),
        tbl_idx::<Advisory>(&final(w).work, 0) == tbl_idx::<Advisory>(&old(w).work, 0),
        tbl::<AdvisoryRepo>(&final(w).work) == tbl::<AdvisoryRepo>(&old(w).work),
{
    let newmod = Module {
        id: w.work.generate_id(),
        attrs: ModuleAttrs {
            repo_id,
            name: mod_data.name.clone(),
            arch: mod_data.arch.clone(),
        },
    };
    let stored_mod = upsert_module(w, newmod);
    let stream = ModuleStream {
        id: w.work.generate_id(),
        attrs: StreamAttrs {
            module_id: stored_mod.id,
            name: mod_data.stream.clone(),
            version: parse_version(mod_data.version.as_str()),
            context: mod_data.context.clone(),
        },
        default: false,
    };
    let stored_stream = upsert_stream(w, stream);
    proof {
        assert(<Module as Table>::enc_key_spec(<Module as Table>::row_key_model(stored_mod@))
            == crate::keys::ks_u128(stored_mod@.0));
        assert(stored_stream@.1 == stored_mod@.0);
    }
    stored_stream.id
}

/// Upsert the module and stream one advisory package names, if any.
#[verifier::rlimit(100)]
#[verifier::spinoff_prover]
fn ingest_pkg_module(w: &mut Wtx, md: &Option<crate::updateinfo::Module>, repo_id: Uuid) -> (sid:
    Option<Uuid>)
    requires
        sync_store_ok(&old(w).work),
    ensures
        sync_store_ok(&final(w).work),
        forall|n2: Seq<char>| final(w).work.holds(n2) == old(w).work.holds(n2),
        *md is Some ==> exists|mid: u128|
            #![trigger crate::keys::ks_u128(mid)]
            {
                let ik_m = crate::data::module_attrs_bytes(
                    (repo_id@, opt_module_view(md).unwrap().0, opt_module_view(md).unwrap().2),
                );
                &&& has_key(tbl_idx::<Module>(&final(w).work, 0), ik_m)
                &&& val_of(tbl_idx::<Module>(&final(w).work, 0), ik_m) == crate::keys::ks_u128(
                    mid,
                )
                &&& has_key(tbl::<Module>(&final(w).work), crate::keys::ks_u128(mid))
                &&& has_key(
                    tbl_idx::<ModuleStream>(&final(w).work, 0),
                    crate::data::stream_attrs_bytes(
                        (
                            mid,
                            opt_module_view(md).unwrap().1,
                            version_spec(opt_module_view(md).unwrap().3),
                            opt_module_view(md).unwrap().4,
                        ),
                    ),
                )
            },
        forall|k2: Seq<u8>|
            has_key(tbl::<Module>(&old(w).work), k2) ==> #[trigger] has_key(
                tbl::<Module>(&final(w).work),
                k2,
            ),
        forall|ik2: Seq<u8>|
            #![trigger val_of(tbl_idx::<Module>(&final(w).work, 0), ik2)]
            has_key(tbl_idx::<Module>(&old(w).work, 0), ik2) && has_key(
                tbl::<Module>(&old(w).work),
                val_of(tbl_idx::<Module>(&old(w).work, 0), ik2),
            ) ==> val_of(tbl_idx::<Module>(&final(w).work, 0), ik2) == val_of(
                tbl_idx::<Module>(&old(w).work, 0),
                ik2,
            ),
        forall|ik2: Seq<u8>|
            has_key(tbl_idx::<Module>(&old(w).work, 0), ik2) ==> #[trigger] has_key(
                tbl_idx::<Module>(&final(w).work, 0),
                ik2,
            ),
        forall|ik2: Seq<u8>|
            has_key(tbl_idx::<ModuleStream>(&old(w).work, 0), ik2) ==> #[trigger] has_key(
                tbl_idx::<ModuleStream>(&final(w).work, 0),
                ik2,
            ),
        tbl::<Pkg>(&final(w).work) == tbl::<Pkg>(&old(w).work),
        tbl_idx::<Pkg>(&final(w).work, 0) == tbl_idx::<Pkg>(&old(w).work, 0),
        tbl::<PkgRepo>(&final(w).work) == tbl::<PkgRepo>(&old(w).work),
        tbl::<PkgAdvisory>(&final(w).work) == tbl::<PkgAdvisory>(&old(w).work),
        tbl::<Advisory>(&final(w).work) == tbl::<Advisory>(&old(w).work),
        tbl_idx::<Advisory>(&final(w).work, 0) == tbl_idx::<Advisory>(&old(w).work, 0),
        tbl::<AdvisoryRepo>(&final(w).work) == tbl::<AdvisoryRepo>(&old(w).work),
{
    match md {
        Some(mod_data) => {
            let stream_id = ingest_named_module(w, mod_data, repo_id);
            proof {
                assert(opt_module_view(md).unwrap().0 == mod_data.name@);
                assert(opt_module_view(md).unwrap().1 == mod_data.stream@);
                assert(opt_module_view(md).unwrap().2 == mod_data.arch@);
                assert(opt_module_view(md).unwrap().3 == mod_data.version@);
                assert(opt_module_view(md).unwrap().4 == mod_data.context@);
                let mid = choose|mid: u128|
                    has_key(
                        tbl_idx::<ModuleStream>(&w.work, 0),
                        crate::data::stream_attrs_bytes(
                            (
                                mid,
                                mod_data.stream@,
                                version_spec(mod_data.version@),
                                mod_data.context@,
                            ),
                        ),
                    );
                assert(has_key(
                    tbl_idx::<ModuleStream>(&w.work, 0),
                    crate::data::stream_attrs_bytes(
                        (
                            mid,
                            opt_module_view(md).unwrap().1,
                            version_spec(opt_module_view(md).unwrap().3),
                            opt_module_view(md).unwrap().4,
                        ),
                    ),
                ));
            }
            Some(stream_id)
        },
        None => None,
    }
}

/// Flush one advisory package: its module and stream where one is named,
/// then the package keeping its id, and the repository and advisory links.
#[verifier::rlimit(100)]
#[verifier::spinoff_prover]
fn ingest_one_pkg(
    w: &mut Wtx,
    pkg: Pkg,
    md: Option<crate::updateinfo::Module>,
    adv_id: Uuid,
    repo_id: Uuid,
) -> (r: Pkg)
    requires
        sync_store_ok(&old(w).work),
    ensures
        sync_store_ok(&final(w).work),
        forall|n2: Seq<char>| final(w).work.holds(n2) == old(w).work.holds(n2),
        pkg_recorded(&final(w).work, pkg, md, r, adv_id@, repo_id@),
        forall|k2: Seq<u8>|
            has_key(tbl::<Pkg>(&old(w).work), k2) ==> #[trigger] has_key(
                tbl::<Pkg>(&final(w).work),
                k2,
            ),
        forall|ik2: Seq<u8>|
            has_key(tbl_idx::<Pkg>(&old(w).work, 0), ik2) ==> #[trigger] has_key(
                tbl_idx::<Pkg>(&final(w).work, 0),
                ik2,
            ),
        forall|k2: Seq<u8>|
            has_key(tbl::<PkgRepo>(&old(w).work), k2) ==> #[trigger] has_key(
                tbl::<PkgRepo>(&final(w).work),
                k2,
            ),
        forall|k2: Seq<u8>|
            has_key(tbl::<PkgAdvisory>(&old(w).work), k2) ==> #[trigger] has_key(
                tbl::<PkgAdvisory>(&final(w).work),
                k2,
            ),
        forall|ik2: Seq<u8>|
            has_key(tbl_idx::<Module>(&old(w).work, 0), ik2) ==> #[trigger] has_key(
                tbl_idx::<Module>(&final(w).work, 0),
                ik2,
            ),
        forall|ik2: Seq<u8>|
            has_key(tbl_idx::<ModuleStream>(&old(w).work, 0), ik2) ==> #[trigger] has_key(
                tbl_idx::<ModuleStream>(&final(w).work, 0),
                ik2,
            ),
        forall|k2: Seq<u8>|
            has_key(tbl::<Module>(&old(w).work), k2) ==> #[trigger] has_key(
                tbl::<Module>(&final(w).work),
                k2,
            ),
        forall|ik2: Seq<u8>|
            #![trigger val_of(tbl_idx::<Module>(&final(w).work, 0), ik2)]
            has_key(tbl_idx::<Module>(&old(w).work, 0), ik2) && has_key(
                tbl::<Module>(&old(w).work),
                val_of(tbl_idx::<Module>(&old(w).work, 0), ik2),
            ) ==> val_of(tbl_idx::<Module>(&final(w).work, 0), ik2) == val_of(
                tbl_idx::<Module>(&old(w).work, 0),
                ik2,
            ),
        tbl::<Advisory>(&final(w).work) == tbl::<Advisory>(&old(w).work),
        tbl_idx::<Advisory>(&final(w).work, 0) == tbl_idx::<Advisory>(&old(w).work, 0),
        tbl::<AdvisoryRepo>(&final(w).work) == tbl::<AdvisoryRepo>(&old(w).work),
{
    let sid = ingest_pkg_module(w, &md, repo_id);
    let stored_pkg = upsert_pkg_full(w, pkg);
    link_pkg_full(w, stored_pkg.id, repo_id);
    link_pkg_advisory(w, stored_pkg.id, adv_id, sid);
    stored_pkg
}

/// The view of an optional collection module, for contracts.
pub open spec fn opt_module_view(o: &Option<crate::updateinfo::Module>) -> Option<
    (Seq<char>, Seq<char>, Seq<char>, Seq<char>, Seq<char>),
> {
    match o {
        Some(m) => Some((m.name@, m.stream@, m.arch@, m.version@, m.context@)),
        None => None,
    }
}

/// Flush one advisory batch: upsert the advisory by name (all fields but
/// the surrogate id are the batch's), link it to the repository, and flush
/// every batch package with its module, stream and links.
#[verifier::rlimit(100)]
#[verifier::spinoff_prover]
pub fn ingest_advisory(w: &mut Wtx, batch: AdvisoryBatch, repo_id: Uuid) -> (r: (
    Advisory,
    Vec<Pkg>,
))
    requires
        sync_store_ok(&old(w).work),
    ensures
        sync_store_ok(&final(w).work),
        forall|n2: Seq<char>| final(w).work.holds(n2) == old(w).work.holds(n2),
        // the stored advisory is the batch's, under the settled id
        r.0@.1 == batch.adv@.1 && r.0@.2 == batch.adv@.2 && r.0@.3 == batch.adv@.3 && r.0@.4
            == batch.adv@.4 && r.0@.5 == batch.adv@.5 && r.0@.6 == batch.adv@.6,
        // an advisory already stored under this name keeps its id
        ({
            let iks = crate::keys::ks_str_raw(batch.adv@.2);
            let iat = old(w).work.at(<Advisory as Table>::index_names_spec()[0]);
            if has_key(iat, iks) && has_key(tbl::<Advisory>(&old(w).work), val_of(iat, iks)) {
                r.0@.0 == crate::table::val_model_of::<Advisory>(
                    val_of(tbl::<Advisory>(&old(w).work), val_of(iat, iks)),
                ).0
            } else {
                r.0@.0 == batch.adv@.0
            }
        }),
        has_key(
            tbl::<Advisory>(&final(w).work),
            <Advisory as Table>::enc_key_spec(<Advisory as Table>::row_key_model(r.0@)),
        ),
        has_key(tbl_idx::<Advisory>(&final(w).work, 0), crate::keys::ks_str_raw(batch.adv@.2)),
        has_key(
            tbl::<AdvisoryRepo>(&final(w).work),
            crate::data::id_pair_bytes((r.0@.0, repo_id@)),
        ),
        // every batch package is recorded with its module, stream and links
        r.1@.len() == batch.pkgs@.len(),
        forall|j: int|
            0 <= j < batch.pkgs@.len() ==> pkg_recorded(
                &final(w).work,
                (#[trigger] batch.pkgs@[j]).0,
                batch.pkgs@[j].1,
                r.1@[j],
                r.0@.0,
                repo_id@,
            ),
{
    let AdvisoryBatch { adv, pkgs } = batch;
    let ghost adv0 = adv;
    let ghost orig = pkgs@;
    let stored_adv = upsert_advisory(w, adv);
    link_advisory(w, stored_adv.id, repo_id);
    let mut rest = pkgs;
    let mut done: Vec<Pkg> = Vec::new();
    let n: usize = rest.len();
    let mut i: usize = 0;
    while i < n
        invariant
            0 <= i <= n,
            n == orig.len(),
            rest@ == orig.skip(i as int),
            done@.len() == i,
            sync_store_ok(&w.work),
            forall|n2: Seq<char>| w.work.holds(n2) == old(w).work.holds(n2),
            stored_adv@.1 == adv0@.1 && stored_adv@.2 == adv0@.2 && stored_adv@.3 == adv0@.3
                && stored_adv@.4 == adv0@.4 && stored_adv@.5 == adv0@.5 && stored_adv@.6
                == adv0@.6,
            has_key(
                tbl::<Advisory>(&w.work),
                <Advisory as Table>::enc_key_spec(
                    <Advisory as Table>::row_key_model(stored_adv@),
                ),
            ),
            has_key(tbl_idx::<Advisory>(&w.work, 0), crate::keys::ks_str_raw(adv0@.2)),
            has_key(
                tbl::<AdvisoryRepo>(&w.work),
                crate::data::id_pair_bytes((stored_adv@.0, repo_id@)),
            ),
            forall|j: int|
                0 <= j < i ==> pkg_recorded(
                    &w.work,
                    (#[trigger] orig[j]).0,
                    orig[j].1,
                    done@[j],
                    stored_adv@.0,
                    repo_id@,
                ),
        decreases n - i,
    {
        let (pkg, md) = rest.remove(0);
        proof {
            assert(orig.skip(i as int)[0] == orig[i as int]);
            assert(orig.skip(i as int).remove(0) =~= orig.skip(i + 1));
        }
        let ghost mid_state = w.work;
        let stored_pkg = ingest_one_pkg(w, pkg, md, stored_adv.id, repo_id);
        proof {
            assert forall|j: int| 0 <= j < i implies pkg_recorded(
                &w.work,
                (#[trigger] orig[j]).0,
                orig[j].1,
                done@[j],
                stored_adv@.0,
                repo_id@,
            ) by {
                assert(pkg_recorded(
                    &mid_state,
                    orig[j].0,
                    orig[j].1,
                    done@[j],
                    stored_adv@.0,
                    repo_id@,
                ));
            }
        }
        done.push(stored_pkg);
        i = i + 1;
    }
    proof {
        assert(orig.skip(n as int) =~= Seq::<(Pkg, Option<crate::updateinfo::Module>)>::empty());
    }
    (stored_adv, done)
}

/// The last binding of a name in an association list, as a later insert
/// would overwrite an earlier one.
pub open spec fn assoc_last_spec(v: Seq<(String, Uuid)>, k: Seq<char>) -> Option<u128>
    decreases v.len(),
{
    if v.len() == 0 {
        None
    } else if v.last().0@ == k {
        Some(v.last().1@)
    } else {
        assoc_last_spec(v.drop_last(), k)
    }
}

/// Look a name up in an association list; the last binding wins.
pub fn assoc_uuid(v: &Vec<(String, Uuid)>, k: &str) -> (r: Option<Uuid>)
    ensures
        crate::data::opt_uuid_view(r) == assoc_last_spec(v@, k@),
{
    let n: usize = v.len();
    let mut i: usize = n;
    proof {
        assert(v@.take(n as int) =~= v@);
    }
    while i > 0
        invariant
            0 <= i <= n,
            n == v@.len(),
            assoc_last_spec(v@, k@) == assoc_last_spec(v@.take(i as int), k@),
        decreases i,
    {
        i = i - 1;
        let ghost pre = v@.take(i + 1);
        proof {
            assert(pre.last() == v@[i as int]);
            assert(pre.drop_last() =~= v@.take(i as int));
        }
        if crate::strutil::str_eq(v[i].0.as_str(), k) {
            return Some(v[i].1);
        }
    }
    proof {
        assert(v@.take(0) =~= Seq::<(String, Uuid)>::empty());
    }
    None
}

/// The default flag the recorded chunks assign to a stream of module `mid`
/// named `name`: the last recorded default whose module name is bound to
/// `mid` decides; absent any, the flag is untouched.
pub open spec fn last_flag(
    defaults: Seq<(String, String)>,
    ids: Seq<(String, Uuid)>,
    mid: u128,
    name: Seq<char>,
) -> Option<bool>
    decreases defaults.len(),
{
    if defaults.len() == 0 {
        None
    } else if assoc_last_spec(ids, defaults.last().0@) == Some(mid) {
        Some(name == defaults.last().1@)
    } else {
        last_flag(defaults.drop_last(), ids, mid, name)
    }
}

/// Compute the flag the recorded defaults assign to one stream, if any.
fn flag_for(
    defaults: &Vec<(String, String)>,
    module_ids: &Vec<(String, Uuid)>,
    mid: Uuid,
    name: &str,
) -> (r: Option<bool>)
    ensures
        r == last_flag(defaults@, module_ids@, mid@, name@),
{
    let n: usize = defaults.len();
    let mut i: usize = n;
    proof {
        assert(defaults@.take(n as int) =~= defaults@);
    }
    while i > 0
        invariant
            0 <= i <= n,
            n == defaults@.len(),
            last_flag(defaults@, module_ids@, mid@, name@) == last_flag(
                defaults@.take(i as int),
                module_ids@,
                mid@,
                name@,
            ),
        decreases i,
    {
        i = i - 1;
        let ghost pre = defaults@.take(i + 1);
        proof {
            assert(pre.last() == defaults@[i as int]);
            assert(pre.drop_last() =~= defaults@.take(i as int));
        }
        let bound = assoc_uuid(module_ids, defaults[i].0.as_str());
        let hit = match bound {
            Some(u) => u == mid,
            None => false,
        };
        if hit {
            return Some(crate::strutil::str_eq(name, defaults[i].1.as_str()));
        }
    }
    proof {
        assert(defaults@.take(0) =~= Seq::<(String, String)>::empty());
    }
    None
}

/// After the stream ends, mark default streams: every stored stream whose
/// module id the recorded defaults bind ends re-encoded with its flag set
/// exactly when its name is the module's last recorded default stream;
/// every other stream keeps its value, no stream appears or disappears,
/// and no other table moves.
#[verifier::rlimit(100)]
#[verifier::spinoff_prover]
pub fn apply_defaults(
    w: &mut Wtx,
    module_ids: &Vec<(String, Uuid)>,
    defaults: &Vec<(String, String)>,
)
    requires
        sync_store_ok(&old(w).work),
    ensures
        sync_store_ok(&final(w).work),
        forall|n2: Seq<char>| final(w).work.holds(n2) == old(w).work.holds(n2),
        forall|k2: Seq<u8>|
            #[trigger] has_key(tbl::<ModuleStream>(&final(w).work), k2) == has_key(
                tbl::<ModuleStream>(&old(w).work),
                k2,
            ),
        // the flag rewrite, row by row
        forall|k2: Seq<u8>|
            #[trigger] has_key(tbl::<ModuleStream>(&old(w).work), k2) ==> {
                let m = crate::table::val_model_of::<ModuleStream>(
                    val_of(tbl::<ModuleStream>(&old(w).work), k2),
                );
                match last_flag(defaults@, module_ids@, m.1, m.2) {
                    Some(f) => val_of(tbl::<ModuleStream>(&final(w).work), k2)
                        == <ModuleStream as Table>::enc_val_spec((m.0, m.1, m.2, m.3, m.4, f)),
                    None => val_of(tbl::<ModuleStream>(&final(w).work), k2) == val_of(
                        tbl::<ModuleStream>(&old(w).work),
                        k2,
                    ),
                }
            },
        forall|ik2: Seq<u8>|
            has_key(tbl_idx::<ModuleStream>(&old(w).work, 0), ik2) ==> #[trigger] has_key(
                tbl_idx::<ModuleStream>(&final(w).work, 0),
                ik2,
            ),
        tbl::<Pkg>(&final(w).work) == tbl::<Pkg>(&old(w).work),
        tbl_idx::<Pkg>(&final(w).work, 0) == tbl_idx::<Pkg>(&old(w).work, 0),
        tbl::<PkgRepo>(&final(w).work) == tbl::<PkgRepo>(&old(w).work),
        tbl::<PkgAdvisory>(&final(w).work) == tbl::<PkgAdvisory>(&old(w).work),
        tbl::<Advisory>(&final(w).work) == tbl::<Advisory>(&old(w).work),
        tbl_idx::<Advisory>(&final(w).work, 0) == tbl_idx::<Advisory>(&old(w).work, 0),
        tbl::<AdvisoryRepo>(&final(w).work) == tbl::<AdvisoryRepo>(&old(w).work),
        tbl::<Module>(&final(w).work) == tbl::<Module>(&old(w).work),
        tbl_idx::<Module>(&final(w).work, 0) == tbl_idx::<Module>(&old(w).work, 0),
{
    let streams: Vec<ModuleStream> = w.scan::<ModuleStream>();
    let ns: usize = streams.len();
    let ghost t0 = tbl::<ModuleStream>(&old(w).work);
    proof {
        crate::ops::lemma_at_sorted(&old(w).work, <ModuleStream as Table>::table_name());
        assert forall|q: int| 0 <= q < ns implies val_of(t0, (#[trigger] t0[q]).0) == t0[q].1 by {
            crate::store::lemma_idx_at(t0, q);
        }
    }
    let mut j: usize = 0;
    while j < ns
        invariant
            0 <= j <= ns,
            ns == streams@.len(),
            ns == t0.len(),
            t0 == tbl::<ModuleStream>(&old(w).work),
            sync_store_ok(&w.work),
            forall|n2: Seq<char>| w.work.holds(n2) == old(w).work.holds(n2),
            old(w).work.db_wf(),
            old(w).work.holds(<ModuleStream as Table>::table_name()),
            values_ok::<ModuleStream>(&old(w).work),
            forall|q: int|
                0 <= q < ns ==> <ModuleStream as Table>::enc_val_spec((#[trigger] streams@[q])@)
                    == t0[q].1,
            forall|q: int|
                0 <= q < ns ==> <ModuleStream as Table>::enc_key_spec(
                    <ModuleStream as Table>::row_key_model((#[trigger] streams@[q])@),
                ) == t0[q].0,
            forall|q: int|
                0 <= q < j ==> (#[trigger] streams@[q])@ == crate::table::val_model_of::<
                    ModuleStream,
                >(t0[q].1),
            forall|k2: Seq<u8>|
                #[trigger] has_key(tbl::<ModuleStream>(&w.work), k2) == has_key(t0, k2),
            // rows already walked carry their assigned flag; the rest stand
            forall|q: int|
                0 <= q < j ==> val_of(tbl::<ModuleStream>(&w.work), (#[trigger] t0[q]).0)
                    == (match last_flag(defaults@, module_ids@, streams@[q]@.1, streams@[q]@.2) {
                    Some(f) => <ModuleStream as Table>::enc_val_spec(
                        (
                            streams@[q]@.0,
                            streams@[q]@.1,
                            streams@[q]@.2,
                            streams@[q]@.3,
                            streams@[q]@.4,
                            f,
                        ),
                    ),
                    None => t0[q].1,
                }),
            forall|q: int|
                j <= q < ns ==> val_of(tbl::<ModuleStream>(&w.work), (#[trigger] t0[q]).0)
                    == t0[q].1,
            forall|ik2: Seq<u8>|
                has_key(tbl_idx::<ModuleStream>(&old(w).work, 0), ik2) ==> #[trigger] has_key(
                    tbl_idx::<ModuleStream>(&w.work, 0),
                    ik2,
                ),
            tbl::<Pkg>(&w.work) == tbl::<Pkg>(&old(w).work),
            tbl_idx::<Pkg>(&w.work, 0) == tbl_idx::<Pkg>(&old(w).work, 0),
            tbl::<PkgRepo>(&w.work) == tbl::<PkgRepo>(&old(w).work),
            tbl::<PkgAdvisory>(&w.work) == tbl::<PkgAdvisory>(&old(w).work),
            tbl::<Advisory>(&w.work) == tbl::<Advisory>(&old(w).work),
            tbl_idx::<Advisory>(&w.work, 0) == tbl_idx::<Advisory>(&old(w).work, 0),
            tbl::<AdvisoryRepo>(&w.work) == tbl::<AdvisoryRepo>(&old(w).work),
            tbl::<Module>(&w.work) == tbl::<Module>(&old(w).work),
            tbl_idx::<Module>(&w.work, 0) == tbl_idx::<Module>(&old(w).work, 0),
        decreases ns - j,
    {
        let row = &streams[j];
        let verdict = flag_for(defaults, module_ids, row.attrs.module_id, row.attrs.name.as_str());
        // the stored bytes fit memory: their length witnesses the bound
        // the decoder's injectivity argument needs
        let probe = row.enc_val();
        proof {
            crate::ops::lemma_at_sorted(&old(w).work, <ModuleStream as Table>::table_name());
            crate::store::lemma_idx_at(t0, j as int);
            assert(probe@.len() == probe.len());
            assert(t0[j as int].1.len() <= usize::MAX);
            <ModuleStream as Table>::enc_val_injective(
                streams@[j as int]@,
                crate::table::val_model_of::<ModuleStream>(t0[j as int].1),
            );
        }
        match verdict {
            Some(flag) => {
                proof {
                    assert(has_key(tbl::<ModuleStream>(&w.work), t0[j as int].0));
                }
                let ghost before = w.work;
                mark_stream_default(w, row, flag);
                proof {
                    assert forall|q: int|
                        0 <= q < ns && q != j implies val_of(
                        tbl::<ModuleStream>(&w.work),
                        (#[trigger] t0[q]).0,
                    ) == val_of(tbl::<ModuleStream>(&before), t0[q].0) by {
                        crate::store::lemma_idx_at(t0, q);
                        if t0[q].0 == t0[j as int].0 {
                            crate::store::lemma_key_unique(t0, q, j as int);
                        }
                    }
                }
            },
            None => {
            },
        }
        j = j + 1;
    }
    proof {
        assert forall|k2: Seq<u8>| #[trigger] has_key(t0, k2) implies {
            let m = crate::table::val_model_of::<ModuleStream>(val_of(t0, k2));
            match last_flag(defaults@, module_ids@, m.1, m.2) {
                Some(f) => val_of(tbl::<ModuleStream>(&w.work), k2)
                    == <ModuleStream as Table>::enc_val_spec((m.0, m.1, m.2, m.3, m.4, f)),
                None => val_of(tbl::<ModuleStream>(&w.work), k2) == val_of(t0, k2),
            }
        } by {
            crate::ops::lemma_at_sorted(&old(w).work, <ModuleStream as Table>::table_name());
            let q = crate::store::idx_of(t0, k2);
            assert(0 <= q < t0.len() && t0[q].0 == k2);
            crate::store::lemma_idx_at(t0, q);
            let m = crate::table::val_model_of::<ModuleStream>(val_of(t0, k2));
            assert(val_of(t0, k2) == t0[q].1);
            assert(streams@[q]@ == m);
        }
    }
}

/// Fold one chunk of the modules stream in: a modulemd chunk upserts its
/// module by attributes and its stream under the stored module's id with
/// the stored default flag carried over, and records the module's id by
/// name; a defaults chunk only records the default stream name for its
/// module and writes nothing.
#[verifier::rlimit(100)]
#[verifier::spinoff_prover]
pub fn ingest_module_chunk(
    w: &mut Wtx,
    chunk: crate::modulemd::Chunk,
    repo_id: Uuid,
    module_ids: &mut Vec<(String, Uuid)>,
    defaults: &mut Vec<(String, String)>,
)
    requires
        sync_store_ok(&old(w).work),
    ensures
        sync_store_ok(&final(w).work),
        forall|n2: Seq<char>| final(w).work.holds(n2) == old(w).work.holds(n2),
        match chunk {
            crate::modulemd::Chunk::ModuleMd(ref md) => {
                &&& has_key(
                    tbl_idx::<Module>(&final(w).work, 0),
                    crate::data::module_attrs_bytes((repo_id@, md.name@, md.arch@)),
                )
                // the recorded id is the upserted module row's: the
                // attribute entry points at it
                &&& val_of(
                    tbl_idx::<Module>(&final(w).work, 0),
                    crate::data::module_attrs_bytes((repo_id@, md.name@, md.arch@)),
                ) == crate::keys::ks_u128(final(module_ids)@.last().1@)
                // the stream stands under the recorded module id, with the
                // stored default flag carried over on a hit
                &&& has_key(
                    tbl_idx::<ModuleStream>(&final(w).work, 0),
                    crate::data::stream_attrs_bytes(
                        (final(module_ids)@.last().1@, md.stream@, md.version, md.context@),
                    ),
                )
                &&& ({
                    let iks = crate::data::stream_attrs_bytes(
                        (final(module_ids)@.last().1@, md.stream@, md.version, md.context@),
                    );
                    let skey = val_of(tbl_idx::<ModuleStream>(&final(w).work, 0), iks);
                    let iat = old(w).work.at(<ModuleStream as Table>::index_names_spec()[0]);
                    let carried = if has_key(iat, iks) && has_key(
                        tbl::<ModuleStream>(&old(w).work),
                        val_of(iat, iks),
                    ) {
                        crate::table::val_model_of::<ModuleStream>(
                            val_of(tbl::<ModuleStream>(&old(w).work), val_of(iat, iks)),
                        ).5
                    } else {
                        false
                    };
                    exists|sid: u128|
                        skey == crate::keys::ks_u128(sid) && val_of(
                            tbl::<ModuleStream>(&final(w).work),
                            skey,
                        ) == <ModuleStream as Table>::enc_val_spec(
                            (
                                sid,
                                final(module_ids)@.last().1@,
                                md.stream@,
                                md.version,
                                md.context@,
                                carried,
                            ),
                        )
                })
                &&& final(module_ids)@.len() == old(module_ids)@.len() + 1
                &&& final(module_ids)@.last().0@ == md.name@
                &&& forall|j: int|
                    0 <= j < old(module_ids)@.len() ==> final(module_ids)@[j] == old(
                        module_ids,
                    )@[j]
                &&& final(defaults)@ == old(defaults)@
            },
            crate::modulemd::Chunk::Defaults(ref def) => {
                &&& final(w).work == old(w).work
                &&& final(module_ids)@ == old(module_ids)@
                &&& (match def.stream {
                    Some(ref stream_name) => {
                        &&& final(defaults)@.len() == old(defaults)@.len() + 1
                        &&& final(defaults)@.last().0@ == def.module@
                        &&& final(defaults)@.last().1@ == stream_name@
                        &&& forall|j: int|
                            0 <= j < old(defaults)@.len() ==> final(defaults)@[j] == old(
                                defaults,
                            )@[j]
                    },
                    None => final(defaults)@ == old(defaults)@,
                })
            },
        },
{
    match chunk {
        crate::modulemd::Chunk::ModuleMd(md) => {
            let module = Module {
                id: w.work.generate_id(),
                attrs: ModuleAttrs {
                    repo_id,
                    name: md.name.clone(),
                    arch: md.arch.clone(),
                },
            };
            let stored_mod = upsert_module(w, module);
            let stream = ModuleStream {
                id: w.work.generate_id(),
                attrs: StreamAttrs {
                    module_id: stored_mod.id,
                    name: md.stream.clone(),
                    version: md.version,
                    context: md.context.clone(),
                },
                default: false,
            };
            let stored_stream = upsert_stream(w, stream);
            proof {
                assert(stored_stream@.1 == stored_mod@.0);
                assert(<ModuleStream as Table>::enc_key_spec(
                    <ModuleStream as Table>::row_key_model(stored_stream@),
                ) == crate::keys::ks_u128(stored_stream@.0));
            }
            module_ids.push((md.name.clone(), stored_mod.id));
        },
        crate::modulemd::Chunk::Defaults(def) => {
            match def.stream {
                Some(stream_name) => {
                    defaults.push((def.module, stream_name));
                },
                None => {
                },
            }
        },
    }
}

/// Rewrite one stored stream's default flag: the row keeps its id and
/// attributes, only the flag changes; every other row and table stands.
#[verifier::rlimit(100)]
#[verifier::spinoff_prover]
fn mark_stream_default(w: &mut Wtx, row: &ModuleStream, flag: bool)
    requires
        sync_store_ok(&old(w).work),
        has_key(
            tbl::<ModuleStream>(&old(w).work),
            <ModuleStream as Table>::enc_key_spec(
                <ModuleStream as Table>::row_key_model(row@),
            ),
        ),
    ensures
        sync_store_ok(&final(w).work),
        forall|n2: Seq<char>| final(w).work.holds(n2) == old(w).work.holds(n2),
        // the row now carries the flag, its attributes unchanged
        val_of(
            tbl::<ModuleStream>(&final(w).work),
            <ModuleStream as Table>::enc_key_spec(
                <ModuleStream as Table>::row_key_model(row@),
            ),
        ) == <ModuleStream as Table>::enc_val_spec((row@.0, row@.1, row@.2, row@.3, row@.4, flag)),
        // no stream appears or disappears
        forall|k2: Seq<u8>|
            #[trigger] has_key(tbl::<ModuleStream>(&final(w).work), k2) == has_key(
                tbl::<ModuleStream>(&old(w).work),
                k2,
            ),
        forall|k2: Seq<u8>|
            k2 != <ModuleStream as Table>::enc_key_spec(
                <ModuleStream as Table>::row_key_model(row@),
            ) && has_key(tbl::<ModuleStream>(&old(w).work), k2) ==> #[trigger] val_of(
                tbl::<ModuleStream>(&final(w).work),
                k2,
            ) == val_of(tbl::<ModuleStream>(&old(w).work), k2),
        forall|ik2: Seq<u8>|
            has_key(tbl_idx::<ModuleStream>(&old(w).work, 0), ik2) ==> #[trigger] has_key(
                tbl_idx::<ModuleStream>(&final(w).work, 0),
                ik2,
            ),
        tbl::<Pkg>(&final(w).work) == tbl::<Pkg>(&old(w).work),
        tbl_idx::<Pkg>(&final(w).work, 0) == tbl_idx::<Pkg>(&old(w).work, 0),
        tbl::<PkgRepo>(&final(w).work) == tbl::<PkgRepo>(&old(w).work),
        tbl::<PkgAdvisory>(&final(w).work) == tbl::<PkgAdvisory>(&old(w).work),
        tbl::<Advisory>(&final(w).work) == tbl::<Advisory>(&old(w).work),
        tbl_idx::<Advisory>(&final(w).work, 0) == tbl_idx::<Advisory>(&old(w).work, 0),
        tbl::<AdvisoryRepo>(&final(w).work) == tbl::<AdvisoryRepo>(&old(w).work),
        tbl::<Module>(&final(w).work) == tbl::<Module>(&old(w).work),
        tbl_idx::<Module>(&final(w).work, 0) == tbl_idx::<Module>(&old(w).work, 0),
{
    let ghost before = w.work;
    let updated = ModuleStream {
        id: row.id,
        attrs: StreamAttrs {
            module_id: row.attrs.module_id,
            name: row.attrs.name.clone(),
            version: row.attrs.version,
            context: row.attrs.context.clone(),
        },
        default: flag,
    };
    w.put::<ModuleStream>(&updated);
    proof {
        lemma_sync_names();
        lemma_frame_after_modulestream(before, w.work);
        assert(updated@ == (row@.0, row@.1, row@.2, row@.3, row@.4, flag));
        lemma_keys_monotone(
            tbl_idx::<ModuleStream>(&before, 0),
            tbl_idx::<ModuleStream>(&w.work, 0),
            <ModuleStream as Table>::index_keys_spec(updated@)[0],
        );
    }
}

/// The repository table is registered with valid contents.
pub open spec fn repo_store_ok(db: &Database) -> bool {
    &&& db.db_wf()
    &&& table_registered::<Repo>(db)
    &&& values_ok::<Repo>(db)
}

/// A URL with one placeholder substituted, when the dimension is present.
pub open spec fn subst_opt(u: Seq<char>, pat: Seq<char>, o: Option<Seq<char>>) -> Seq<char> {
    match o {
        Some(v) => crate::strutil::replace_spec(u, pat, v),
        None => u,
    }
}

/// The concrete URL of one expansion combination.
pub open spec fn combo_url(u: Seq<char>, a: Option<Seq<char>>, rv: Option<Seq<char>>) -> Seq<
    char,
> {
    subst_opt(subst_opt(u, "$basearch"@, a), "$releasever"@, rv)
}

/// How many choices a dimension offers: its entries, or the absent one
/// when it is empty.
pub open spec fn dim_count(n: nat) -> nat {
    if n == 0 {
        1
    } else {
        n
    }
}

/// The dimension's choice at an index: absent exactly when it is empty.
pub open spec fn dim_at(xs: Seq<String>, j: int) -> Option<Seq<char>> {
    if xs.len() == 0 {
        None
    } else {
        Some(xs[j]@)
    }
}

/// Materialize a dimension's choices: every entry, or the absent one when
/// the dimension is empty, leaving its placeholder literal.
fn dim_options(xs: &Vec<String>) -> (r: Vec<Option<String>>)
    ensures
        r@.len() == dim_count(xs@.len()),
        forall|j: int| 0 <= j < r@.len() ==> opt_str_view(&(#[trigger] r@[j])) == dim_at(xs@, j),
{
    let mut r: Vec<Option<String>> = Vec::new();
    if xs.len() == 0 {
        r.push(None);
        return r;
    }
    let n: usize = xs.len();
    let mut i: usize = 0;
    while i < n
        invariant
            0 <= i <= n,
            0 < n == xs@.len(),
            r@.len() == i,
            forall|j: int| 0 <= j < i ==> opt_str_view(&(#[trigger] r@[j])) == dim_at(xs@, j),
        decreases n - i,
    {
        r.push(Some(xs[i].clone()));
        i = i + 1;
    }
    r
}

/// Build one expanded repository row and append it.
fn push_combo(
    db: &Database,
    out: &mut Vec<Repo>,
    url: &String,
    arch: &Option<String>,
    rv: &Option<String>,
)
    ensures
        final(out)@.len() == old(out)@.len() + 1,
        forall|j: int| 0 <= j < old(out)@.len() ==> final(out)@[j] == old(out)@[j],
        final(out)@.last()@.1 == combo_url(url@, opt_str_view(arch), opt_str_view(rv)),
        final(out)@.last()@.2 == opt_str_view(arch),
        final(out)@.last()@.3 == opt_str_view(rv),
        final(out)@.last()@.4 is None,
{
    proof {
        reveal_strlit("$basearch");
        reveal_strlit("$releasever");
        assert("$basearch"@.len() == 9);
        assert("$releasever"@.len() == 11);
    }
    let mut u = url.clone();
    let mut arch_owned: Option<String> = None;
    let mut rv_owned: Option<String> = None;
    match arch {
        Some(a) => {
            u = crate::strutil::substitute(u.as_str(), "$basearch", a.as_str());
            arch_owned = Some(a.clone());
        },
        None => {
        },
    }
    match rv {
        Some(v) => {
            u = crate::strutil::substitute(u.as_str(), "$releasever", v.as_str());
            rv_owned = Some(v.clone());
        },
        None => {
        },
    }
    let row = Repo {
        id: db.generate_id(),
        url: u,
        basearch: arch_owned,
        releasever: rv_owned,
        revision: None,
    };
    out.push(row);
}

/// The row the expansion puts at one flat position.
pub open spec fn expansion_row_ok(
    row: Repo,
    urls: Seq<String>,
    archs: Seq<String>,
    rvs: Seq<String>,
    j: int,
) -> bool {
    let na = dim_count(archs.len()) as int;
    let nr = dim_count(rvs.len()) as int;
    let iu = j / (na * nr);
    let ia = (j / nr) % na;
    let ir = j % nr;
    &&& row@.1 == combo_url(urls[iu]@, dim_at(archs, ia), dim_at(rvs, ir))
    &&& row@.2 == dim_at(archs, ia)
    &&& row@.3 == dim_at(rvs, ir)
    &&& row@.4 is None
}

/// Expand one content set: one row per base URL and per choice of each
/// dimension, a dimension's placeholder substituted when it is present and
/// left literal only when the dimension is empty. Every row starts without
/// a revision, under a fresh id.
#[verifier::rlimit(100)]
pub fn expand_content_set(db: &Database, cs: &crate::repolist::ContentSet) -> (r: Vec<Repo>)
    ensures
        r@.len() == cs.baseurl@.len() * dim_count(cs.basearch@.len()) * dim_count(
            cs.releasever@.len(),
        ),
        forall|j: int|
            0 <= j < r@.len() ==> expansion_row_ok(
                #[trigger] r@[j],
                cs.baseurl@,
                cs.basearch@,
                cs.releasever@,
                j,
            ),
{
    let archs = dim_options(&cs.basearch);
    let rvs = dim_options(&cs.releasever);
    let mut out: Vec<Repo> = Vec::new();
    let nu: usize = cs.baseurl.len();
    let na: usize = archs.len();
    let nr: usize = rvs.len();
    let mut iu: usize = 0;
    while iu < nu
        invariant
            0 <= iu <= nu,
            nu == cs.baseurl@.len(),
            na == dim_count(cs.basearch@.len()),
            nr == dim_count(cs.releasever@.len()),
            na >= 1,
            nr >= 1,
            archs@.len() == na,
            rvs@.len() == nr,
            forall|q: int|
                0 <= q < na ==> opt_str_view(&(#[trigger] archs@[q])) == dim_at(cs.basearch@, q),
            forall|q: int|
                0 <= q < nr ==> opt_str_view(&(#[trigger] rvs@[q])) == dim_at(cs.releasever@, q),
            out@.len() == iu * (na * nr),
            forall|j: int|
                0 <= j < out@.len() ==> expansion_row_ok(
                    #[trigger] out@[j],
                    cs.baseurl@,
                    cs.basearch@,
                    cs.releasever@,
                    j,
                ),
        decreases nu - iu,
    {
        let mut ia: usize = 0;
        while ia < na
            invariant
                0 <= ia <= na,
                0 <= iu < nu,
                nu == cs.baseurl@.len(),
                na == dim_count(cs.basearch@.len()),
                nr == dim_count(cs.releasever@.len()),
                na >= 1,
                nr >= 1,
                archs@.len() == na,
                rvs@.len() == nr,
                forall|q: int|
                    0 <= q < na ==> opt_str_view(&(#[trigger] archs@[q])) == dim_at(
                        cs.basearch@,
                        q,
                    ),
                forall|q: int|
                    0 <= q < nr ==> opt_str_view(&(#[trigger] rvs@[q])) == dim_at(
                        cs.releasever@,
                        q,
                    ),
                out@.len() == iu * (na * nr) + ia * nr,
                forall|j: int|
                    0 <= j < out@.len() ==> expansion_row_ok(
                        #[trigger] out@[j],
                        cs.baseurl@,
                        cs.basearch@,
                        cs.releasever@,
                        j,
                    ),
            decreases na - ia,
        {
            let mut ir: usize = 0;
            while ir < nr
                invariant
                    0 <= ir <= nr,
                    0 <= ia < na,
                    0 <= iu < nu,
                    nu == cs.baseurl@.len(),
                    na == dim_count(cs.basearch@.len()),
                    nr == dim_count(cs.releasever@.len()),
                    na >= 1,
                    nr >= 1,
                    archs@.len() == na,
                    rvs@.len() == nr,
                    forall|q: int|
                        0 <= q < na ==> opt_str_view(&(#[trigger] archs@[q])) == dim_at(
                            cs.basearch@,
                            q,
                        ),
                    forall|q: int|
                        0 <= q < nr ==> opt_str_view(&(#[trigger] rvs@[q])) == dim_at(
                            cs.releasever@,
                            q,
                        ),
                    out@.len() == iu * (na * nr) + ia * nr + ir,
                    forall|j: int|
                        0 <= j < out@.len() ==> expansion_row_ok(
                            #[trigger] out@[j],
                            cs.baseurl@,
                            cs.basearch@,
                            cs.releasever@,
                            j,
                        ),
                decreases nr - ir,
            {
                proof {
                    assert(iu * (na * nr) + ia * nr + ir < nu * (na * nr)) by (nonlinear_arith)
                        requires
                            0 <= iu < nu,
                            0 <= ia < na,
                            0 <= ir < nr,
                    ;
                }
                push_combo(db, &mut out, &cs.baseurl[iu], &archs[ia], &rvs[ir]);
                proof {
                    let j0 = (out@.len() - 1) as int;
                    assert(j0 == iu * (na * nr) + ia * nr + ir);
                    assert(j0 == iu * (na * nr) + (ia * nr + ir) && 0 <= ia * nr + ir < na * nr)
                        by (nonlinear_arith)
                        requires
                            j0 == iu * (na * nr) + ia * nr + ir,
                            0 <= ia < na,
                            0 <= ir < nr,
                    ;
                    vstd::arithmetic::div_mod::lemma_fundamental_div_mod_converse(
                        j0,
                        (na * nr) as int,
                        iu as int,
                        (ia * nr + ir) as int,
                    );
                    assert(j0 / ((na * nr) as int) == iu);
                    assert(j0 % ((na * nr) as int) == ia * nr + ir);
                    assert(j0 == (iu * na + ia) * nr + ir) by (nonlinear_arith)
                        requires
                            j0 == iu * (na * nr) + ia * nr + ir,
                    ;
                    vstd::arithmetic::div_mod::lemma_fundamental_div_mod_converse(
                        j0,
                        nr as int,
                        (iu * na + ia) as int,
                        ir as int,
                    );
                    assert(j0 / (nr as int) == iu * na + ia);
                    assert((iu * na + ia) % (na as int) == ia) by {
                        vstd::arithmetic::div_mod::lemma_fundamental_div_mod_converse_mod(
                            (iu * na + ia) as int,
                            na as int,
                            iu as int,
                            ia as int,
                        );
                    }
                    vstd::arithmetic::div_mod::lemma_fundamental_div_mod_converse_mod(
                        j0,
                        nr as int,
                        (iu * na + ia) as int,
                        ir as int,
                    );
                    assert(j0 % (nr as int) == ir);
                    assert(expansion_row_ok(
                        out@[j0],
                        cs.baseurl@,
                        cs.basearch@,
                        cs.releasever@,
                        j0,
                    ));
                }
                ir = ir + 1;
            }
            proof {
                assert(iu * (na * nr) + ia * nr + nr == iu * (na * nr) + (ia + 1) * nr)
                    by (nonlinear_arith);
            }
            ia = ia + 1;
        }
        proof {
            assert(iu * (na * nr) + na * nr == (iu + 1) * (na * nr)) by (nonlinear_arith);
        }
        iu = iu + 1;
    }
    proof {
        assert(nu * (na * nr) == nu * na * nr) by (nonlinear_arith);
    }
    out
}

/// The URL of one combination of a content set, by flat position.
pub open spec fn cs_combo_url(cs: crate::repolist::ContentSet, j: int) -> Seq<char> {
    let na = dim_count(cs.basearch@.len()) as int;
    let nr = dim_count(cs.releasever@.len()) as int;
    combo_url(
        cs.baseurl@[j / (na * nr)]@,
        dim_at(cs.basearch@, (j / nr) % na),
        dim_at(cs.releasever@, j % nr),
    )
}

/// How many rows a content set expands to.
pub open spec fn cs_size(cs: crate::repolist::ContentSet) -> int {
    (cs.baseurl@.len() * dim_count(cs.basearch@.len()) * dim_count(cs.releasever@.len())) as int
}

/// Every combination of the content set is reachable through the URL index.
pub open spec fn cs_loaded(db: &Database, cs: crate::repolist::ContentSet) -> bool {
    forall|j: int|
        0 <= j < cs_size(cs) ==> has_key(
            tbl_idx::<Repo>(db, 0),
            crate::keys::ks_str_raw(#[trigger] cs_combo_url(cs, j)),
        )
}

/// Loaded content sets stay loaded when the URL index only grows.
proof fn lemma_cs_loaded_monotone(pre: &Database, post: &Database, cs: crate::repolist::ContentSet)
    requires
        cs_loaded(pre, cs),
        forall|ik2: Seq<u8>|
            has_key(tbl_idx::<Repo>(pre, 0), ik2) ==> #[trigger] has_key(
                tbl_idx::<Repo>(post, 0),
                ik2,
            ),
    ensures
        cs_loaded(post, cs),
{
}

/// Upsert one expanded repository row by URL: an existing row under the
/// same URL keeps its surrogate id; the URL index finds the row after.
#[verifier::rlimit(100)]
#[verifier::spinoff_prover]
fn load_repo_row(w: &mut Wtx, row: Repo)
    requires
        repo_store_ok(&old(w).work),
    ensures
        repo_store_ok(&final(w).work),
        forall|n2: Seq<char>| final(w).work.holds(n2) == old(w).work.holds(n2),
        has_key(tbl_idx::<Repo>(&final(w).work, 0), crate::keys::ks_str_raw(row@.1)),
        forall|ik2: Seq<u8>|
            has_key(tbl_idx::<Repo>(&old(w).work, 0), ik2) ==> #[trigger] has_key(
                tbl_idx::<Repo>(&final(w).work, 0),
                ik2,
            ),
        // every stored repository survives the write
        forall|k2: Seq<u8>|
            has_key(tbl::<Repo>(&old(w).work), k2) ==> #[trigger] has_key(
                tbl::<Repo>(&final(w).work),
                k2,
            ),
        // a URL entry backed by a live row keeps its target: the stored
        // repository keeps its surrogate id
        forall|ik2: Seq<u8>|
            #![trigger val_of(tbl_idx::<Repo>(&final(w).work, 0), ik2)]
            has_key(tbl_idx::<Repo>(&old(w).work, 0), ik2) && has_key(
                tbl::<Repo>(&old(w).work),
                val_of(tbl_idx::<Repo>(&old(w).work, 0), ik2),
            ) ==> val_of(tbl_idx::<Repo>(&final(w).work, 0), ik2) == val_of(
                tbl_idx::<Repo>(&old(w).work, 0),
                ik2,
            ) && has_key(
                tbl::<Repo>(&final(w).work),
                val_of(tbl_idx::<Repo>(&old(w).work, 0), ik2),
            ),
{
    let ghost before = w.work;
    let ghost row0 = row;
    let stored = w.put_by::<RepoUrl>(row);
    proof {
        assert(stored@.1 == row0@.1);
        assert(<Repo as Table>::index_keys_spec(stored@)[0] == crate::keys::ks_str_raw(row0@.1));
        lemma_keys_monotone(
            tbl_idx::<Repo>(&before, 0),
            tbl_idx::<Repo>(&w.work, 0),
            <Repo as Table>::index_keys_spec(stored@)[0],
        );
        lemma_keys_monotone(
            tbl::<Repo>(&before),
            tbl::<Repo>(&w.work),
            <Repo as Table>::enc_key_spec(<Repo as Table>::row_key_model(stored@)),
        );
        // a live entry under the written URL keeps its target: the rebound
        // row carries the found row's key
        let ik = <Repo as Table>::index_keys_spec(stored@)[0];
        let iat = before.at(<Repo as Table>::index_names_spec()[0]);
        if has_key(iat, ik) && has_key(tbl::<Repo>(&before), val_of(iat, ik)) {
            let pk = val_of(iat, ik);
            let j = crate::store::idx_of(tbl::<Repo>(&before), pk);
            assert(0 <= j < tbl::<Repo>(&before).len() && tbl::<Repo>(&before)[j].0 == pk);
            crate::ops::lemma_at_sorted(&before, <Repo as Table>::table_name());
            crate::store::lemma_idx_at(tbl::<Repo>(&before), j);
            assert(<Repo as Table>::enc_key_spec(
                <Repo as Table>::row_key_model(
                    crate::table::val_model_of::<Repo>(tbl::<Repo>(&before)[j].1),
                ),
            ) == pk);
        }
    }
}

/// Load one content set: upsert every expanded row by URL inside one write
/// transaction, so existing repositories keep their ids.
#[verifier::rlimit(100)]
#[verifier::spinoff_prover]
fn load_content_set(db: &mut Database, cs: &crate::repolist::ContentSet)
    requires
        repo_store_ok(old(db)),
    ensures
        repo_store_ok(final(db)),
        forall|n2: Seq<char>| final(db).holds(n2) == old(db).holds(n2),
        cs_loaded(final(db), *cs),
        forall|ik2: Seq<u8>|
            has_key(tbl_idx::<Repo>(old(db), 0), ik2) ==> #[trigger] has_key(
                tbl_idx::<Repo>(final(db), 0),
                ik2,
            ),
        forall|k2: Seq<u8>|
            has_key(tbl::<Repo>(old(db)), k2) ==> #[trigger] has_key(tbl::<Repo>(final(db)), k2),
        forall|ik2: Seq<u8>|
            #![trigger val_of(tbl_idx::<Repo>(final(db), 0), ik2)]
            has_key(tbl_idx::<Repo>(old(db), 0), ik2) && has_key(
                tbl::<Repo>(old(db)),
                val_of(tbl_idx::<Repo>(old(db), 0), ik2),
            ) ==> val_of(tbl_idx::<Repo>(final(db), 0), ik2) == val_of(
                tbl_idx::<Repo>(old(db), 0),
                ik2,
            ) && has_key(tbl::<Repo>(final(db)), val_of(tbl_idx::<Repo>(old(db), 0), ik2)),
{
    let repos = expand_content_set(db, cs);
    let ghost rows = repos@;
    let mut w = db.wtx();
    proof {
        assert(w.work.at(<Repo as Table>::table_name()) == db.at(<Repo as Table>::table_name()));
        assert(w.work.at(<Repo as Table>::index_names_spec()[0]) == db.at(
            <Repo as Table>::index_names_spec()[0],
        ));
        lemma_values_ok_frame::<Repo>(db, &w.work);
    }
    let mut rest = repos;
    let nrow: usize = rest.len();
    let mut q: usize = 0;
    while q < nrow
        invariant
            0 <= q <= nrow,
            nrow == rows.len(),
            rest@ == rows.skip(q as int),
            repo_store_ok(&w.work),
            forall|n2: Seq<char>| w.work.holds(n2) == db.holds(n2),
            rows.len() == cs_size(*cs),
            forall|j: int|
                0 <= j < rows.len() ==> expansion_row_ok(
                    #[trigger] rows[j],
                    cs.baseurl@,
                    cs.basearch@,
                    cs.releasever@,
                    j,
                ),
            forall|j: int|
                0 <= j < q ==> has_key(
                    tbl_idx::<Repo>(&w.work, 0),
                    crate::keys::ks_str_raw(#[trigger] cs_combo_url(*cs, j)),
                ),
            forall|ik2: Seq<u8>|
                has_key(tbl_idx::<Repo>(db, 0), ik2) ==> #[trigger] has_key(
                    tbl_idx::<Repo>(&w.work, 0),
                    ik2,
                ),
            forall|k2: Seq<u8>|
                has_key(tbl::<Repo>(db), k2) ==> #[trigger] has_key(tbl::<Repo>(&w.work), k2),
            forall|ik2: Seq<u8>|
                #![trigger val_of(tbl_idx::<Repo>(&w.work, 0), ik2)]
                has_key(tbl_idx::<Repo>(db, 0), ik2) && has_key(
                    tbl::<Repo>(db),
                    val_of(tbl_idx::<Repo>(db, 0), ik2),
                ) ==> val_of(tbl_idx::<Repo>(&w.work, 0), ik2) == val_of(
                    tbl_idx::<Repo>(db, 0),
                    ik2,
                ) && has_key(tbl::<Repo>(&w.work), val_of(tbl_idx::<Repo>(db, 0), ik2)),
        decreases nrow - q,
    {
        let row = rest.remove(0);
        proof {
            assert(rows.skip(q as int)[0] == rows[q as int]);
            assert(rows.skip(q as int).remove(0) =~= rows.skip(q + 1));
            assert(expansion_row_ok(
                rows[q as int],
                cs.baseurl@,
                cs.basearch@,
                cs.releasever@,
                q as int,
            ));
            assert(rows[q as int]@.1 == cs_combo_url(*cs, q as int));
        }
        load_repo_row(&mut w, row);
        q = q + 1;
    }
    w.commit(db);
    proof {
        assert(rows.skip(nrow as int) =~= Seq::<Repo>::empty());
    }
}

/// Load the repolist: for every content set of every product, upsert each
/// expanded repository by URL, one write transaction per content set, so
/// ids stay stable across runs; afterwards every combination of every
/// content set is reachable through the URL index.
#[verifier::rlimit(100)]
#[verifier::spinoff_prover]
pub fn load_repolist(db: &mut Database, rl: &crate::repolist::Repolist)
    requires
        repo_store_ok(old(db)),
    ensures
        repo_store_ok(final(db)),
        forall|n2: Seq<char>| final(db).holds(n2) == old(db).holds(n2),
        forall|e: int, p: int, c: int|
            0 <= e < rl@.len() && 0 <= p < rl@[e].products@.len() && 0 <= c
                < rl@[e].products@[p].1.content_sets@.len() ==> cs_loaded(
                final(db),
                (#[trigger] rl@[e].products@[p].1.content_sets@[c]).1,
            ),
        // stored repositories survive, and a URL already bound to a live
        // row keeps its surrogate id
        forall|k2: Seq<u8>|
            has_key(tbl::<Repo>(old(db)), k2) ==> #[trigger] has_key(tbl::<Repo>(final(db)), k2),
        forall|ik2: Seq<u8>|
            #![trigger val_of(tbl_idx::<Repo>(final(db), 0), ik2)]
            has_key(tbl_idx::<Repo>(old(db), 0), ik2) && has_key(
                tbl::<Repo>(old(db)),
                val_of(tbl_idx::<Repo>(old(db), 0), ik2),
            ) ==> val_of(tbl_idx::<Repo>(final(db), 0), ik2) == val_of(
                tbl_idx::<Repo>(old(db), 0),
                ik2,
            ) && has_key(tbl::<Repo>(final(db)), val_of(tbl_idx::<Repo>(old(db), 0), ik2)),
{
    let ne: usize = rl.len();
    let mut e: usize = 0;
    while e < ne
        invariant
            0 <= e <= ne,
            ne == rl@.len(),
            repo_store_ok(db),
            forall|n2: Seq<char>| db.holds(n2) == old(db).holds(n2),
            forall|k2: Seq<u8>|
                has_key(tbl::<Repo>(old(db)), k2) ==> #[trigger] has_key(tbl::<Repo>(db), k2),
            forall|ik2: Seq<u8>|
                has_key(tbl_idx::<Repo>(old(db), 0), ik2) ==> #[trigger] has_key(
                    tbl_idx::<Repo>(db, 0),
                    ik2,
                ),
            forall|ik2: Seq<u8>|
                #![trigger val_of(tbl_idx::<Repo>(db, 0), ik2)]
                has_key(tbl_idx::<Repo>(old(db), 0), ik2) && has_key(
                    tbl::<Repo>(old(db)),
                    val_of(tbl_idx::<Repo>(old(db), 0), ik2),
                ) ==> val_of(tbl_idx::<Repo>(db, 0), ik2) == val_of(
                    tbl_idx::<Repo>(old(db), 0),
                    ik2,
                ) && has_key(tbl::<Repo>(db), val_of(tbl_idx::<Repo>(old(db), 0), ik2)),
            forall|e2: int, p2: int, c2: int|
                0 <= e2 < e && 0 <= p2 < rl@[e2].products@.len() && 0 <= c2
                    < rl@[e2].products@[p2].1.content_sets@.len() ==> cs_loaded(
                    db,
                    (#[trigger] rl@[e2].products@[p2].1.content_sets@[c2]).1,
                ),
        decreases ne - e,
    {
        let np: usize = rl[e].products.len();
        let mut p: usize = 0;
        while p < np
            invariant
                0 <= p <= np,
                0 <= e < ne,
                ne == rl@.len(),
                np == rl@[e as int].products@.len(),
                repo_store_ok(db),
                forall|n2: Seq<char>| db.holds(n2) == old(db).holds(n2),
                forall|k2: Seq<u8>|
                    has_key(tbl::<Repo>(old(db)), k2) ==> #[trigger] has_key(tbl::<Repo>(db), k2),
                forall|ik2: Seq<u8>|
                    has_key(tbl_idx::<Repo>(old(db), 0), ik2) ==> #[trigger] has_key(
                        tbl_idx::<Repo>(db, 0),
                        ik2,
                    ),
                forall|ik2: Seq<u8>|
                    #![trigger val_of(tbl_idx::<Repo>(db, 0), ik2)]
                    has_key(tbl_idx::<Repo>(old(db), 0), ik2) && has_key(
                        tbl::<Repo>(old(db)),
                        val_of(tbl_idx::<Repo>(old(db), 0), ik2),
                    ) ==> val_of(tbl_idx::<Repo>(db, 0), ik2) == val_of(
                        tbl_idx::<Repo>(old(db), 0),
                        ik2,
                    ) && has_key(tbl::<Repo>(db), val_of(tbl_idx::<Repo>(old(db), 0), ik2)),
                forall|e2: int, p2: int, c2: int|
                    0 <= e2 < e && 0 <= p2 < rl@[e2].products@.len() && 0 <= c2
                        < rl@[e2].products@[p2].1.content_sets@.len() ==> cs_loaded(
                        db,
                        (#[trigger] rl@[e2].products@[p2].1.content_sets@[c2]).1,
                    ),
                forall|p2: int, c2: int|
                    0 <= p2 < p && 0 <= c2
                        < rl@[e as int].products@[p2].1.content_sets@.len() ==> cs_loaded(
                        db,
                        (#[trigger] rl@[e as int].products@[p2].1.content_sets@[c2]).1,
                    ),
            decreases np - p,
        {
            let nc: usize = rl[e].products[p].1.content_sets.len();
            let mut c: usize = 0;
            while c < nc
                invariant
                    0 <= c <= nc,
                    0 <= p < np,
                    0 <= e < ne,
                    ne == rl@.len(),
                    np == rl@[e as int].products@.len(),
                    nc == rl@[e as int].products@[p as int].1.content_sets@.len(),
                    repo_store_ok(db),
                    forall|n2: Seq<char>| db.holds(n2) == old(db).holds(n2),
                    forall|k2: Seq<u8>|
                        has_key(tbl::<Repo>(old(db)), k2) ==> #[trigger] has_key(tbl::<Repo>(db), k2),
                    forall|ik2: Seq<u8>|
                        has_key(tbl_idx::<Repo>(old(db), 0), ik2) ==> #[trigger] has_key(
                            tbl_idx::<Repo>(db, 0),
                            ik2,
                        ),
                    forall|ik2: Seq<u8>|
                        #![trigger val_of(tbl_idx::<Repo>(db, 0), ik2)]
                        has_key(tbl_idx::<Repo>(old(db), 0), ik2) && has_key(
                            tbl::<Repo>(old(db)),
                            val_of(tbl_idx::<Repo>(old(db), 0), ik2),
                        ) ==> val_of(tbl_idx::<Repo>(db, 0), ik2) == val_of(
                            tbl_idx::<Repo>(old(db), 0),
                            ik2,
                        ) && has_key(tbl::<Repo>(db), val_of(tbl_idx::<Repo>(old(db), 0), ik2)),
                    forall|e2: int, p2: int, c2: int|
                        0 <= e2 < e && 0 <= p2 < rl@[e2].products@.len() && 0 <= c2
                            < rl@[e2].products@[p2].1.content_sets@.len() ==> cs_loaded(
                            db,
                            (#[trigger] rl@[e2].products@[p2].1.content_sets@[c2]).1,
                        ),
                    forall|p2: int, c2: int|
                        0 <= p2 < p && 0 <= c2
                            < rl@[e as int].products@[p2].1.content_sets@.len() ==> cs_loaded(
                            db,
                            (#[trigger] rl@[e as int].products@[p2].1.content_sets@[c2]).1,
                        ),
                    forall|c2: int|
                        0 <= c2 < c ==> cs_loaded(
                            db,
                            (#[trigger] rl@[e as int].products@[p as int].1.content_sets@[c2]).1,
                        ),
                decreases nc - c,
            {
                let ghost pre_cs = *db;
                proof {
                    // restate the entry facts over the snapshot
                    assert forall|ik2: Seq<u8>|
                        #![trigger val_of(tbl_idx::<Repo>(&pre_cs, 0), ik2)]
                        has_key(tbl_idx::<Repo>(old(db), 0), ik2) && has_key(
                            tbl::<Repo>(old(db)),
                            val_of(tbl_idx::<Repo>(old(db), 0), ik2),
                        ) implies val_of(tbl_idx::<Repo>(&pre_cs, 0), ik2) == val_of(
                        tbl_idx::<Repo>(old(db), 0),
                        ik2,
                    ) && has_key(tbl_idx::<Repo>(&pre_cs, 0), ik2) && has_key(
                        tbl::<Repo>(&pre_cs),
                        val_of(tbl_idx::<Repo>(old(db), 0), ik2),
                    ) by {
                        assert(val_of(tbl_idx::<Repo>(db, 0), ik2) == val_of(
                            tbl_idx::<Repo>(&pre_cs, 0),
                            ik2,
                        ));
                    }
                }
                load_content_set(db, &rl[e].products[p].1.content_sets[c].1);
                proof {
                    // chain survival and id stability through this step
                    assert forall|ik2: Seq<u8>|
                        #![trigger val_of(tbl_idx::<Repo>(db, 0), ik2)]
                        has_key(tbl_idx::<Repo>(old(db), 0), ik2) && has_key(
                            tbl::<Repo>(old(db)),
                            val_of(tbl_idx::<Repo>(old(db), 0), ik2),
                        ) implies val_of(tbl_idx::<Repo>(db, 0), ik2) == val_of(
                        tbl_idx::<Repo>(old(db), 0),
                        ik2,
                    ) && has_key(tbl::<Repo>(db), val_of(tbl_idx::<Repo>(old(db), 0), ik2)) by {
                        assert(val_of(tbl_idx::<Repo>(&pre_cs, 0), ik2) == val_of(
                            tbl_idx::<Repo>(old(db), 0),
                            ik2,
                        ));
                        assert(has_key(tbl_idx::<Repo>(&pre_cs, 0), ik2));
                        assert(has_key(
                            tbl::<Repo>(&pre_cs),
                            val_of(tbl_idx::<Repo>(&pre_cs, 0), ik2),
                        ));
                        assert(val_of(tbl_idx::<Repo>(db, 0), ik2) == val_of(
                            tbl_idx::<Repo>(&pre_cs, 0),
                            ik2,
                        ));
                    }
                    assert forall|e2: int, p2: int, c2: int|
                        0 <= e2 < e && 0 <= p2 < rl@[e2].products@.len() && 0 <= c2
                            < rl@[e2].products@[p2].1.content_sets@.len() implies cs_loaded(
                        db,
                        (#[trigger] rl@[e2].products@[p2].1.content_sets@[c2]).1,
                    ) by {
                        lemma_cs_loaded_monotone(
                            &pre_cs,
                            db,
                            rl@[e2].products@[p2].1.content_sets@[c2].1,
                        );
                    }
                    assert forall|p2: int, c2: int|
                        0 <= p2 < p && 0 <= c2
                            < rl@[e as int].products@[p2].1.content_sets@.len() implies cs_loaded(
                        db,
                        (#[trigger] rl@[e as int].products@[p2].1.content_sets@[c2]).1,
                    ) by {
                        lemma_cs_loaded_monotone(
                            &pre_cs,
                            db,
                            rl@[e as int].products@[p2].1.content_sets@[c2].1,
                        );
                    }
                    assert forall|c2: int| 0 <= c2 < c implies cs_loaded(
                        db,
                        (#[trigger] rl@[e as int].products@[p as int].1.content_sets@[c2]).1,
                    ) by {
                        lemma_cs_loaded_monotone(
                            &pre_cs,
                            db,
                            rl@[e as int].products@[p as int].1.content_sets@[c2].1,
                        );
                    }
                }
                c = c + 1;
            }
            p = p + 1;
        }
        e = e + 1;
    }
}

/// Flush one primary document's batch: upsert every package by NEVRA and
/// link each to the repository. Each returned row keeps its batch row's
/// surrogate id, stands in the table, and the NEVRA index finds it under
/// the batch row's NEVRA.
#[verifier::rlimit(100)]
#[verifier::spinoff_prover]
pub fn flush_packages(w: &mut Wtx, pkgs: Vec<Pkg>, repo_id: Uuid) -> (r: Vec<Pkg>)
    requires
        sync_store_ok(&old(w).work),
    ensures
        sync_store_ok(&final(w).work),
        forall|n2: Seq<char>| final(w).work.holds(n2) == old(w).work.holds(n2),
        r@.len() == pkgs@.len(),
        forall|j: int|
            0 <= j < r@.len() ==> {
                &&& (#[trigger] r@[j])@.1 == pkgs@[j]@.1
                &&& r@[j]@.2 == pkgs@[j]@.2
                &&& r@[j]@.3 == pkgs@[j]@.3
                &&& r@[j]@.4 == pkgs@[j]@.4
                &&& r@[j]@.5 == pkgs@[j]@.5
            },
        forall|j: int|
            0 <= j < r@.len() ==> has_key(
                tbl::<Pkg>(&final(w).work),
                <Pkg as Table>::enc_key_spec(<Pkg as Table>::row_key_model((#[trigger] r@[j])@)),
            ),
        forall|j: int|
            0 <= j < pkgs@.len() ==> has_key(
                tbl_idx::<Pkg>(&final(w).work, 0),
                crate::data::nevra_bytes(
                    (
                        (#[trigger] pkgs@[j])@.1,
                        pkgs@[j]@.2,
                        pkgs@[j]@.3,
                        pkgs@[j]@.4,
                        pkgs@[j]@.5,
                    ),
                ),
            ),
        forall|j: int|
            0 <= j < r@.len() ==> has_key(
                tbl::<PkgRepo>(&final(w).work),
                crate::data::id_pair_bytes(((#[trigger] r@[j])@.0, repo_id@)),
            ),
{
    let ghost orig = pkgs@;
    let mut rest = pkgs;
    let mut done: Vec<Pkg> = Vec::new();
    let n: usize = rest.len();
    let mut i: usize = 0;
    while i < n
        invariant
            0 <= i <= n,
            n == orig.len(),
            rest@ == orig.skip(i as int),
            done@.len() == i,
            sync_store_ok(&w.work),
            forall|n2: Seq<char>| w.work.holds(n2) == old(w).work.holds(n2),
            forall|j: int|
                0 <= j < i ==> {
                    &&& (#[trigger] done@[j])@.1 == orig[j]@.1
                    &&& done@[j]@.2 == orig[j]@.2
                    &&& done@[j]@.3 == orig[j]@.3
                    &&& done@[j]@.4 == orig[j]@.4
                    &&& done@[j]@.5 == orig[j]@.5
                },
            forall|j: int|
                0 <= j < i ==> has_key(
                    tbl::<Pkg>(&w.work),
                    <Pkg as Table>::enc_key_spec(
                        <Pkg as Table>::row_key_model((#[trigger] done@[j])@),
                    ),
                ),
            forall|j: int|
                0 <= j < i ==> has_key(
                    tbl_idx::<Pkg>(&w.work, 0),
                    crate::data::nevra_bytes(
                        ((#[trigger] orig[j])@.1, orig[j]@.2, orig[j]@.3, orig[j]@.4, orig[j]@.5),
                    ),
                ),
            forall|j: int|
                0 <= j < i ==> has_key(
                    tbl::<PkgRepo>(&w.work),
                    crate::data::id_pair_bytes(((#[trigger] done@[j])@.0, repo_id@)),
                ),
        decreases n - i,
    {
        let pkg = rest.remove(0);
        proof {
            assert(orig.skip(i as int)[0] == orig[i as int]);
            assert(orig.skip(i as int).remove(0) =~= orig.skip(i + 1));
        }
        let stored = upsert_pkg_full(w, pkg);
        link_pkg_full(w, stored.id, repo_id);
        done.push(stored);
        i = i + 1;
    }
    proof {
        assert(orig.skip(n as int) =~= Seq::<Pkg>::empty());
    }
    done
}
} // verus!

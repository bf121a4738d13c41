use rpmstore::codec::{enc_be, dec_be, enc_term, dec_term};
use rpmstore::data::{Item, Nevra, Pkg, Repo, Uuid, enc_nevra};
use rpmstore::lex::{lex_cmp, Cmp};
use rpmstore::table::Table;

#[test]
fn big_endian_bytes_are_exact() {
    let mut out: Vec<u8> = Vec::new();
    enc_be(0x0102, 4, &mut out);
    assert_eq!(out, vec![0, 0, 1, 2]);
    let (v, pos) = dec_be(&out, 0, 4);
    assert_eq!(v, 0x0102);
    assert_eq!(pos, 4);
}

#[test]
fn item_key_is_big_endian() {
    let k = <Item as Table>::enc_key(&5usize);
    assert_eq!(k, vec![0, 0, 0, 0, 0, 0, 0, 5]);
    let k2 = <Item as Table>::enc_key(&256usize);
    assert_eq!(k2, vec![0, 0, 0, 0, 0, 0, 1, 0]);
    assert_eq!(lex_cmp(&k, &k2), Cmp::Lt);
}

#[test]
fn escape_terminated_strings_are_exact() {
    let mut out: Vec<u8> = Vec::new();
    enc_term(&[0x00, 0x01, 0x41], &mut out);
    assert_eq!(out, vec![1, 2, 1, 3, 0x41, 0]);
    let mut back: Vec<u8> = Vec::new();
    let end = dec_term(&out, 0, &mut back).unwrap();
    assert_eq!(back, vec![0x00, 0x01, 0x41]);
    assert_eq!(end, out.len());
}

#[test]
fn value_codec_round_trips() {
    let repo = Repo {
        id: Uuid(0xdeadbeef),
        url: "https://example.invalid/repo".to_string(),
        basearch: Some("x86_64".to_string()),
        releasever: None,
        revision: Some(-3),
    };
    let bytes = repo.enc_val();
    let back = <Repo as Table>::dec_val(&bytes).unwrap();
    assert_eq!(back, repo);

    let pkg = Pkg {
        id: Uuid(9),
        nevra: Nevra {
            name: "bash".to_string(),
            epoch: 0,
            ver: "5.1".to_string(),
            rel: "1".to_string(),
            arch: "noarch".to_string(),
        },
    };
    let bytes = pkg.enc_val();
    let back = <Pkg as Table>::dec_val(&bytes).unwrap();
    assert_eq!(back, pkg);
}

#[test]
fn truncated_value_is_rejected() {
    let repo = Repo {
        id: Uuid(1),
        url: "u".to_string(),
        basearch: None,
        releasever: None,
        revision: None,
    };
    let mut bytes = repo.enc_val();
    bytes.pop();
    assert!(<Repo as Table>::dec_val(&bytes).is_none());
    bytes.clear();
    assert!(<Repo as Table>::dec_val(&bytes).is_none());
}

#[test]
fn nevra_keys_order_by_fields() {
    let nv = |name: &str, epoch: u32, ver: &str| Nevra {
        name: name.to_string(),
        epoch,
        ver: ver.to_string(),
        rel: "1".to_string(),
        arch: "x86_64".to_string(),
    };
    let enc = |n: &Nevra| {
        let mut out: Vec<u8> = Vec::new();
        enc_nevra(n, &mut out);
        out
    };
    // a shorter name sorts before a longer one sharing its prefix
    assert_eq!(lex_cmp(&enc(&nv("b", 0, "1")), &enc(&nv("bc", 0, "1"))), Cmp::Lt);
    // the name dominates the epoch
    assert_eq!(lex_cmp(&enc(&nv("a", 9, "1")), &enc(&nv("b", 0, "1"))), Cmp::Lt);
    // equal names compare by epoch
    assert_eq!(lex_cmp(&enc(&nv("a", 1, "9")), &enc(&nv("a", 2, "0"))), Cmp::Lt);
    // equal nevra encode equally
    assert_eq!(lex_cmp(&enc(&nv("a", 1, "9")), &enc(&nv("a", 1, "9"))), Cmp::Eq);
}

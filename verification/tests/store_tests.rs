use rpmstore::data::{Item, Label, Repo, RepoUrl, Uuid};
use rpmstore::store::Database;

#[test]
fn test_simple() {
    let mut db = Database::open("/tmp/db").register::<Item>();
    {
        let mut w = db.wtx();
        w.put(&Item(0, 0));
        w.put(&Item(1, 0));
        w.put(&Item(2, 0));
        w.put(&Item(4, 0));
        w.put(&Item(0, 0));
        w.commit(&mut db);
    }
    let mut w = db.wtx();
    assert_eq!(w.get::<Item>(&2), Some(Item(2, 0)));

    let range = w.scan::<Item>();
    assert_eq!(range.len(), 4);

    w.delete::<Item>(&0);
    assert_eq!(w.scan::<Item>().len(), 3);
}

#[test]
fn abort_leaves_store_unchanged() {
    let mut db = Database::open("/tmp/db").register::<Item>();
    {
        let mut w = db.wtx();
        w.put(&Item(7, 9));
        w.commit(&mut db);
    }
    {
        // a write transaction that is dropped without commit
        let mut w = db.wtx();
        w.put(&Item(8, 1));
        w.delete::<Item>(&7);
        assert_eq!(w.scan::<Item>().len(), 1);
    }
    let tx = db.tx();
    let rows = tx.scan::<Item>();
    assert_eq!(rows.len(), 1);
    assert_eq!(rows[0], Item(7, 9));
    assert_eq!(tx.get::<Item>(&8), None);
    tx.commit();
}

#[test]
fn upsert_by_index_preserves_surrogate_id() {
    let mut db = Database::open("/tmp/db").register::<Repo>();
    let u1 = Uuid(11);
    let u2 = Uuid(22);
    {
        let mut w = db.wtx();
        w.put(&Repo {
            id: u1,
            url: "X".to_string(),
            basearch: None,
            releasever: None,
            revision: None,
        });
        w.commit(&mut db);
    }
    {
        let mut w = db.wtx();
        w.put_by::<RepoUrl>(Repo {
            id: u2,
            url: "X".to_string(),
            basearch: None,
            releasever: None,
            revision: Some(7),
        });
        w.commit(&mut db);
    }
    let tx = db.tx();
    let found = tx.get_by::<RepoUrl>(&"X".to_string()).unwrap();
    assert_eq!(found.id, u1);
    assert_eq!(found.revision, Some(7));
    assert_eq!(tx.scan::<Repo>().len(), 1);
}

#[test]
fn put_by_is_idempotent() {
    let mut db = Database::open("/tmp/db").register::<Repo>();
    let row = |id: u128| Repo {
        id: Uuid(id),
        url: "same".to_string(),
        basearch: Some("x86_64".to_string()),
        releasever: None,
        revision: Some(3),
    };
    {
        let mut w = db.wtx();
        w.put_by::<RepoUrl>(row(1));
        w.commit(&mut db);
    }
    let first = db.tx().scan::<Repo>();
    {
        let mut w = db.wtx();
        w.put_by::<RepoUrl>(row(1));
        w.commit(&mut db);
    }
    let second = db.tx().scan::<Repo>();
    assert_eq!(first, second);
    assert_eq!(second.len(), 1);
}

#[test]
fn ordered_range_over_strings() {
    let mut db = Database::open("/tmp/db").register::<Label>();
    let mut w = db.wtx();
    for key in ["ab", "b", "", "abc", "a"] {
        w.put(&Label(key.to_string()));
    }
    w.commit(&mut db);
    let rows = db.tx().scan::<Label>();
    let got: Vec<&str> = rows.iter().map(|l| l.0.as_str()).collect();
    assert_eq!(got, vec!["", "a", "ab", "abc", "b"]);
}

#[test]
fn delete_removes_index_entries() {
    let mut db = Database::open("/tmp/db").register::<Repo>();
    let id = Uuid(5);
    {
        let mut w = db.wtx();
        w.put(&Repo {
            id,
            url: "gone".to_string(),
            basearch: None,
            releasever: None,
            revision: None,
        });
        w.commit(&mut db);
    }
    {
        let mut w = db.wtx();
        w.delete::<Repo>(&id);
        w.commit(&mut db);
    }
    let tx = db.tx();
    assert_eq!(tx.get::<Repo>(&id), None);
    assert_eq!(tx.get_by::<RepoUrl>(&"gone".to_string()), None);
}

#[test]
fn registration_is_idempotent() {
    let db = Database::open("/tmp/db").register::<Item>().register::<Item>().register::<Repo>();
    let tx = db.tx();
    assert_eq!(tx.scan::<Item>().len(), 0);
    assert_eq!(tx.scan::<Repo>().len(), 0);
}

#[test]
fn query_filters_rows() {
    let mut db = Database::open("/tmp/db").register::<Item>();
    let mut w = db.wtx();
    for n in [1usize, 2, 3, 4, 5] {
        w.put(&Item(n, n * 10));
    }
    w.commit(&mut db);
    let tx = db.tx();
    let mut q = tx.query::<Item, _>(|it: &Item| it.0 % 2 == 0);
    assert_eq!(q.next(), Some(Item(2, 20)));
    assert_eq!(q.next(), Some(Item(4, 40)));
    assert_eq!(q.next(), None);
    tx.commit();
}

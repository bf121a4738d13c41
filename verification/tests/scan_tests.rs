use rpmstore::data::{
    Advisory, AdvisoryNameIdx, AdvisoryRepo, Module, ModuleStream, Pkg, PkgAdvisory, PkgRepo,
    Repo, RepoUrl, Nevra, Uuid,
};
use rpmstore::scan::{
    parse_epoch, pkg_from_package, advisory_from_update, flush_packages, ingest_advisory,
    ingest_module_chunk, apply_defaults, on_update, expand_content_set, load_repolist,
    AdvisoryBatch,
};
use rpmstore::store::Database;
use rpmstore::repolist::{ContentSet, Product, RepoEntry};
use rpmstore::modulemd::{Chunk, ModuleMDData, DefaultsData, License};
use rpmstore::updateinfo;
use rpmstore::primary;
use rpmstore::repomd::{Checksum, Location};

fn full_db() -> Database {
    Database::open("/tmp/db")
        .register::<Repo>()
        .register::<Pkg>()
        .register::<Advisory>()
        .register::<Module>()
        .register::<ModuleStream>()
        .register::<PkgAdvisory>()
        .register::<PkgRepo>()
        .register::<AdvisoryRepo>()
}

#[test]
fn epoch_parsing() {
    assert_eq!(parse_epoch("0"), 0);
    assert_eq!(parse_epoch("7"), 7);
    assert_eq!(parse_epoch("123456789"), 123456789);
    assert_eq!(parse_epoch(""), 0);
    assert_eq!(parse_epoch("12a"), 0);
    assert_eq!(parse_epoch("1234567890"), 0);
}

fn sample_package() -> primary::Package {
    primary::Package {
        typ: "rpm".to_string(),
        name: "bash".to_string(),
        arch: "x86_64".to_string(),
        version: primary::PackageVersion {
            epoch: "1".to_string(),
            ver: "5.1".to_string(),
            rel: "2".to_string(),
        },
        checksum: Some(Checksum { typ: "sha256".to_string(), value: "aa".to_string() }),
        summary: "a shell".to_string(),
        description: "the shell".to_string(),
        packager: None,
        url: None,
        time: primary::PackageTime { file: 1, build: 2 },
        size: primary::PackageSize { package: 3, archive: 4, installed: 5 },
        location: Location { href: "Packages/bash.rpm".to_string() },
        format: None,
    }
}

#[test]
fn package_conversion_is_exact() {
    let p = sample_package();
    let pkg = pkg_from_package(&p, Uuid(1));
    assert_eq!(pkg.nevra.name, "bash");
    assert_eq!(pkg.nevra.epoch, 1);
    assert_eq!(pkg.nevra.ver, "5.1");
    assert_eq!(pkg.nevra.rel, "2");
    assert_eq!(pkg.nevra.arch, "x86_64");
    assert_eq!(pkg.id, Uuid(1));
}

#[test]
fn package_flush_deduplicates_by_nevra() {
    let mut db = full_db();
    let p = sample_package();
    let pkg1 = pkg_from_package(&p, Uuid(1));
    let pkg2 = pkg_from_package(&p, Uuid(2));
    let repo_id = Uuid(77);
    let mut w = db.wtx();
    let stored = flush_packages(&mut w, vec![pkg1, pkg2], repo_id);
    w.commit(&mut db);
    let tx = db.tx();
    // the second write rebinds onto the first row: one package, one link,
    // and the surrogate id of the first write survives
    let rows = tx.scan::<Pkg>();
    assert_eq!(rows.len(), 1);
    assert_eq!(rows[0].id, Uuid(1));
    assert_eq!(stored[1].id, Uuid(1));
    assert_eq!(tx.scan::<PkgRepo>().len(), 1);
}

fn sample_update() -> updateinfo::Update {
    updateinfo::Update {
        typ: "security".to_string(),
        from: "secalert".to_string(),
        status: "final".to_string(),
        id: "RHSA-1".to_string(),
        title: "an advisory".to_string(),
        summary: Some("fixes things".to_string()),
        rights: None,
        description: Some("long text".to_string()),
        release: None,
        solution: None,
        severity: Some("Important".to_string()),
        issued: updateinfo::Date { date: "2024-01-01".to_string() },
        updated: updateinfo::Date { date: "2024-01-02".to_string() },
        references: vec![],
        pkglist: vec![updateinfo::PkgList {
            collection: vec![updateinfo::Collection {
                name: "c1".to_string(),
                module: Some(updateinfo::Module {
                    name: "nodejs".to_string(),
                    stream: "18".to_string(),
                    arch: "x86_64".to_string(),
                    version: "1".to_string(),
                    context: "abc".to_string(),
                }),
                package: vec![updateinfo::Package {
                    name: "nodejs".to_string(),
                    epoch: "0".to_string(),
                    version: "18.1".to_string(),
                    release: "1".to_string(),
                    arch: "x86_64".to_string(),
                }],
            }],
        }],
    }
}

#[test]
fn advisory_conversion_is_exact() {
    let up = sample_update();
    let adv = advisory_from_update(&up, Uuid(3));
    assert_eq!(adv.id, Uuid(3));
    assert_eq!(adv.typ, "security");
    assert_eq!(adv.name, "RHSA-1");
    assert_eq!(adv.summary, Some("fixes things".to_string()));
    assert_eq!(adv.desc, Some("long text".to_string()));
    assert_eq!(adv.issued, "2024-01-01");
    assert_eq!(adv.updated, "2024-01-02");
}

#[test]
fn advisory_ingest_records_rows_and_links() {
    let mut db = full_db();
    let up = sample_update();
    let batch = on_update(&db, &up);
    assert_eq!(batch.pkgs.len(), 1);
    let repo_id = Uuid(50);
    let mut w = db.wtx();
    let (stored, stored_pkgs) = ingest_advisory(&mut w, batch, repo_id);
    w.commit(&mut db);
    let tx = db.tx();
    assert_eq!(stored.name, "RHSA-1");
    assert_eq!(stored_pkgs.len(), 1);
    assert_eq!(tx.scan::<Advisory>().len(), 1);
    assert_eq!(tx.scan::<AdvisoryRepo>().len(), 1);
    assert_eq!(tx.scan::<Pkg>().len(), 1);
    assert_eq!(tx.scan::<PkgRepo>().len(), 1);
    assert_eq!(tx.scan::<PkgAdvisory>().len(), 1);
    assert_eq!(tx.scan::<Module>().len(), 1);
    assert_eq!(tx.scan::<ModuleStream>().len(), 1);
    // the advisory is reachable by its natural key
    let by_name = tx.get_by::<AdvisoryNameIdx>(&"RHSA-1".to_string()).unwrap();
    assert_eq!(by_name.id, stored.id);
}

#[test]
fn advisory_upsert_keeps_id() {
    let mut db = full_db();
    let up = sample_update();
    let repo_id = Uuid(50);
    let mut w = db.wtx();
    let (first, _) = ingest_advisory(&mut w, on_update(&db, &up), repo_id);
    let (second, _) = ingest_advisory(&mut w, on_update(&db, &up), repo_id);
    w.commit(&mut db);
    assert_eq!(first.id, second.id);
    assert_eq!(db.tx().scan::<Advisory>().len(), 1);
}

fn md_chunk(name: &str, stream: &str) -> Chunk {
    Chunk::ModuleMd(ModuleMDData {
        name: name.to_string(),
        stream: stream.to_string(),
        version: 1,
        context: "ctx".to_string(),
        arch: "x86_64".to_string(),
        summary: None,
        description: None,
        license: License { module: vec![], content: vec![] },
        dependencies: vec![],
        profiles: None,
        api: None,
        components: None,
        artifacts: None,
    })
}

#[test]
fn module_defaults_are_applied() {
    let mut db = full_db();
    let repo_id = Uuid(9);
    let mut module_ids = Vec::new();
    let mut defaults = Vec::new();
    let mut w = db.wtx();
    ingest_module_chunk(&mut w, md_chunk("nodejs", "16"), repo_id, &mut module_ids, &mut defaults);
    ingest_module_chunk(&mut w, md_chunk("nodejs", "18"), repo_id, &mut module_ids, &mut defaults);
    ingest_module_chunk(
        &mut w,
        Chunk::Defaults(DefaultsData {
            module: "nodejs".to_string(),
            stream: Some("18".to_string()),
            profiles: vec![],
        }),
        repo_id,
        &mut module_ids,
        &mut defaults,
    );
    apply_defaults(&mut w, &module_ids, &defaults);
    w.commit(&mut db);
    let tx = db.tx();
    assert_eq!(tx.scan::<Module>().len(), 1);
    let streams = tx.scan::<ModuleStream>();
    assert_eq!(streams.len(), 2);
    for s in &streams {
        assert_eq!(s.default, s.attrs.name == "18");
    }
}

#[test]
fn module_reingest_preserves_default() {
    let mut db = full_db();
    let repo_id = Uuid(9);
    let mut module_ids = Vec::new();
    let mut defaults = Vec::new();
    let mut w = db.wtx();
    ingest_module_chunk(&mut w, md_chunk("nodejs", "18"), repo_id, &mut module_ids, &mut defaults);
    ingest_module_chunk(
        &mut w,
        Chunk::Defaults(DefaultsData {
            module: "nodejs".to_string(),
            stream: Some("18".to_string()),
            profiles: vec![],
        }),
        repo_id,
        &mut module_ids,
        &mut defaults,
    );
    apply_defaults(&mut w, &module_ids, &defaults);
    // a later round re-ingests the same stream; the default flag survives
    ingest_module_chunk(&mut w, md_chunk("nodejs", "18"), repo_id, &mut module_ids, &mut defaults);
    w.commit(&mut db);
    let streams = db.tx().scan::<ModuleStream>();
    assert_eq!(streams.len(), 1);
    assert!(streams[0].default);
}

#[test]
fn repolist_expansion_substitutes_and_upserts() {
    let mut db = full_db();
    let cs = ContentSet {
        name: "base".to_string(),
        baseurl: vec!["https://h/$basearch/$releasever/os".to_string()],
        basearch: vec!["x86_64".to_string()],
        releasever: vec!["9".to_string()],
    };
    // every present dimension is substituted: one row per combination
    let rows = expand_content_set(&db, &cs);
    assert_eq!(rows.len(), 1);
    assert_eq!(rows[0].url, "https://h/x86_64/9/os");
    assert_eq!(rows[0].basearch.as_deref(), Some("x86_64"));
    assert_eq!(rows[0].releasever.as_deref(), Some("9"));
    assert_eq!(rows[0].revision, None);

    // an empty dimension leaves its placeholder literal, recorded absent
    let cs_no_rv = ContentSet {
        name: "base".to_string(),
        baseurl: vec!["https://h/$basearch/$releasever/os".to_string()],
        basearch: vec!["a1".to_string(), "a2".to_string()],
        releasever: vec![],
    };
    let rows = expand_content_set(&db, &cs_no_rv);
    let urls: Vec<&str> = rows.iter().map(|r| r.url.as_str()).collect();
    assert_eq!(urls, vec!["https://h/a1/$releasever/os", "https://h/a2/$releasever/os"]);
    assert!(rows.iter().all(|r| r.releasever.is_none() && r.revision.is_none()));

    let rl = vec![RepoEntry {
        products: vec![(
            "prod".to_string(),
            Product { content_sets: vec![("cs".to_string(), cs)] },
        )],
    }];
    load_repolist(&mut db, &rl);
    let loaded = db.tx().scan::<Repo>();
    assert_eq!(loaded.len(), 1);
    assert_eq!(loaded[0].url, "https://h/x86_64/9/os");
    // loading again keeps ids stable and adds nothing
    let before = db.tx().scan::<Repo>();
    load_repolist(&mut db, &rl);
    let after = db.tx().scan::<Repo>();
    assert_eq!(before, after);
}

#[test]
fn later_default_binding_wins() {
    let mut db = full_db();
    let repo_id = Uuid(9);
    let mut module_ids = Vec::new();
    let mut defaults = Vec::new();
    let mut w = db.wtx();
    ingest_module_chunk(&mut w, md_chunk("nodejs", "16"), repo_id, &mut module_ids, &mut defaults);
    ingest_module_chunk(&mut w, md_chunk("nodejs", "18"), repo_id, &mut module_ids, &mut defaults);
    for stream in ["16", "18"] {
        ingest_module_chunk(
            &mut w,
            Chunk::Defaults(DefaultsData {
                module: "nodejs".to_string(),
                stream: Some(stream.to_string()),
                profiles: vec![],
            }),
            repo_id,
            &mut module_ids,
            &mut defaults,
        );
    }
    apply_defaults(&mut w, &module_ids, &defaults);
    w.commit(&mut db);
    let streams = db.tx().scan::<ModuleStream>();
    assert_eq!(streams.len(), 2);
    for s in &streams {
        assert_eq!(s.default, s.attrs.name == "18");
    }
}

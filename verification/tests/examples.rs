use conda_curation::logs::Log;
use conda_curation::matchspeccache::Cache;
use conda_curation::matchspecyaml::get_user_matchspecs;
use conda_curation::matchspecyaml::UserMatchspec;
use conda_curation::packagerelations::PackageRelations;
use conda_curation::record::PackageRecord;

fn record(name: &str, version: &str, build: &str, build_number: u64, depends: &[&str]) -> PackageRecord {
    PackageRecord {
        name: name.to_string(),
        version: version.to_string(),
        build: build.to_string(),
        build_number,
        features: None,
        track_features: Vec::new(),
        depends: depends.iter().map(|clause| clause.to_string()).collect(),
        md5: None,
        sha256: None,
        license: None,
        license_family: None,
        flags: Vec::new(),
    }
}

fn graph<'a>(cache: &mut Cache, packages: &'a [(String, PackageRecord)]) -> PackageRelations<'a> {
    let mut relations = PackageRelations::new();
    for (filename, package) in packages {
        relations.try_insert(cache, filename, package).expect("the package is taken");
    }
    relations
}

fn survivors(relations: &PackageRelations) -> Vec<String> {
    (0..relations.len())
        .filter(|id| !relations.is_removed(*id))
        .map(|id| relations.metadata(id).filename.to_string())
        .collect()
}

fn constraints(entries: &[(&str, &[&str])]) -> conda_curation::matchspecyaml::UserMatchspecs {
    let raw = entries
        .iter()
        .map(|(name, specs)| UserMatchspec {
            package_name: name.to_string(),
            specs: specs.iter().map(|spec| spec.to_string()).collect(),
        })
        .collect();
    match get_user_matchspecs(raw) {
        Ok(checked) => checked,
        Err(_) => panic!("the constraints are taken"),
    }
}

#[test]
fn user_constraint_keeps_what_a_constraint_admits() {
    let packages = vec![
        ("py-3.10-0".to_string(), record("py", "3.10", "0", 0, &[])),
        ("py-3.11-0".to_string(), record("py", "3.11", "0", 0, &[])),
        ("py-3.12-0".to_string(), record("py", "3.12", "0", 0, &[])),
    ];
    let mut cache = Cache::with_capacity(8);
    let mut relations = graph(&mut cache, &packages);
    let user = constraints(&[("py", &[">=3.11,<3.12"])]);
    let logs = relations.apply_user_matchspecs(&user);
    assert_eq!(survivors(&relations), vec!["py-3.11-0"]);
    let removed: Vec<&str> = logs.iter().map(|log| log.filename()).collect();
    assert_eq!(removed, vec!["py-3.10-0", "py-3.12-0"]);
    assert_eq!(logs[0].package_name(), "py");
    assert_eq!(logs[0].message(), "py-3.10-0 removed: failed user matchspec");
}

#[test]
fn build_prune_keeps_the_highest_build_number() {
    let packages = vec![
        ("lib-1.0-h0123456_0".to_string(), record("lib", "1.0", "h0123456_0", 0, &[])),
        ("lib-1.0-h0123456_1".to_string(), record("lib", "1.0", "h0123456_1", 1, &[])),
        ("lib-1.0-h0123456_2".to_string(), record("lib", "1.0", "h0123456_2", 2, &[])),
    ];
    let mut cache = Cache::with_capacity(8);
    let mut relations = graph(&mut cache, &packages);
    let logs = relations.apply_build_prune();
    assert_eq!(survivors(&relations), vec!["lib-1.0-h0123456_2"]);
    assert_eq!(logs.len(), 2);
    assert_eq!(logs[0].filename, "lib-1.0-h0123456_0");
    assert_eq!(logs[1].filename, "lib-1.0-h0123456_1");
    assert_eq!(logs[0].build_number, 2);
    assert_eq!(logs[1].build_number, 2);
    assert_eq!(logs[0].message(), "lib-1.0-h0123456_0 removed: superceded by build 2");
}

#[test]
fn cascade_removes_what_depends_on_the_removed() {
    let packages = vec![
        ("app-1".to_string(), record("app", "1", "0", 0, &["py 3.10.*"])),
        ("py-3.10".to_string(), record("py", "3.10", "0", 0, &[])),
        ("py-3.11".to_string(), record("py", "3.11", "0", 0, &[])),
    ];
    let mut cache = Cache::with_capacity(8);
    let mut relations = graph(&mut cache, &packages);
    let user = constraints(&[("py", &[">=3.11"])]);
    let by_user = relations.apply_user_matchspecs(&user);
    assert_eq!(by_user.len(), 1);
    assert_eq!(by_user[0].filename, "py-3.10");
    let logs = relations.find_unresolveables(&cache, vec!["py"]);
    assert_eq!(logs.len(), 1);
    assert_eq!(logs[0].filename, "app-1");
    assert_eq!(logs[0].package_name, "app");
    assert_eq!(logs[0].dependency_package_name, "py");
    assert_eq!(logs[0].matchspec, "3.10.*");
    assert_eq!(logs[0].cause_filename, Some("py-3.10"));
    assert_eq!(survivors(&relations), vec!["py-3.11"]);
    assert_eq!(
        logs[0].message(),
        "app-1 removed: dependency py 3.10.* unsatisfiable after removal of py-3.10"
    );
}

#[test]
fn arch_ban_removes_what_needs_another_system() {
    let packages = vec![("foo-1".to_string(), record("foo", "1", "0", 0, &["__win"]))];
    let mut cache = Cache::with_capacity(8);
    let mut relations = graph(&mut cache, &packages);
    let logs = relations.apply_incompatible_architecture("linux-64");
    assert_eq!(logs.len(), 1);
    assert_eq!(logs[0].filename, "foo-1");
    assert_eq!(logs[0].virtual_package, "__win");
    assert_eq!(logs[0].actual_architecture, "linux-64");
    assert!(relations.is_removed(0));
    let edge = relations.find_edge("__win", "").expect("the edge is there");
    assert!(relations.dependency(edge).unsatisfiable);
    assert_eq!(
        logs[0].message(),
        "foo-1 removed: relies on __win which is impossible in linux-64"
    );
}

#[test]
fn must_compatible_removes_what_fits_no_variant() {
    let packages = vec![
        ("libc-2.0".to_string(), record("libc", "2.0", "0", 0, &[])),
        ("libc-2.17".to_string(), record("libc", "2.17", "0", 0, &[])),
        ("libc-2.28".to_string(), record("libc", "2.28", "0", 0, &[])),
        ("py-3.10".to_string(), record("py", "3.10", "0", 0, &["libc 2.17"])),
        ("py-3.11".to_string(), record("py", "3.11", "0", 0, &["libc 2.28"])),
        ("widget-1".to_string(), record("widget", "1", "0", 0, &["libc 2.0"])),
    ];
    let mut cache = Cache::with_capacity(8);
    let mut relations = graph(&mut cache, &packages);
    let logs = relations.apply_must_compatible(&cache, "py");
    assert_eq!(logs.len(), 1);
    assert_eq!(logs[0].filename, "libc-2.0");
    assert_eq!(logs[0].incompatible_with, "py");
    let unresolved = relations.find_unresolveables(&cache, vec!["libc"]);
    let gone: Vec<&str> = unresolved.iter().map(|log| log.filename).collect();
    assert_eq!(gone, vec!["widget-1"]);
    assert_eq!(
        survivors(&relations),
        vec!["libc-2.17", "libc-2.28", "py-3.10", "py-3.11"]
    );
}

#[test]
fn feature_ban_removes_the_feature() {
    let mut numpy = record("numpy", "1.0", "pypy", 0, &[]);
    numpy.features = Some("pypy".to_string());
    let packages = vec![
        ("numpy-pypy".to_string(), numpy),
        ("numpy-plain".to_string(), record("numpy", "1.0", "plain", 0, &[])),
    ];
    let mut cache = Cache::with_capacity(8);
    let mut relations = graph(&mut cache, &packages);
    let logs = relations.apply_feature_removal(&vec!["pypy"]);
    assert_eq!(logs.len(), 1);
    assert_eq!(logs[0].filename, "numpy-pypy");
    assert_eq!(logs[0].feature, "pypy");
    assert_eq!(survivors(&relations), vec!["numpy-plain"]);
}

#[test]
fn matchspec_cache() {
    let mut cache = Cache::with_capacity(8);
    let spec1 = cache.get_or_insert("python 3.6").unwrap_or_else(|_| panic!("taken"));
    let spec2 = cache.get_or_insert("python 3.6").unwrap_or_else(|_| panic!("taken"));
    let spec3 = cache.get_or_insert("python 3.7").unwrap_or_else(|_| panic!("taken"));
    assert!(spec1 == spec2);
    assert_ne!(spec2, spec3);
}

use conda_curation::logs::Log;
use conda_curation::matchspeccache::Cache;
use conda_curation::matchspeccache::mentions_channel;
use conda_curation::matchspecyaml::get_user_matchspecs;
use conda_curation::matchspecyaml::UserMatchspec;
use conda_curation::matchspecyaml::UserMatchspecs;
use conda_curation::packagerelations::admission::InsertError;
use conda_curation::conda::VersionComponent;
use conda_curation::packagerelations::architecture::get_virtual_package_bans;
use conda_curation::packagerelations::build_prune::strip_build_number;
use conda_curation::packagerelations::compatible::constraints_of;
use conda_curation::packagerelations::build_prune::superseding_builds;
use conda_curation::packagerelations::policy::components_banned;
use conda_curation::packagerelations::policy::is_version_banned;
use conda_curation::packagerelations::unresolved::Evaluation;
use conda_curation::packagerelations::PackageRelations;
use conda_curation::record::PackageRecord;

fn plain(name: &str, version: &str, build: &str, build_number: u64, depends: &[&str]) -> PackageRecord {
    PackageRecord {
        name: name.to_string(),
        version: version.to_string(),
        build: build.to_string(),
        build_number,
        features: None,
        track_features: Vec::new(),
        depends: depends.iter().map(|clause| clause.to_string()).collect(),
        md5: None,
        sha256: None,
        license: None,
        license_family: None,
        flags: Vec::new(),
    }
}

fn filled<'a>(cache: &mut Cache, packages: &'a [(String, PackageRecord)]) -> PackageRelations<'a> {
    let mut relations = PackageRelations::new();
    for (filename, package) in packages {
        relations.try_insert(cache, filename, package).expect("the package is taken");
    }
    relations
}

fn left(relations: &PackageRelations) -> Vec<String> {
    (0..relations.len())
        .filter(|id| !relations.is_removed(*id))
        .map(|id| relations.metadata(id).filename.to_string())
        .collect()
}

fn checked(entries: &[(&str, &[&str])]) -> UserMatchspecs {
    let raw = entries
        .iter()
        .map(|(name, specs)| UserMatchspec {
            package_name: name.to_string(),
            specs: specs.iter().map(|spec| spec.to_string()).collect(),
        })
        .collect();
    get_user_matchspecs(raw).expect("the constraints are taken")
}

fn named(pairs: &[(&str, PackageRecord)]) -> Vec<(String, PackageRecord)> {
    pairs
        .iter()
        .map(|(filename, package)| {
            (
                filename.to_string(),
                PackageRecord {
                    name: package.name.clone(),
                    version: package.version.clone(),
                    build: package.build.clone(),
                    build_number: package.build_number,
                    features: package.features.clone(),
                    track_features: package.track_features.clone(),
                    depends: package.depends.clone(),
                    md5: package.md5,
                    sha256: package.sha256,
                    license: package.license.clone(),
                    license_family: package.license_family.clone(),
                    flags: package.flags.clone(),
                },
            )
        })
        .collect()
}

#[test]
fn insert_builds_ranges_and_edges() {
    let packages = named(&[
        ("a-1", plain("a", "1", "0", 0, &["b >=1", "c"])),
        ("a-2", plain("a", "2", "0", 0, &["b >=1"])),
        ("b-1", plain("b", "1", "0", 0, &[])),
        ("c-1", plain("c", "1", "0", 0, &["b >=1"])),
    ]);
    let mut cache = Cache::with_capacity(4);
    let relations = filled(&mut cache, &packages);
    assert_eq!(relations.stats(), (4, 3, 2));
    assert_eq!(relations.mkrange("a"), (0, 2));
    assert_eq!(relations.mkrange("b"), (2, 3));
    assert_eq!(relations.mkrange("c"), (3, 4));
    assert_eq!(relations.mkrange("d"), (0, 0));
    let to_b = relations.find_edge("b", ">=1").expect("the edge is there");
    let dependers: Vec<u32> = relations.dependency(to_b).dependers.iter().map(|d| d.index).collect();
    assert_eq!(dependers, vec![0, 1, 3]);
    let to_c = relations.find_edge("c", "").expect("the edge is there");
    assert_eq!(relations.dependency(to_c).name, "c");
    assert_eq!(relations.dependency(to_c).matchspec, "");
    assert!(relations.find_edge("b", ">=2").is_none());
    assert_eq!(relations.get_dependencies(0), vec![to_b, to_c]);
    assert_eq!(relations.find_name("b"), Some(0));
    assert_eq!(relations.depended_name(1), "c");
    assert_eq!(relations.edges_of(0), &vec![to_b]);
    assert_eq!(cache.len(), 2);
    assert_eq!(left(&relations).len(), 4);
}

#[test]
fn insert_refuses_a_name_that_comes_back() {
    let packages = named(&[
        ("a-1", plain("a", "1", "0", 0, &[])),
        ("b-1", plain("b", "1", "0", 0, &[])),
    ]);
    let late = plain("a", "2", "0", 0, &[]);
    let mut cache = Cache::with_capacity(4);
    let mut relations = filled(&mut cache, &packages);
    let outcome = relations.try_insert(&mut cache, "a-2", &late);
    assert!(matches!(outcome, Err(InsertError::OutOfOrder)));
    assert_eq!(relations.len(), 2);
    assert_eq!(relations.mkrange("a"), (0, 1));
}

#[test]
fn a_channel_is_named_by_two_colons_or_by_its_key() {
    assert!(!mentions_channel(""));
    assert!(!mentions_channel(">=1.2[build=foo]"));
    assert!(!mentions_channel("[version=1.0.*, build_number=\">6\"]"));
    assert!(!mentions_channel("ns:1.0"));
    assert!(!mentions_channel("channel"));
    assert!(!mentions_channel("[subdir=linux-64]"));
    assert!(!mentions_channel("[fn=my-channel.conda]"));
    assert!(!mentions_channel(":[build=a:b]"));
    assert!(!mentions_channel("ns:1.0[build=\"a:b\"]"));
    assert!(mentions_channel("conda-forge::1.0"));
    assert!(mentions_channel("a:b:c"));
    assert!(mentions_channel("a::1.0[build=x]"));
    assert!(mentions_channel("[build=a:b:c"));
    assert!(mentions_channel("[channel=x]"));
    assert!(mentions_channel("[channel \t= x]"));
    assert!(mentions_channel("1.0[build=x, channel=y]"));
}

#[test]
fn stats_count_package_names() {
    let packages = named(&[
        ("app-1", plain("app", "1", "0", 0, &["py 3.10.*"])),
        ("py-3.10", plain("py", "3.10", "0", 0, &[])),
        ("py-3.11", plain("py", "3.11", "0", 0, &[])),
    ]);
    let mut cache = Cache::with_capacity(4);
    let relations = filled(&mut cache, &packages);
    assert_eq!(relations.stats(), (3, 2, 1));
}

#[test]
fn insert_takes_a_clause_without_a_name() {
    let packages = named(&[
        ("a-1", plain("a", "1", "0", 0, &["", "b\u{a0}1"])),
        ("b-1", plain("b", "1", "0", 0, &[])),
    ]);
    let mut cache = Cache::with_capacity(4);
    let mut relations = filled(&mut cache, &packages);
    assert_eq!(relations.stats(), (2, 2, 2));
    assert!(relations.find_edge("", "").is_some());
    assert!(relations.find_edge("b", "1").is_some());
    let logs = relations.find_unresolveables(&cache, vec!["", "b"]);
    assert_eq!(logs.len(), 1);
    assert_eq!(logs[0].filename, "a-1");
    assert_eq!(logs[0].dependency_package_name, "");
    assert_eq!(logs[0].cause_filename, None);
    assert_eq!(left(&relations), vec!["b-1"]);
}

#[test]
fn constraints_in_brackets_are_read_from_their_text() {
    let mut with_digest = plain("lib", "1.2", "h1234567_7", 7, &[]);
    with_digest.md5 = Some([0xab; 16]);
    with_digest.sha256 = Some([0x01; 32]);
    with_digest.license = Some("MIT".to_string());
    with_digest.license_family = Some("MIT".to_string());
    let packages = named(&[
        ("app-1", plain("app", "1", "0", 0, &["lib >=1.2[build=h1234567_7]"])),
        ("app-2", plain("app", "2", "0", 0, &["lib [version=1.*, build_number=\">6\"]"])),
        ("app-3", plain("app", "3", "0", 0, &["lib [md5=abababababababababababababababab]"])),
        ("app-4", plain("app", "4", "0", 0, &["lib [md5=cdcdcdcdcdcdcdcdcdcdcdcdcdcdcdcd]"])),
        ("app-5", plain("app", "5", "0", 0, &["lib [license=GPL]"])),
        ("app-6", plain("app", "6", "0", 0, &["lib [license=MIT, license_family=MIT]"])),
        ("app-7", plain("app", "7", "0", 0, &["lib [build_number=\">7\"]"])),
        ("app-8", plain("app", "8", "0", 0, &["lib ns:>=1.0"])),
        (
            "app-9",
            plain(
                "app",
                "9",
                "0",
                0,
                &["lib [sha256=0101010101010101010101010101010101010101010101010101010101010101]"],
            ),
        ),
        ("lib-1.2", with_digest),
    ]);
    let mut cache = Cache::with_capacity(4);
    let mut relations = filled(&mut cache, &packages);
    assert_eq!(relations.stats(), (10, 2, 9));
    let logs = relations.find_unresolveables(&cache, vec!["lib"]);
    let gone: Vec<&str> = logs.iter().map(|log| log.filename).collect();
    assert_eq!(gone, vec!["app-4", "app-5", "app-7"]);
    assert_eq!(
        left(&relations),
        vec!["app-1", "app-2", "app-3", "app-6", "app-8", "app-9", "lib-1.2"]
    );
}

#[test]
fn user_constraints_in_brackets_are_applied() {
    let packages = named(&[
        ("lib-1.0-0", plain("lib", "1.0", "a_0", 0, &[])),
        ("lib-1.0-7", plain("lib", "1.0", "b_7", 7, &[])),
        ("lib-2.0-9", plain("lib", "2.0", "b_9", 9, &[])),
    ]);
    let mut cache = Cache::with_capacity(4);
    let mut relations = filled(&mut cache, &packages);
    let specs = checked(&[("lib", &["[version=1.0.*, build_number=\">6\"]", "1.0[build=a_*]"])]);
    let logs = relations.apply_user_matchspecs(&specs);
    assert_eq!(logs.len(), 1);
    assert_eq!(logs[0].filename, "lib-2.0-9");
    assert_eq!(left(&relations), vec!["lib-1.0-0", "lib-1.0-7"]);
}

#[test]
fn insert_refuses_what_cannot_be_read() {
    let mut cache = Cache::with_capacity(4);
    let mut relations = PackageRelations::new();
    let bad_version = plain("a", "1..2!!", "0", 0, &[]);
    assert!(matches!(
        relations.try_insert(&mut cache, "a-1", &bad_version),
        Err(InsertError::InvalidVersion)
    ));
    let garbled = plain("a", "1", "0", 0, &["b >=1", "c >=1.0,<"]);
    let refused = relations.try_insert(&mut cache, "a-1", &garbled);
    let expected = rattler_conda_types::NamelessMatchSpec::from_str(
        ">=1.0,<",
        rattler_conda_types::ParseStrictness::Lenient,
    )
    .expect_err("the parser refuses it");
    match refused {
        Err(InsertError::BadConstraint(1, error)) => {
            assert_eq!(error.to_string(), expected.to_string())
        }
        other => panic!("expected the parser's error, got {other:?}"),
    }
    assert_eq!(relations.len(), 0);
    assert_eq!(relations.stats(), (0, 0, 0));
    assert_eq!(cache.len(), 1);
    assert!(cache.find(">=1").is_some());
}

#[test]
fn constraints_that_name_a_channel_are_taken() {
    let packages = named(&[
        ("app-1", plain("app", "1", "0", 0, &["lib conda-forge::>=1.0"])),
        ("app-2", plain("app", "2", "0", 0, &["lib [channel=conda-forge, version=\"2.*\"]"])),
        ("app-3", plain("app", "3", "0", 0, &["lib conda-forge/linux-64::1.2[build=h*]"])),
        ("lib-1.2", plain("lib", "1.2", "h1_0", 0, &[])),
    ]);
    let mut cache = Cache::with_capacity(4);
    let mut relations = filled(&mut cache, &packages);
    assert_eq!(relations.stats(), (4, 2, 3));
    assert_eq!(cache.len(), 3);
    assert!(cache.find("conda-forge::>=1.0").is_some());
    let logs = relations.find_unresolveables(&cache, vec!["lib"]);
    let gone: Vec<&str> = logs.iter().map(|log| log.filename).collect();
    assert_eq!(gone, vec!["app-2"]);
    assert_eq!(logs[0].matchspec, "[channel=conda-forge, version=\"2.*\"]");
    assert_eq!(left(&relations), vec!["app-1", "app-3", "lib-1.2"]);
    let user = checked(&[("lib", &["conda-forge::2.*", "defaults::1.*"])]);
    assert!(relations.apply_user_matchspecs(&user).is_empty());
    let user = checked(&[("lib", &["conda-forge::2.*"])]);
    let logs = relations.apply_user_matchspecs(&user);
    assert_eq!(logs.len(), 1);
    assert_eq!(logs[0].filename, "lib-1.2");
}

#[test]
fn insert_refuses_more_variants_than_a_range_counts() {
    let record = plain("a", "1", "0", 0, &[]);
    let names: Vec<String> = (0..65536).map(|k| format!("a-{k}")).collect();
    let mut cache = Cache::with_capacity(4);
    let mut relations = PackageRelations::new();
    for name in names.iter().take(65535) {
        assert!(relations.try_insert(&mut cache, name, &record).is_ok());
    }
    assert_eq!(relations.mkrange("a"), (0, 65535));
    assert!(matches!(
        relations.try_insert(&mut cache, &names[65535], &record),
        Err(InsertError::TooManyVariants)
    ));
    assert_eq!(relations.len(), 65535);
}

#[test]
fn removal_is_kept_by_later_passes() {
    let packages = named(&[
        ("app-1", plain("app", "1", "0", 0, &["py 3.10.*", "__osx"])),
        ("lib-1.0-h0123456_0", plain("lib", "1.0", "h0123456_0", 0, &[])),
        ("lib-1.0-h0123456_1", plain("lib", "1.0", "h0123456_1", 1, &[])),
        ("py-3.10", plain("py", "3.10", "0", 0, &[])),
        ("py-3.11", plain("py", "3.11", "0", 0, &[])),
        ("py-3.12rc1", plain("py", "3.12rc1", "0", 0, &[])),
    ]);
    let mut cache = Cache::with_capacity(4);
    let mut relations = filled(&mut cache, &packages);
    let mut gone: Vec<bool> = vec![false; relations.len()];
    let mut check = |relations: &PackageRelations| {
        for id in 0..relations.len() {
            assert!(!gone[id] || relations.is_removed(id));
            gone[id] = relations.is_removed(id);
        }
    };
    relations.apply_user_matchspecs(&checked(&[("py", &[">=3.11"])]));
    check(&relations);
    relations.apply_build_prune();
    check(&relations);
    relations.apply_feature_removal(&vec!["pypy"]);
    check(&relations);
    relations.apply_dev_rc_ban(true, true);
    check(&relations);
    relations.apply_incompatible_architecture("linux-64");
    check(&relations);
    relations.find_all_unresolveables(&cache);
    check(&relations);
    relations.apply_must_compatible(&cache, "py");
    check(&relations);
    relations.shrink_to_fit();
    check(&relations);
    assert_eq!(left(&relations), vec!["lib-1.0-h0123456_1", "py-3.11"]);
    assert_eq!(relations.len(), 6);
    assert_eq!(relations.stats().0, 6);
}

#[test]
fn user_constraints_applied_twice_remove_nothing_more() {
    let packages = named(&[
        ("py-3.10", plain("py", "3.10", "0", 0, &[])),
        ("py-3.11", plain("py", "3.11", "0", 0, &[])),
        ("py-3.12", plain("py", "3.12", "0", 0, &[])),
        ("zlib-1", plain("zlib", "1", "0", 0, &[])),
    ]);
    let mut cache = Cache::with_capacity(4);
    let mut relations = filled(&mut cache, &packages);
    let user = checked(&[("py", &["3.10.*", ">=3.12"]), ("py", &["<3.12"]), ("absent", &["1"])]);
    let first = relations.apply_user_matchspecs(&user);
    let files: Vec<&str> = first.iter().map(|log| log.filename).collect();
    assert_eq!(files, vec!["py-3.11", "py-3.12"]);
    let after_first = left(&relations);
    assert_eq!(after_first, vec!["py-3.10", "zlib-1"]);
    let second = relations.apply_user_matchspecs(&user);
    assert!(second.is_empty());
    assert_eq!(left(&relations), after_first);
}

#[test]
fn build_prune_of_mixed_groups() {
    let packages = named(&[
        ("lib-1.0-a", plain("lib", "1.0", "py38h0123456_1", 1, &[])),
        ("lib-1.0-b", plain("lib", "1.0", "py38h0123456_3", 3, &[])),
        ("lib-1.0-c", plain("lib", "1.0", "plain_7", 7, &[])),
        ("lib-1.0-d", plain("lib", "1.0", "py38h0123456_2", 2, &[])),
        ("lib-1.0-e", plain("lib", "1.0", "py38h0123456_3", 3, &[])),
        ("lib-1.0-f", plain("lib", "1.0", "py39h0123456_0", 0, &[])),
        ("lib-1.1-g", plain("lib", "1.1", "py39h0123456_1", 1, &[])),
        ("lib-1.1-h", plain("lib", "1.1", "py39h0123456_0", 0, &[])),
    ]);
    let mut cache = Cache::with_capacity(4);
    let mut relations = filled(&mut cache, &packages);
    let logs = relations.apply_build_prune();
    let removed: Vec<(&str, u64)> = logs.iter().map(|log| (log.filename, log.build_number)).collect();
    assert_eq!(
        removed,
        vec![("lib-1.0-a", 3), ("lib-1.0-d", 3), ("lib-1.1-h", 1)]
    );
    assert_eq!(logs[0].package_name, "lib");
    assert_eq!(
        left(&relations),
        vec!["lib-1.0-b", "lib-1.0-c", "lib-1.0-e", "lib-1.0-f", "lib-1.1-g"]
    );
}

#[test]
fn build_prune_strips_only_the_build_number() {
    let packages = named(&[
        ("x-1", plain("x", "1", "h0123456_10", 10, &[])),
        ("x-2", plain("x", "1", "h0123456_1", 1, &[])),
        ("x-3", plain("x", "1", "h0123456_17", 7, &[])),
    ]);
    let mut cache = Cache::with_capacity(4);
    let mut relations = filled(&mut cache, &packages);
    let logs = relations.apply_build_prune();
    let removed: Vec<&str> = logs.iter().map(|log| log.filename).collect();
    assert_eq!(removed, vec!["x-2"]);
    assert_eq!(logs[0].build_number, 10);
    assert_eq!(left(&relations), vec!["x-1", "x-3"]);
}

#[test]
fn dev_and_rc_versions_go_under_their_bans() {
    let packages = named(&[
        ("a-1.0", plain("a", "1.0", "0", 0, &[])),
        ("a-1.1.dev1", plain("a", "1.1.dev1", "0", 0, &[])),
        ("a-1.1rc2", plain("a", "1.1rc2", "0", 0, &[])),
        ("a-1.2a1", plain("a", "1.2a1", "0", 0, &[])),
    ]);
    let mut cache = Cache::with_capacity(4);
    let mut none = filled(&mut cache, &packages);
    assert!(none.apply_dev_rc_ban(false, false).is_empty());
    assert_eq!(left(&none).len(), 4);
    let mut dev = filled(&mut cache, &packages);
    let logs = dev.apply_dev_rc_ban(true, false);
    assert_eq!(logs.len(), 1);
    assert_eq!(logs[0].filename, "a-1.1.dev1");
    assert_eq!(logs[0].package_name, "a");
    let mut rc = filled(&mut cache, &packages);
    let logs = rc.apply_dev_rc_ban(false, true);
    assert_eq!(logs.len(), 1);
    assert_eq!(logs[0].filename, "a-1.1rc2");
    let mut both = filled(&mut cache, &packages);
    let logs = both.apply_dev_rc_ban(true, true);
    assert_eq!(logs.len(), 2);
    assert_eq!(left(&both), vec!["a-1.0", "a-1.2a1"]);
    assert_eq!(logs[1].message(), "a-1.1rc2 removed: dev/rc policy");
}

#[test]
fn feature_ban_looks_at_tracked_features_too() {
    let mut trailing = plain("numpy", "1.0", "t", 0, &[]);
    trailing.track_features = vec!["nomkl".to_string(), "pypy".to_string()];
    let mut both = plain("numpy", "1.0", "u", 0, &[]);
    both.features = Some("debug".to_string());
    both.track_features = vec!["pypy".to_string()];
    let packages = vec![
        ("numpy-plain".to_string(), plain("numpy", "1.0", "p", 0, &[])),
        ("numpy-tracked".to_string(), trailing),
        ("numpy-both".to_string(), both),
    ];
    let mut cache = Cache::with_capacity(4);
    let mut relations = filled(&mut cache, &packages);
    assert!(relations.apply_feature_removal(&Vec::new()).is_empty());
    let logs = relations.apply_feature_removal(&vec!["pypy", "debug"]);
    let found: Vec<(&str, &str)> = logs.iter().map(|log| (log.filename, log.feature)).collect();
    assert_eq!(found, vec![("numpy-tracked", "pypy"), ("numpy-both", "debug")]);
    assert_eq!(left(&relations), vec!["numpy-plain"]);
    assert_eq!(logs[0].message(), "numpy-tracked removed: has banned feature pypy");
}

#[test]
fn architecture_ban_frees_the_survivors_of_banned_virtuals() {
    let packages = named(&[
        ("a-1", plain("a", "1", "0", 0, &["__osx >=10", "zlib"])),
        ("b-1", plain("b", "1", "0", 0, &["__glibc >=2.17"])),
        ("c-1", plain("c", "1", "0", 0, &["__win", "__osx"])),
        ("zlib-1", plain("zlib", "1", "0", 0, &[])),
    ]);
    let mut cache = Cache::with_capacity(4);
    let mut relations = filled(&mut cache, &packages);
    let logs = relations.apply_incompatible_architecture("linux-aarch64");
    let found: Vec<(&str, &str)> = logs.iter().map(|log| (log.filename, log.virtual_package)).collect();
    assert_eq!(found, vec![("a-1", "__osx"), ("c-1", "__osx"), ("c-1", "__win")]);
    assert_eq!(left(&relations), vec!["b-1", "zlib-1"]);
    for id in 0..relations.len() {
        if !relations.is_removed(id) {
            for clause in &relations.metadata(id).package_record.depends {
                assert!(!clause.starts_with("__osx") && !clause.starts_with("__win"));
            }
        }
    }
    let to_glibc = relations.find_edge("__glibc", ">=2.17").expect("the edge is there");
    assert!(!relations.dependency(to_glibc).unsatisfiable);
    let to_osx = relations.find_edge("__osx", ">=10").expect("the edge is there");
    assert!(relations.dependency(to_osx).unsatisfiable);
    let mut unknown = filled(&mut cache, &packages);
    assert!(unknown.apply_incompatible_architecture("zos-z").is_empty());
    assert_eq!(left(&unknown).len(), 4);
}

#[test]
fn virtual_bans_by_operating_system() {
    assert_eq!(get_virtual_package_bans("linux-64"), vec!["__osx", "__win"]);
    assert_eq!(get_virtual_package_bans("osx-arm64"), vec!["__linux", "__win", "__glibc"]);
    assert_eq!(get_virtual_package_bans("freebsd-64"), vec!["__linux", "__win", "__glibc"]);
    assert_eq!(
        get_virtual_package_bans("win-32"),
        vec!["__linux", "__unix", "__glibc", "__osx"]
    );
    assert!(get_virtual_package_bans("zos-z").is_empty());
    assert!(get_virtual_package_bans("linux64").is_empty());
    assert_eq!(get_virtual_package_bans("linux"), vec!["__osx", "__win"]);
    assert!(get_virtual_package_bans("").is_empty());
}

#[test]
fn a_provider_that_is_still_there_is_a_cache_hit() {
    let packages = named(&[
        ("app-1", plain("app", "1", "0", 0, &["py >=3.10"])),
        ("py-3.10", plain("py", "3.10", "0", 0, &[])),
        ("py-3.11", plain("py", "3.11", "0", 0, &[])),
    ]);
    let mut cache = Cache::with_capacity(4);
    let mut relations = filled(&mut cache, &packages);
    let edge = relations.find_edge("py", ">=3.10").expect("the edge is there");
    assert!(matches!(relations.evaluate(&cache, edge), Some(Evaluation::UpdateSolution(e, offset)) if e == edge && offset.offset == 0));
    assert!(relations.find_unresolveables(&cache, vec!["py"]).is_empty());
    assert_eq!(relations.dependency(edge).last_successful_resolution.map(|o| o.offset), Some(0));
    assert!(relations.evaluate(&cache, edge).is_none());
    relations.mark_removed(1);
    assert!(matches!(relations.evaluate(&cache, edge), Some(Evaluation::UpdateSolution(e, offset)) if e == edge && offset.offset == 1));
    assert!(relations.find_unresolveables(&cache, vec!["py"]).is_empty());
    assert!(relations.evaluate(&cache, edge).is_none());
    relations.mark_removed(2);
    assert!(matches!(
        relations.evaluate(&cache, edge),
        Some(Evaluation::RemoveAndLog(e, Some(cause))) if e == edge && cause.index == 2
    ));
    let logs = relations.find_unresolveables(&cache, vec!["py", "absent"]);
    assert_eq!(logs.len(), 1);
    assert_eq!(logs[0].filename, "app-1");
    assert_eq!(logs[0].cause_filename, Some("py-3.11"));
    assert!(relations.dependency(edge).unsatisfiable);
    assert!(relations.find_unresolveables(&cache, vec!["py"]).is_empty());
}

#[test]
fn an_edge_never_met_names_no_cause_or_the_first_lost_provider() {
    let packages = named(&[
        ("app-1", plain("app", "1", "0", 0, &["py >=4", "py 3.10.*"])),
        ("py-3.10", plain("py", "3.10", "0", 0, &[])),
        ("py-3.10.1", plain("py", "3.10.1", "0", 0, &[])),
    ]);
    let mut cache = Cache::with_capacity(4);
    let mut relations = filled(&mut cache, &packages);
    relations.mark_removed(1);
    relations.mark_removed(2);
    let logs = relations.find_unresolveables(&cache, vec!["py"]);
    assert_eq!(logs.len(), 2);
    assert_eq!(logs[0].matchspec, ">=4");
    assert_eq!(logs[0].cause_filename, None);
    assert_eq!(
        logs[0].message(),
        "app-1 removed: dependency py >=4 unsatisfiable, seemingly due to no fault of our own"
    );
    assert_eq!(logs[1].matchspec, "3.10.*");
    assert_eq!(logs[1].cause_filename, Some("py-3.10"));
}

#[test]
fn a_second_round_removes_nothing_unless_the_first_took_a_provider() {
    let packages = named(&[
        ("app-1", plain("app", "1", "0", 0, &["py 3.10.*"])),
        ("py-3.10", plain("py", "3.10", "0", 0, &[])),
        ("tool-1", plain("tool", "1", "0", 0, &["py"])),
    ]);
    let mut cache = Cache::with_capacity(4);
    let mut relations = filled(&mut cache, &packages);
    relations.mark_removed(1);
    let first = relations.find_unresolveables(&cache, vec!["py"]);
    assert_eq!(first.len(), 2);
    assert!(relations.find_unresolveables(&cache, vec!["py"]).is_empty());

    let chained = named(&[
        ("app-1", plain("app", "1", "0", 0, &["py 3.10.*"])),
        ("py-3.10", plain("py", "3.10", "0", 0, &[])),
        ("tool-1", plain("tool", "1", "0", 0, &["app"])),
    ]);
    let mut relations = filled(&mut cache, &chained);
    relations.mark_removed(1);
    let first = relations.find_unresolveables(&cache, vec!["app", "py"]);
    let files: Vec<&str> = first.iter().map(|log| log.filename).collect();
    assert_eq!(files, vec!["app-1"]);
    let second = relations.find_unresolveables(&cache, vec!["app", "py"]);
    let files: Vec<&str> = second.iter().map(|log| log.filename).collect();
    assert_eq!(files, vec!["tool-1"]);
    assert!(relations.find_unresolveables(&cache, vec!["app", "py"]).is_empty());
}

#[test]
fn find_all_passes_virtual_packages_over() {
    let packages = named(&[
        ("a-1", plain("a", "1", "0", 0, &["__glibc >=2.17", "missing"])),
        ("b-1", plain("b", "1", "0", 0, &["__cuda"])),
    ]);
    let mut cache = Cache::with_capacity(4);
    let mut relations = filled(&mut cache, &packages);
    let logs = relations.find_all_unresolveables(&cache);
    let files: Vec<&str> = logs.iter().map(|log| log.filename).collect();
    assert_eq!(files, vec!["a-1"]);
    assert_eq!(left(&relations), vec!["b-1"]);
}

#[test]
fn must_compatible_descends_into_what_all_variants_need() {
    let packages = named(&[
        ("libc-2.0", plain("libc", "2.0", "0", 0, &[])),
        ("libc-2.17", plain("libc", "2.17", "0", 0, &["base 1"])),
        ("libc-2.28", plain("libc", "2.28", "0", 0, &["base 1"])),
        ("base-1", plain("base", "1", "0", 0, &[])),
        ("base-2", plain("base", "2", "0", 0, &[])),
        ("extra-1", plain("extra", "1", "0", 0, &[])),
        ("extra-2", plain("extra", "2", "0", 0, &[])),
        ("py-3.10", plain("py", "3.10", "0", 0, &["libc 2.17", "extra 1"])),
        ("py-3.11", plain("py", "3.11", "0", 0, &["libc 2.28"])),
    ]);
    let mut cache = Cache::with_capacity(4);
    let mut relations = filled(&mut cache, &packages);
    let logs = relations.apply_must_compatible(&cache, "py");
    let found: Vec<(&str, &str)> = logs.iter().map(|log| (log.filename, log.incompatible_with)).collect();
    assert_eq!(found, vec![("libc-2.0", "py"), ("base-2", "libc")]);
    assert_eq!(logs[0].package_name, "libc");
    assert_eq!(logs[0].message(), "libc-2.0 removed: incompatible with py");
    assert_eq!(
        left(&relations),
        vec!["libc-2.17", "libc-2.28", "base-1", "extra-1", "extra-2", "py-3.10", "py-3.11"]
    );
    assert!(relations.apply_must_compatible(&cache, "absent").is_empty());
}

#[test]
fn must_compatible_stops_where_names_go_round() {
    let packages = named(&[
        ("a-1", plain("a", "1", "0", 0, &["b"])),
        ("b-1", plain("b", "1", "0", 0, &["a"])),
    ]);
    let mut cache = Cache::with_capacity(4);
    let mut relations = filled(&mut cache, &packages);
    assert!(relations.apply_must_compatible(&cache, "a").is_empty());
    assert_eq!(left(&relations).len(), 2);
}

#[test]
fn must_compatible_takes_the_last_clause_of_the_first_variant() {
    let packages = named(&[
        ("dep-1", plain("dep", "1", "0", 0, &[])),
        ("dep-2", plain("dep", "2", "0", 0, &[])),
        ("dep-3", plain("dep", "3", "0", 0, &[])),
        ("root-1", plain("root", "1", "0", 0, &["dep 1", "dep 2"])),
        ("root-2", plain("root", "2", "0", 0, &["dep 2", "dep 2"])),
    ]);
    let mut cache = Cache::with_capacity(4);
    let mut relations = filled(&mut cache, &packages);
    let logs = relations.apply_must_compatible(&cache, "root");
    let files: Vec<&str> = logs.iter().map(|log| log.filename).collect();
    assert_eq!(files, vec!["dep-1", "dep-3"]);
}

#[test]
fn user_matchspecs_are_checked_in_order() {
    let raw = vec![
        UserMatchspec { package_name: "a".to_string(), specs: vec![">=1".to_string()] },
        UserMatchspec {
            package_name: "b".to_string(),
            specs: vec!["1.*".to_string(), "chan::1".to_string(), ">=1,<".to_string()],
        },
    ];
    let refused = match get_user_matchspecs(raw) {
        Ok(_) => panic!("a constraint cannot be read"),
        Err(refused) => refused,
    };
    assert_eq!((refused.entry, refused.spec), (1, 2));
    let expected = rattler_conda_types::NamelessMatchSpec::from_str(
        ">=1,<",
        rattler_conda_types::ParseStrictness::Lenient,
    )
    .expect_err("the parser refuses it");
    assert_eq!(refused.error.to_string(), expected.to_string());
    let raw = vec![UserMatchspec { package_name: "b".to_string(), specs: vec!["[bogus=1]".to_string()] }];
    let refused = match get_user_matchspecs(raw) {
        Ok(_) => panic!("a constraint cannot be read"),
        Err(refused) => refused,
    };
    assert_eq!((refused.entry, refused.spec), (0, 0));
    assert!(!refused.error.to_string().is_empty());
    let taken = checked(&[("a", &[">=1", ""]), ("b", &[])]);
    assert_eq!(taken.len(), 2);
    assert_eq!(taken.entry(0).package_name, "a");
    assert_eq!(taken.entry(0).specs.len(), 2);
    assert_eq!(taken.entry(1).specs.len(), 0);
}

#[test]
fn cache_hands_out_one_handle_per_text() {
    let mut cache = Cache::with_capacity(2);
    let first = cache.get_or_insert(">=1.0").expect("taken");
    let second = cache.get_or_insert("").expect("taken");
    let again = cache.get_or_insert(">=1.0").expect("taken");
    assert_eq!(first, again);
    assert_ne!(first, second);
    assert_eq!(cache.len(), 2);
    assert_eq!(cache.find(">=1.0"), Some(first));
    assert_eq!(cache.find(""), Some(second));
    for text in ["[bogus=1]", "[flags=cuda]", ">=1.0[build=foo", ">=1.0,<"] {
        let expected = rattler_conda_types::NamelessMatchSpec::from_str(
            text,
            rattler_conda_types::ParseStrictness::Lenient,
        )
        .expect_err("the parser refuses it");
        let error = cache.get_or_insert(text).expect_err("refused");
        assert_eq!(error.to_string(), expected.to_string());
        assert!(cache.find(text).is_none());
    }
    assert_eq!(cache.len(), 2);
    let bracket = cache.get_or_insert(">=1.2[build=foo]").expect("taken");
    let keys = cache.get_or_insert("[version=1.0.*, build_number=\">6\"]").expect("taken");
    let namespace = cache.get_or_insert("ns:1.0").expect("taken");
    assert_eq!(cache.find(">=1.2[build=foo]"), Some(bracket));
    assert_eq!((bracket.index, keys.index, namespace.index), (2, 3, 4));
    assert_eq!(cache.get_or_insert(">=1.2[build=foo]").expect("taken"), bracket);
    assert_eq!(cache.len(), 5);
    let channel = cache.get_or_insert("conda-forge::1.0").expect("taken");
    let key = cache.get_or_insert("[channel=conda-forge]").expect("taken");
    assert_eq!((channel.index, key.index), (5, 6));
    assert_eq!(cache.get_or_insert("conda-forge::1.0").expect("taken"), channel);
    assert_eq!(cache.len(), 7);
}

#[test]
fn superseding_builds_by_group() {
    let records = vec![
        plain("lib", "1.0", "h0123456_1", 1, &[]),
        plain("lib", "1.0", "h0123456_3", 3, &[]),
        plain("lib", "1.0", "h0123456_2", 2, &[]),
        plain("lib", "1.0", "g0123456_9", 9, &[]),
        plain("lib", "1.1", "g0123456_4", 4, &[]),
        plain("lib", "1.1", "g0123456_4", 4, &[]),
        plain("lid", "1.1", "g0123456_5", 5, &[]),
    ];
    let taken: Vec<&PackageRecord> = records.iter().collect();
    assert_eq!(
        superseding_builds(&taken),
        vec![Some(3), None, Some(3), None, None, None, None]
    );
    assert!(superseding_builds(&Vec::new()).is_empty());
    assert_eq!(strip_build_number(&records[0]), "h0123456_");
    assert_eq!(strip_build_number(&plain("x", "1", "py_0", 7, &[])), "py_0");
    assert_eq!(strip_build_number(&plain("x", "1", "0", 0, &[])), "");
}

#[test]
fn version_components_under_the_ban() {
    let parts = vec![
        VersionComponent::Numeral(1),
        VersionComponent::Iden("rc".to_string()),
        VersionComponent::Numeral(2),
    ];
    assert!(components_banned(&parts, false, true));
    assert!(!components_banned(&parts, true, false));
    let parts = vec![VersionComponent::Post, VersionComponent::Dev, VersionComponent::UnderscoreOrDash(true)];
    assert!(components_banned(&parts, true, false));
    assert!(!components_banned(&parts, false, true));
    let parts = vec![VersionComponent::Iden("arc".to_string()), VersionComponent::Iden("r".to_string())];
    assert!(!components_banned(&parts, true, true));
    assert!(!components_banned(&Vec::new(), true, true));
    assert!(is_version_banned("2.0.0rc1", false, true));
    assert!(!is_version_banned("2.0.0rc1", true, false));
    assert!(is_version_banned("2.0.dev3", true, false));
    assert!(!is_version_banned("2.0.0", true, true));
    assert!(!is_version_banned("not a version!!", true, true));
}

#[test]
fn unadmitted_packages_go() {
    let packages = named(&[
        ("a-1", plain("a", "1", "0", 0, &[])),
        ("b-1", plain("b", "1", "0", 0, &[])),
        ("b-2", plain("b", "2", "0", 0, &[])),
        ("b-3", plain("b", "3", "0", 0, &[])),
        ("c-1", plain("c", "1", "0", 0, &[])),
    ]);
    let mut cache = Cache::with_capacity(4);
    let mut relations = filled(&mut cache, &packages);
    relations.mark_removed(3);
    let logs = relations.remove_unadmitted(1, &vec![false, true, false]);
    let files: Vec<&str> = logs.iter().map(|log| log.filename).collect();
    assert_eq!(files, vec!["b-1"]);
    assert_eq!(left(&relations), vec!["a-1", "b-2", "c-1"]);
    assert!(relations.remove_unadmitted(5, &Vec::new()).is_empty());
    cache.get_or_insert("3").expect("taken");
    cache.get_or_insert("1").expect("taken");
    let constraints = constraints_of(&cache, &vec!["3", "1"]);
    let logs = relations.apply_matchspecs("b", &constraints);
    let files: Vec<&str> = logs.iter().map(|log| log.filename).collect();
    assert_eq!(files, vec!["b-2"]);
    assert_eq!(left(&relations), vec!["a-1", "c-1"]);
}

#[test]
fn cache_finds_what_is_interned() {
    let mut cache = Cache::with_capacity(2);
    assert!(cache.find(">=1").is_none());
    let first = cache.get_or_insert(">=1").expect("taken");
    assert_eq!(cache.find(">=1"), Some(first));
    assert!(cache.find(">=2").is_none());
    let error = cache.get_or_insert(">=2,<").expect_err("refused");
    let said = error.to_string();
    let handed_on = cache.intern_read(">=3", Err(error)).expect_err("nothing was read");
    assert_eq!(handed_on.to_string(), said);
    assert!(cache.find(">=3").is_none());
    assert_eq!(cache.len(), 1);
}

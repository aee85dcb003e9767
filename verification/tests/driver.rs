use conda_curation::depends::dependsstr_to_name_and_spec;
use conda_curation::logs::Log;
use conda_curation::logs::RemovedByUserLog;
use conda_curation::matchspeccache::Cache;
use conda_curation::matchspecyaml::get_user_matchspecs;
use conda_curation::matchspecyaml::UserMatchspec;
use conda_curation::noarch::noarch_survivors;
use conda_curation::packagerelations::admission::InsertError;
use conda_curation::packagerelations::graph::PackageMetadata;
use conda_curation::packagerelations::model::PkgIdx;
use conda_curation::packagerelations::model::PkgIdxOffset;
use conda_curation::packagerelations::unresolved::wrap_range_from_middle;
use conda_curation::pipeline::filter_repodata;
use conda_curation::ledger::perform_round;
use conda_curation::pipeline::remaining_percent;
use conda_curation::ledger::NameSet;
use conda_curation::pipeline::Policy;
use conda_curation::rawrepodata::sorted_iter;
use conda_curation::record::PackageRecord;
use conda_curation::text::order_texts;
use conda_curation::text::Rank;
use conda_curation::settings::architectures_or_all;
use conda_curation::settings::architectures_parser;
use conda_curation::settings::is_architecture_char;
use conda_curation::settings::replacement_base_url;
use conda_curation::settings::with_trailing_slash;
use conda_curation::text::decimal_string;
use conda_curation::text::ends_with;
use conda_curation::text::prefix_before;
use conda_curation::text::starts_with;
use conda_curation::text::str_eq;

fn package(name: &str, version: &str, build: &str, build_number: u64, depends: &[&str]) -> PackageRecord {
    PackageRecord {
        name: name.to_string(),
        version: version.to_string(),
        build: build.to_string(),
        build_number,
        features: None,
        track_features: Vec::new(),
        depends: depends.iter().map(|clause| clause.to_string()).collect(),
        md5: None,
        sha256: None,
        license: None,
        license_family: None,
        flags: Vec::new(),
    }
}

#[test]
fn pipeline_runs_the_passes_in_order() {
    let mut pypy = package("numpy", "1.0", "pypy", 0, &["py"]);
    pypy.features = Some("pypy".to_string());
    let packages = vec![
        ("app-1".to_string(), package("app", "1", "0", 0, &["py 3.10.*"])),
        ("libc-2.0".to_string(), package("libc", "2.0", "0", 0, &[])),
        ("libc-2.17".to_string(), package("libc", "2.17", "0", 0, &[])),
        ("mac-1".to_string(), package("mac", "1", "0", 0, &["__osx"])),
        ("numpy-pypy".to_string(), pypy),
        ("py-3.10".to_string(), package("py", "3.10", "h0123456_0", 0, &["libc 2.17"])),
        ("py-3.11-0".to_string(), package("py", "3.11", "h0123456_0", 0, &["libc 2.17"])),
        ("py-3.11-1".to_string(), package("py", "3.11", "h0123456_1", 1, &["libc 2.17"])),
        ("py-3.12rc1".to_string(), package("py", "3.12rc1", "h0123456_0", 0, &["libc 2.17"])),
        ("tool-1".to_string(), package("tool", "1", "0", 0, &["app"])),
        ("widget-1".to_string(), package("widget", "1", "0", 0, &["libc 2.0"])),
    ];
    let policy = Policy {
        ban_dev: true,
        ban_rc: true,
        must_compatible: vec!["py".to_string()],
        explain: true,
    };
    let user = get_user_matchspecs(vec![UserMatchspec {
        package_name: "py".to_string(),
        specs: vec![">=3.11".to_string()],
    }])
    .expect("the constraints are taken");
    let mut cache = Cache::with_capacity(8);
    let sorted = sorted_iter(&packages);
    let curation = filter_repodata("linux-64", &policy, &mut cache, &user, &vec!["pypy"], &sorted)
        .expect("the packages are taken");
    let removed = curation.ledger.removed_filenames.to_vec();
    assert_eq!(
        removed,
        vec![
            "py-3.10",
            "py-3.11-0",
            "numpy-pypy",
            "py-3.12rc1",
            "mac-1",
            "app-1",
            "tool-1",
            "libc-2.0",
            "widget-1"
        ]
    );
    let rounds: Vec<(&str, usize)> = curation
        .ledger
        .rounds
        .iter()
        .map(|round| (round.label.as_str(), round.removal_count))
        .collect();
    assert_eq!(
        rounds,
        vec![
            ("user matchspecs", 1),
            ("old builds", 1),
            ("features", 1),
            ("dev & rc", 1),
            ("incompat arch", 1),
            ("No Sln Round 1", 1),
            ("No Sln Round 2", 1),
            ("No Sln Round 3", 0),
            ("compat py", 1),
            ("No Sln Round 1", 1),
            ("No Sln Round 2", 0),
        ]
    );
    assert_eq!(curation.ledger.explanations.len(), 9);
    assert_eq!(curation.ledger.explanations[0], "py-3.10 removed: failed user matchspec");
    assert_eq!(
        curation.ledger.explanations[1],
        "py-3.11-0 removed: superceded by build 1"
    );
    assert_eq!(
        curation.ledger.explanations[8],
        "widget-1 removed: dependency libc 2.0 unsatisfiable after removal of libc-2.0"
    );
    let relations = &curation.relations;
    let left: Vec<&str> = (0..relations.len())
        .filter(|id| !relations.is_removed(*id))
        .map(|id| relations.metadata(id).filename)
        .collect();
    assert_eq!(left, vec!["libc-2.17", "py-3.11-1"]);
    assert_eq!(relations.stats(), (11, 7, 6));
    assert_eq!(remaining_percent(removed.len(), relations.len()), 19);
}

#[test]
fn pipeline_names_the_package_it_refuses() {
    let packages = vec![
        ("a-1".to_string(), package("a", "1", "0", 0, &[])),
        ("b-1".to_string(), package("b", "1", "0", 0, &[])),
        ("a-2".to_string(), package("a", "2", "0", 0, &[])),
    ];
    let policy = Policy { ban_dev: false, ban_rc: false, must_compatible: Vec::new(), explain: false };
    let user = get_user_matchspecs(Vec::new()).expect("no constraints");
    let mut cache = Cache::with_capacity(8);
    let unsorted: Vec<PackageMetadata> = packages
        .iter()
        .map(|(filename, record)| PackageMetadata { filename, package_record: record })
        .collect();
    let outcome = filter_repodata("linux-64", &policy, &mut cache, &user, &Vec::new(), &unsorted);
    assert!(matches!(outcome, Err((2, InsertError::OutOfOrder))));
    let sorted = sorted_iter(&packages);
    let outcome = filter_repodata("linux-64", &policy, &mut cache, &user, &Vec::new(), &sorted);
    assert!(outcome.is_ok());
}

#[test]
fn a_round_counts_each_file_once() {
    let logs = vec![
        RemovedByUserLog { filename: "a-1", package_name: "a" },
        RemovedByUserLog { filename: "b-1", package_name: "b" },
        RemovedByUserLog { filename: "a-1", package_name: "a" },
        RemovedByUserLog { filename: "a-2", package_name: "a" },
        RemovedByUserLog { filename: "c-1", package_name: "c" },
    ];
    let mut removed = NameSet::new();
    assert!(removed.insert("c-1"));
    assert!(!removed.insert("c-1"));
    let mut names = NameSet::new();
    assert!(names.is_empty());
    let summary = perform_round(&logs, &mut removed, &mut names, true);
    assert_eq!(summary.removal_count, 3);
    assert_eq!(removed.to_vec(), vec!["c-1", "a-1", "b-1", "a-2"]);
    assert_eq!(names.to_vec(), vec!["a", "b"]);
    assert_eq!(
        summary.explanations,
        vec![
            "a-1 removed: failed user matchspec",
            "b-1 removed: failed user matchspec",
            "a-2 removed: failed user matchspec"
        ]
    );
    let again = perform_round(&logs, &mut removed, &mut names, false);
    assert_eq!(again.removal_count, 0);
    assert!(again.explanations.is_empty());
    assert_eq!(logs[0].filename(), "a-1");
    assert_eq!(logs[0].package_name(), "a");
}

#[test]
fn noarch_stays_if_one_architecture_keeps_it() {
    let noarch = vec!["a", "b", "c", "d"];
    let removed = vec![vec!["a", "b", "x"], vec!["b", "c", "a"], vec!["a", "y", "b", "d"]];
    assert_eq!(noarch_survivors(&noarch, &removed), vec!["c", "d"]);
    assert_eq!(noarch_survivors(&noarch, &vec![vec!["d", "a"]]), vec!["b", "c"]);
    assert_eq!(noarch_survivors(&noarch, &vec![Vec::new(), vec!["a"]]), noarch);
    assert!(noarch_survivors(&Vec::new(), &removed).is_empty());
}

#[test]
fn architecture_tags_are_checked() {
    assert_eq!(architectures_parser("linux-64"), Ok("linux-64".to_string()));
    assert_eq!(architectures_parser("osx_arm.64"), Ok("osx_arm.64".to_string()));
    assert_eq!(architectures_parser("größe"), Ok("größe".to_string()));
    assert_eq!(
        architectures_parser("linux 64"),
        Err("Invalid architecture. Must be alphanumeric with hyphen or underscores")
    );
    assert_eq!(
        architectures_parser("no/arch"),
        Err("Invalid architecture. Must be alphanumeric with hyphen or underscores")
    );
    assert_eq!(architectures_parser(""), Err("cannot be an empty string"));
    assert_eq!(
        architectures_parser("noarch"),
        Err("noarch may not be specified (it is included implicitly)")
    );
}

#[test]
fn all_architectures_stand_in_for_none() {
    let all = architectures_or_all(Vec::new());
    assert_eq!(
        all,
        vec![
            "freebsd-64",
            "linux-32",
            "linux-64",
            "linux-aarch64",
            "linux-armv6l",
            "linux-armv7l",
            "linux-ppc64",
            "linux-ppc64le",
            "linux-riscv64",
            "linux-s390x",
            "osx-64",
            "osx-arm64",
            "win-32",
            "win-64",
            "win-arm64",
            "zos-z"
        ]
    );
    assert_eq!(architectures_or_all(vec!["win-64".to_string()]), vec!["win-64"]);
}

#[test]
fn addresses_are_put_together() {
    assert_eq!(with_trailing_slash("https://x.org/c".to_string()), "https://x.org/c/");
    assert_eq!(with_trailing_slash("https://x.org/c/".to_string()), "https://x.org/c/");
    assert_eq!(with_trailing_slash(String::new()), "/");
    assert_eq!(replacement_base_url("https://x.org/c/", "linux-64"), "https://x.org/c/linux-64");
}

#[test]
fn percent_left_counts_whole_percents_removed() {
    assert_eq!(remaining_percent(0, 3), 100);
    assert_eq!(remaining_percent(1, 3), 67);
    assert_eq!(remaining_percent(2, 3), 34);
    assert_eq!(remaining_percent(3, 3), 0);
    assert_eq!(remaining_percent(1, 1000), 100);
    assert_eq!(remaining_percent(usize::MAX, usize::MAX), 0);
}

#[test]
fn clauses_split_at_the_first_white_space() {
    assert_eq!(dependsstr_to_name_and_spec("python >=3.6,<3.7"), ("python", ">=3.6,<3.7"));
    assert_eq!(dependsstr_to_name_and_spec("python"), ("python", ""));
    assert_eq!(dependsstr_to_name_and_spec("python "), ("python", ""));
    assert_eq!(dependsstr_to_name_and_spec("python  3.6 *_0"), ("python", " 3.6 *_0"));
    assert_eq!(dependsstr_to_name_and_spec("pyth\u{f6}n\t1"), ("pyth\u{f6}n", "1"));
    assert_eq!(dependsstr_to_name_and_spec(""), ("", ""));
    assert_eq!(dependsstr_to_name_and_spec(" a"), ("", "a"));
    assert_eq!(dependsstr_to_name_and_spec("\ta 1"), ("", "a 1"));
    assert_eq!(dependsstr_to_name_and_spec("a\u{a0}1"), ("a", "1"));
    assert_eq!(dependsstr_to_name_and_spec("a\u{3000}\u{3000}1"), ("a", "\u{3000}1"));
}

#[test]
fn text_helpers_say_what_they_find() {
    assert_eq!(decimal_string(0), "0");
    assert_eq!(decimal_string(907), "907");
    assert_eq!(decimal_string(u64::MAX), "18446744073709551615");
    assert!(str_eq("a\u{e9}", "a\u{e9}"));
    assert!(!str_eq("ab", "abc"));
    assert!(starts_with("__glibc", "__"));
    assert!(starts_with("rc", "rc"));
    assert!(!starts_with("r", "rc"));
    assert!(ends_with("h0123_10", "10"));
    assert!(!ends_with("h0123_10", "11"));
    assert!(ends_with("abc", ""));
    assert_eq!(prefix_before("linux-aarch64-x", '-'), "linux");
    assert_eq!(prefix_before("noarch", '-'), "noarch");
    assert_eq!(prefix_before("-x", '-'), "");
}

#[test]
fn positions_and_distances() {
    let start = PkgIdx::from_usize(7);
    assert_eq!(start.index(), 7);
    assert_eq!(start.range_to(PkgIdxOffset { offset: 3 }), (7, 10));
    assert_eq!(PkgIdxOffset::from_difference(start, 12).offset(), 5);
    let end = PkgIdxOffset { offset: 9 };
    assert_eq!(wrap_range_from_middle(start, end, None), (7, 16));
    assert_eq!(wrap_range_from_middle(start, end, Some(PkgIdxOffset { offset: 4 })), (11, 16));
}

#[test]
fn packages_are_sorted_by_name_version_and_file() {
    let packages = vec![
        ("zlib-1.2.tar.bz2".to_string(), package("zlib", "1.2", "0", 0, &[])),
        ("py-3.10-b.conda".to_string(), package("py", "3.10", "b", 0, &[])),
        ("py-3.9-a.conda".to_string(), package("py", "3.9", "a", 0, &[])),
        ("py-3.10-a.conda".to_string(), package("py", "3.10", "a", 0, &[])),
        ("Zlib-1.conda".to_string(), package("Zlib", "1", "0", 0, &[])),
        ("py-3.10.0-a.conda".to_string(), package("py", "3.10.0", "a", 0, &[])),
        ("abc-2!1.conda".to_string(), package("abc", "2!1", "0", 0, &[])),
        ("abc-5.conda".to_string(), package("abc", "5", "0", 0, &[])),
    ];
    let sorted: Vec<&str> = sorted_iter(&packages).iter().map(|package| package.filename).collect();
    assert_eq!(
        sorted,
        vec![
            "Zlib-1.conda",
            "abc-5.conda",
            "abc-2!1.conda",
            "py-3.9-a.conda",
            "py-3.10-a.conda",
            "py-3.10-b.conda",
            "py-3.10.0-a.conda",
            "zlib-1.2.tar.bz2"
        ]
    );
    assert!(sorted_iter(&Vec::new()).is_empty());
}

#[test]
fn texts_stand_in_the_order_of_the_dictionary() {
    assert_eq!(order_texts("", ""), Rank::Equal);
    assert_eq!(order_texts("", "a"), Rank::Less);
    assert_eq!(order_texts("a", ""), Rank::Greater);
    assert_eq!(order_texts("abc", "abd"), Rank::Less);
    assert_eq!(order_texts("abd", "abc"), Rank::Greater);
    assert_eq!(order_texts("ab", "abc"), Rank::Less);
    assert_eq!(order_texts("Z", "a"), Rank::Less);
    assert_eq!(order_texts("z", "\u{e9}"), Rank::Less);
    assert_eq!(order_texts("py", "py"), Rank::Equal);
}

#[test]
fn characters_of_architecture_tags() {
    for c in ['a', 'Z', '0', '9', '-', '_', '.', '\u{e9}', '\u{663}'] {
        assert!(is_architecture_char(c));
    }
    for c in [' ', '/', '@', '[', '`', '{', '\u{7f}', '\u{a0}', '\u{2014}'] {
        assert!(!is_architecture_char(c));
    }
}

use cargo_all_features::cargo_metadata::{Dependency, FeatureEntry, MetaData, Package};
use cargo_all_features::errors::Errors;
use cargo_all_features::features_finder::{
    build_universe, fetch_feature_sets, fetch_features, fetch_optional_dependencies,
};
use cargo_all_features::types::{Feature, FeatureList};

fn feats(names: &[&str]) -> FeatureList {
    FeatureList(names.iter().map(|n| Feature((*n).to_owned())).collect())
}

fn entry(name: &str, implied: &[&str]) -> FeatureEntry {
    FeatureEntry { name: Feature(name.to_owned()), implied: feats(implied) }
}

/// The dummy crate of the original test bed: features `A`, `B = [A]`,
/// `C = [dep:optDepC]`, one mandatory dependency, one renamed optional
/// dependency and one optional dependency consumed by feature `C`. The
/// feature list and map are what a modern metadata producer reports: the
/// implicit feature of the renamed optional dependency is synthesized.
fn dummy_package() -> Package {
    Package {
        id: "testdummy 0.1.0".to_owned(),
        name: "testdummy".to_owned(),
        manifest_path: "/work/testdummy/Cargo.toml".to_owned(),
        dependencies: vec![
            Dependency { name: "fixDepA".to_owned(), rename: None, optional: false },
            Dependency { name: "optDepB".to_owned(), rename: Some("oDepB".to_owned()), optional: true },
            Dependency { name: "optDepC".to_owned(), rename: None, optional: true },
        ],
        features: feats(&["A", "B", "C", "oDepB"]),
        feature_map: vec![
            entry("A", &[]),
            entry("B", &["A"]),
            entry("C", &["dep:optDepC"]),
            entry("oDepB", &["dep:oDepB"]),
        ],
        skip_feature_sets: vec![],
        skip_optional_dependencies: None,
        allowlist: feats(&[]),
        denylist: feats(&[]),
        extra_features: feats(&[]),
        always_include_features: feats(&[]),
        max_combination_size: None,
        rules: vec![],
    }
}

fn normalize(sets: Vec<FeatureList>) -> Vec<Vec<String>> {
    let mut out: Vec<Vec<String>> = sets
        .into_iter()
        .map(|fl| {
            let mut v: Vec<String> = fl.0.into_iter().map(|f| f.0).collect();
            v.sort();
            v
        })
        .collect();
    out.sort();
    out
}

fn expected(sets: &[&[&str]]) -> Vec<Vec<String>> {
    let mut out: Vec<Vec<String>> = sets
        .iter()
        .map(|s| {
            let mut v: Vec<String> = s.iter().map(|f| (*f).to_owned()).collect();
            v.sort();
            v
        })
        .collect();
    out.sort();
    out
}

#[test]
fn universe_of_dummy_package() {
    let p = dummy_package();
    let universe = build_universe(&p);
    let names: Vec<String> = universe.0.into_iter().map(|f| f.0).collect();
    assert_eq!(names, vec!["oDepB", "A", "B", "C"]);
    let opt: Vec<String> = fetch_optional_dependencies(&p).0.into_iter().map(|f| f.0).collect();
    assert_eq!(opt, vec!["oDepB", "optDepC"]);
    let declared: Vec<String> = fetch_features(&p).0.into_iter().map(|f| f.0).collect();
    assert_eq!(declared, vec!["A", "B", "C", "oDepB"]);
}

#[test]
fn cli_simple() {
    let sets = fetch_feature_sets(&dummy_package()).unwrap();
    assert_eq!(
        normalize(sets),
        expected(&[
            &[],
            &["A"],
            &["C"],
            &["oDepB"],
            &["A", "B"],
            &["A", "C"],
            &["A", "oDepB"],
            &["C", "oDepB"],
            &["A", "B", "C"],
            &["A", "B", "oDepB"],
            &["A", "C", "oDepB"],
            &["A", "B", "C", "oDepB"],
        ])
    );
}

#[test]
fn settings_simple() {
    // The same package read through a metadata producer that reports only
    // explicitly declared features: the derived universe and the valid
    // sets are the same, with every implication respected.
    let mut p = dummy_package();
    p.features = feats(&["A", "B", "C"]);
    p.feature_map = vec![entry("A", &[]), entry("B", &["A"]), entry("C", &["dep:optDepC"])];
    let sets = fetch_feature_sets(&p).unwrap();
    assert_eq!(
        normalize(sets),
        expected(&[
            &[],
            &["A"],
            &["C"],
            &["oDepB"],
            &["A", "B"],
            &["A", "C"],
            &["A", "oDepB"],
            &["C", "oDepB"],
            &["A", "B", "C"],
            &["A", "B", "oDepB"],
            &["A", "C", "oDepB"],
            &["A", "B", "C", "oDepB"],
        ])
    );
}

#[test]
fn skip_sets_1() {
    let mut p = dummy_package();
    p.skip_feature_sets = vec![feats(&["C"])];
    let sets = fetch_feature_sets(&p).unwrap();
    assert_eq!(
        normalize(sets),
        expected(&[
            &[],
            &["A"],
            &["oDepB"],
            &["A", "B"],
            &["A", "oDepB"],
            &["A", "B", "oDepB"],
        ])
    );
}

#[test]
fn skip_sets_2() {
    let mut p = dummy_package();
    p.skip_feature_sets = vec![feats(&["oDepB", "C"])];
    let sets = fetch_feature_sets(&p).unwrap();
    assert_eq!(
        normalize(sets),
        expected(&[
            &[],
            &["A"],
            &["C"],
            &["oDepB"],
            &["A", "B"],
            &["A", "C"],
            &["A", "oDepB"],
            &["A", "B", "C"],
            &["A", "B", "oDepB"],
        ])
    );
}

#[test]
fn skip_sets_3() {
    let mut p = dummy_package();
    p.skip_feature_sets = vec![feats(&["oDepB", "B", "C"])];
    let sets = fetch_feature_sets(&p).unwrap();
    assert_eq!(
        normalize(sets),
        expected(&[
            &[],
            &["A"],
            &["C"],
            &["oDepB"],
            &["A", "B"],
            &["A", "C"],
            &["A", "oDepB"],
            &["C", "oDepB"],
            &["A", "B", "C"],
            &["A", "B", "oDepB"],
            &["A", "C", "oDepB"],
        ])
    );
}

#[test]
fn skip_opt_deps() {
    let mut p = dummy_package();
    p.skip_optional_dependencies = Some(true);
    let sets = fetch_feature_sets(&p).unwrap();
    assert_eq!(
        normalize(sets),
        expected(&[
            &[],
            &["A"],
            &["C"],
            &["A", "B"],
            &["A", "C"],
            &["A", "B", "C"],
        ])
    );
}

#[test]
fn allowlist() {
    let mut p = dummy_package();
    p.allowlist = feats(&["A", "oDepB"]);
    let sets = fetch_feature_sets(&p).unwrap();
    assert_eq!(
        normalize(sets),
        expected(&[&[], &["A"], &["oDepB"], &["A", "oDepB"]])
    );
}

#[test]
fn denylist() {
    let mut p = dummy_package();
    p.denylist = feats(&["C"]);
    let sets = fetch_feature_sets(&p).unwrap();
    assert_eq!(
        normalize(sets),
        expected(&[
            &[],
            &["A"],
            &["oDepB"],
            &["A", "B"],
            &["A", "oDepB"],
            &["A", "B", "oDepB"],
        ])
    );
}

#[test]
fn extra_feats() {
    let mut p = dummy_package();
    p.skip_optional_dependencies = Some(true);
    p.extra_features = feats(&["oDepB"]);
    let sets = fetch_feature_sets(&p).unwrap();
    assert_eq!(
        normalize(sets),
        expected(&[
            &[],
            &["A"],
            &["C"],
            &["oDepB"],
            &["A", "B"],
            &["A", "C"],
            &["A", "oDepB"],
            &["C", "oDepB"],
            &["A", "B", "C"],
            &["A", "B", "oDepB"],
            &["A", "C", "oDepB"],
            &["A", "B", "C", "oDepB"],
        ])
    );
}

#[test]
fn always_include() {
    let mut p = dummy_package();
    p.denylist = feats(&["C"]);
    p.always_include_features = feats(&["A"]);
    let sets = fetch_feature_sets(&p).unwrap();
    assert_eq!(
        normalize(sets),
        expected(&[
            &["A"],
            &["A", "B"],
            &["A", "oDepB"],
            &["A", "B", "oDepB"],
        ])
    );
}

#[test]
fn skip_sets_with_always_include() {
    let mut p = dummy_package();
    p.skip_feature_sets = vec![feats(&["A", "B"])];
    p.always_include_features = feats(&["A"]);
    let sets = fetch_feature_sets(&p).unwrap();
    assert_eq!(
        normalize(sets),
        expected(&[
            &["A"],
            &["A", "C"],
            &["A", "oDepB"],
            &["A", "C", "oDepB"],
        ])
    );
}

#[test]
fn allowlist_with_skip_opt_deps() {
    // An allowlist together with any other setting is a configuration
    // conflict, raised before any enumeration work.
    let mut p = dummy_package();
    p.skip_optional_dependencies = Some(true);
    p.allowlist = feats(&["A", "B", "oDepB"]);
    let err = fetch_feature_sets(&p).unwrap_err();
    match err {
        Errors::ValidationFailed { message } => {
            assert_eq!(
                message,
                "Package testdummy has both `allowlist` and `skip_optional_dependencies` keys"
            );
        }
        _ => panic!("expected a validation failure"),
    }
}

#[test]
fn conflicting_rules() {
    let mut p = dummy_package();
    p.skip_feature_sets = vec![feats(&["A", "B"])];
    p.always_include_features = feats(&["B"]);
    let err = fetch_feature_sets(&p).unwrap_err();
    match err {
        Errors::NoValidFeatureSets { report } => {
            assert_eq!(
                report,
                "initial #sets 16 -> always_include_features (8/16) -> implication:B (4/8) -> conflict:A,B (0/4)"
            );
        }
        _ => panic!("expected the unsatisfiable-rule-set error"),
    }
}

#[test]
fn greedy_report_shrinks_to_zero() {
    // A two-feature universe with three rules that together allow
    // nothing: the report shows a strictly decreasing survivor count
    // ending at zero.
    let p = Package {
        id: "tiny".to_owned(),
        name: "tiny".to_owned(),
        manifest_path: "/work/tiny/Cargo.toml".to_owned(),
        dependencies: vec![],
        features: feats(&["A", "B"]),
        feature_map: vec![entry("A", &[]), entry("B", &["A"])],
        skip_feature_sets: vec![feats(&["A", "B"])],
        skip_optional_dependencies: None,
        allowlist: feats(&[]),
        denylist: feats(&[]),
        extra_features: feats(&[]),
        always_include_features: feats(&["B"]),
        max_combination_size: None,
        rules: vec![],
    };
    let err = fetch_feature_sets(&p).unwrap_err();
    match err {
        Errors::NoValidFeatureSets { report } => {
            assert_eq!(
                report,
                "initial #sets 4 -> always_include_features (2/4) -> implication:B (1/2) -> conflict:A,B (0/1)"
            );
        }
        _ => panic!("expected the unsatisfiable-rule-set error"),
    }
}

#[test]
fn allowlist_conflicts_are_validation_errors() {
    let with = |f: &dyn Fn(&mut Package)| {
        let mut p = dummy_package();
        p.allowlist = feats(&["A"]);
        f(&mut p);
        fetch_feature_sets(&p).unwrap_err()
    };
    assert!(matches!(
        with(&|p| p.denylist = feats(&["C"])),
        Errors::ValidationFailed { .. }
    ));
    assert!(matches!(
        with(&|p| p.extra_features = feats(&["C"])),
        Errors::ValidationFailed { .. }
    ));
    assert!(matches!(
        with(&|p| p.always_include_features = feats(&["A"])),
        Errors::ValidationFailed { .. }
    ));
    assert!(matches!(
        with(&|p| p.max_combination_size = Some(2)),
        Errors::ValidationFailed { .. }
    ));
    assert!(matches!(
        with(&|p| p.skip_optional_dependencies = Some(false)),
        Errors::ValidationFailed { .. }
    ));
}

#[test]
fn denylisted_always_feature_is_an_error() {
    let mut p = dummy_package();
    p.denylist = feats(&["A"]);
    p.always_include_features = feats(&["A"]);
    let err = fetch_feature_sets(&p).unwrap_err();
    match err {
        Errors::ValidationFailed { message } => {
            assert_eq!(
                message,
                "Package testdummy has a feature in both `always_include_features` and `denylist`"
            );
        }
        _ => panic!("expected a validation failure"),
    }
}

#[test]
fn free_form_rules_filter_sets() {
    let mut p = dummy_package();
    p.rules = vec!["!C | oDepB".to_owned()];
    let sets = fetch_feature_sets(&p).unwrap();
    assert_eq!(
        normalize(sets),
        expected(&[
            &[],
            &["A"],
            &["oDepB"],
            &["A", "B"],
            &["A", "oDepB"],
            &["C", "oDepB"],
            &["A", "C", "oDepB"],
            &["A", "B", "oDepB"],
            &["A", "B", "C", "oDepB"],
        ])
    );
}

#[test]
fn unparseable_rule_is_an_error() {
    let mut p = dummy_package();
    p.rules = vec!["A &&& B".to_owned()];
    assert!(matches!(
        fetch_feature_sets(&p).unwrap_err(),
        Errors::RuleParseFailed { .. }
    ));
}

#[test]
fn integer_valued_rule_is_an_evaluation_error() {
    let mut p = dummy_package();
    p.rules = vec!["A + B".to_owned()];
    assert!(matches!(
        fetch_feature_sets(&p).unwrap_err(),
        Errors::RuleEvaluationFailed { .. }
    ));
}

#[test]
fn max_combination_size_caps_subsets() {
    let p = Package {
        id: "caps".to_owned(),
        name: "caps".to_owned(),
        manifest_path: "/work/caps/Cargo.toml".to_owned(),
        dependencies: vec![],
        features: feats(&["A", "B"]),
        feature_map: vec![entry("A", &[]), entry("B", &[])],
        skip_feature_sets: vec![],
        skip_optional_dependencies: None,
        allowlist: feats(&[]),
        denylist: feats(&[]),
        extra_features: feats(&[]),
        always_include_features: feats(&[]),
        max_combination_size: Some(1),
        rules: vec![],
    };
    let sets = fetch_feature_sets(&p).unwrap();
    assert_eq!(normalize(sets), expected(&[&[], &["A"], &["B"]]));
}

#[test]
fn empty_universe_yields_the_empty_set() {
    let p = Package {
        id: "bare".to_owned(),
        name: "bare".to_owned(),
        manifest_path: "/work/bare/Cargo.toml".to_owned(),
        dependencies: vec![],
        features: feats(&[]),
        feature_map: vec![],
        skip_feature_sets: vec![],
        skip_optional_dependencies: None,
        allowlist: feats(&[]),
        denylist: feats(&[]),
        extra_features: feats(&[]),
        always_include_features: feats(&[]),
        max_combination_size: None,
        rules: vec![],
    };
    let sets = p.feature_sets().unwrap();
    assert_eq!(sets.len(), 1);
    assert_eq!(sets[0].len(), 0);
}

#[test]
fn power_set_without_configuration() {
    // Two independent features and no settings: all four combinations.
    let p = Package {
        id: "plain".to_owned(),
        name: "plain".to_owned(),
        manifest_path: "/work/plain/Cargo.toml".to_owned(),
        dependencies: vec![],
        features: feats(&["A", "B"]),
        feature_map: vec![entry("A", &[]), entry("B", &[])],
        skip_feature_sets: vec![],
        skip_optional_dependencies: None,
        allowlist: feats(&[]),
        denylist: feats(&[]),
        extra_features: feats(&[]),
        always_include_features: feats(&[]),
        max_combination_size: None,
        rules: vec![],
    };
    let sets = fetch_feature_sets(&p).unwrap();
    assert_eq!(normalize(sets), expected(&[&[], &["A"], &["B"], &["A", "B"]]));
}

#[test]
fn workspace_and_single_package_selection() {
    let mut member = dummy_package();
    member.id = "member 1.0.0".to_owned();
    member.manifest_path = "/work/member/Cargo.toml".to_owned();
    let mut stranger = dummy_package();
    stranger.id = "stranger 1.0.0".to_owned();
    stranger.manifest_path = "/work/stranger/Cargo.toml".to_owned();
    let meta = MetaData {
        workspace_root: "/work".to_owned(),
        workspace_members: vec!["member 1.0.0".to_owned()],
        packages: vec![member, stranger],
    };
    // From the workspace root, only members are selected.
    let picked = meta
        .determine_packages_to_run_on(&"/work".to_owned())
        .unwrap();
    assert_eq!(picked, vec![0]);
    // From a package directory, that package alone.
    let picked = meta
        .determine_packages_to_run_on(&"/work/stranger".to_owned())
        .unwrap();
    assert_eq!(picked, vec![1]);
    // From anywhere else, an error.
    assert!(meta
        .determine_packages_to_run_on(&"/elsewhere".to_owned())
        .is_err());
}

#[test]
fn sets_are_grouped_by_increasing_size() {
    let sets = fetch_feature_sets(&dummy_package()).unwrap();
    let sizes: Vec<usize> = sets.iter().map(|s| s.len()).collect();
    let mut sorted = sizes.clone();
    sorted.sort();
    assert_eq!(sizes, sorted);
}

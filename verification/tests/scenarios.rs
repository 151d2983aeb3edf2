use feature_resolver::context::Command;
use feature_resolver::context::CompilationKind;
use feature_resolver::context::Invocation;
use feature_resolver::context::ResolverBehaviorFlags;
use feature_resolver::context::ResolverConfig;
use feature_resolver::context::TestInclusion;
use feature_resolver::context::Unit;
use feature_resolver::graph::DepKind;
use feature_resolver::graph::DependencyEdge;
use feature_resolver::graph::FeatureDecl;
use feature_resolver::graph::FeatureTable;
use feature_resolver::graph::Package;
use feature_resolver::graph::PackageGraph;
use feature_resolver::graph::PackageId;
use feature_resolver::graph::RootRequest;
use feature_resolver::platform::Cfg;
use feature_resolver::platform::CfgExpr;
use feature_resolver::platform::Platform;
use feature_resolver::platform::TargetInfo;
use feature_resolver::request::FeatureRequest;
use feature_resolver::activation::ActivationTable;
use feature_resolver::activation::WorkItem;
use feature_resolver::engine::propagate;
use feature_resolver::resolve::check_roots;
use feature_resolver::resolve::resolve;
use feature_resolver::resolve::ConfigError;
use feature_resolver::resolve::ConfigFault;

fn s(x: &str) -> String {
    x.to_string()
}

fn plain(x: &str) -> FeatureRequest {
    FeatureRequest::Plain { feature: s(x) }
}

fn package(name: &str, features: Vec<(&str, Vec<FeatureRequest>)>, deps: Vec<DependencyEdge>) -> Package {
    let mut entries = Vec::new();
    for (n, implies) in features {
        entries.push(FeatureDecl { name: s(n), implies });
    }
    Package {
        id: PackageId { name: s(name), version: s("1.0.0"), source: s("registry") },
        table: FeatureTable { entries },
        deps,
    }
}

fn dep(name: &str, target: usize, kind: DepKind, features: Vec<FeatureRequest>) -> DependencyEdge {
    DependencyEdge {
        name: s(name),
        target,
        kind,
        platform: None,
        optional: false,
        default_features: true,
        features,
        proc_macro: false,
    }
}

fn linux() -> TargetInfo {
    TargetInfo {
        name: s("x86_64-unknown-linux-gnu"),
        cfgs: vec![Cfg::Name(s("unix")), Cfg::KeyPair(s("target_os"), s("linux"))],
    }
}

fn config(flags: ResolverBehaviorFlags, command: Command) -> ResolverConfig {
    ResolverConfig {
        flags,
        invocation: Invocation { command, tests: TestInclusion::Normal },
        targets: vec![linux()],
    }
}

fn flags(itarget: bool, host_dep: bool, dev_dep: bool) -> ResolverBehaviorFlags {
    ResolverBehaviorFlags { itarget, host_dep, dev_dep, all: false }
}

fn root(package: usize) -> RootRequest {
    RootRequest { package, features: vec![], default_features: true, all_features: false }
}

fn unit(package: usize, kind: CompilationKind, tests: TestInclusion) -> Unit {
    Unit { package, kind, tests }
}

fn target_unit(package: usize) -> Unit {
    unit(package, CompilationKind::Target, TestInclusion::Normal)
}

/// foo depends on common and on bar; bar depends on common, with `f1`,
/// only under a platform predicate that holds nowhere.
fn inactive_target_graph() -> PackageGraph {
    let mut restricted = dep("common", 1, DepKind::Normal, vec![plain("f1")]);
    restricted.platform = Some(Platform::Cfg(CfgExpr::Value(Cfg::Name(s("whatever")))));
    PackageGraph {
        packages: vec![
            package(
                "foo",
                vec![],
                vec![dep("common", 1, DepKind::Normal, vec![]), dep("bar", 2, DepKind::Normal, vec![])],
            ),
            package("common", vec![("f1", vec![])], vec![]),
            package("bar", vec![], vec![restricted]),
        ],
    }
}

#[test]
fn inactivate_targets() {
    let graph = inactive_target_graph();
    let roots = vec![root(0)];

    let legacy = resolve(&graph, &config(flags(false, false, false), Command::Check), &roots).unwrap();
    assert!(legacy.is_present(target_unit(1)));
    assert!(legacy.has_feature(target_unit(1), &s("f1")));

    let filtered = resolve(&graph, &config(flags(true, false, false), Command::Check), &roots).unwrap();
    assert!(filtered.is_present(target_unit(1)));
    assert!(!filtered.has_feature(target_unit(1), &s("f1")));
    assert_eq!(filtered.features(target_unit(1)), Vec::<String>::new());
    assert!(filtered.is_present(target_unit(2)));
}

/// foo has a build dependency on common with `f1` and a normal
/// dependency on common without it.
fn host_dep_graph() -> PackageGraph {
    PackageGraph {
        packages: vec![
            package(
                "foo",
                vec![],
                vec![
                    dep("common", 1, DepKind::Build, vec![plain("f1")]),
                    dep("common", 1, DepKind::Normal, vec![]),
                ],
            ),
            package("common", vec![("f1", vec![])], vec![]),
        ],
    }
}

#[test]
fn decouple_host_deps() {
    let graph = host_dep_graph();
    let roots = vec![root(0)];

    let legacy = resolve(&graph, &config(flags(false, false, false), Command::Check), &roots).unwrap();
    assert!(legacy.has_feature(target_unit(1), &s("f1")));
    assert!(!legacy.is_present(unit(1, CompilationKind::Host, TestInclusion::Normal)));

    let decoupled = resolve(&graph, &config(flags(false, true, false), Command::Check), &roots).unwrap();
    assert!(decoupled.is_present(target_unit(1)));
    assert!(!decoupled.has_feature(target_unit(1), &s("f1")));
    let host = unit(1, CompilationKind::Host, TestInclusion::Normal);
    assert!(decoupled.is_present(host));
    assert_eq!(decoupled.features(host), vec![s("f1")]);
}

fn sorted(mut names: Vec<String>) -> Vec<String> {
    names.sort();
    names
}

fn names(list: &[&str]) -> Vec<String> {
    list.iter().map(|x| s(x)).collect()
}

fn with_tests(flags: ResolverBehaviorFlags, command: Command) -> ResolverConfig {
    ResolverConfig {
        flags,
        invocation: Invocation { command, tests: TestInclusion::IncludesTests },
        targets: vec![linux()],
    }
}

/// common has the features normal, dev and build; foo depends on it
/// three times, once in each role, each time with the feature of that
/// role.
fn three_roles_graph() -> PackageGraph {
    let mut normal = dep("common", 1, DepKind::Normal, vec![plain("normal")]);
    let mut dev = dep("common", 1, DepKind::Dev, vec![plain("dev")]);
    let mut build = dep("common", 1, DepKind::Build, vec![plain("build")]);
    normal.default_features = false;
    dev.default_features = false;
    build.default_features = false;
    PackageGraph {
        packages: vec![
            package("foo", vec![], vec![normal, dev, build]),
            package("common", vec![("normal", vec![]), ("dev", vec![]), ("build", vec![])], vec![]),
        ],
    }
}

#[test]
fn build_script_runtime_features() {
    let graph = three_roles_graph();
    let roots = vec![root(0)];
    let host = unit(1, CompilationKind::Host, TestInclusion::Normal);

    // Unified: all three in one entry.
    let t = resolve(&graph, &config(flags(false, false, false), Command::Run), &roots).unwrap();
    assert_eq!(sorted(t.features(target_unit(1))), names(&["build", "dev", "normal"]));

    // Development dependencies decoupled: normal and build unify.
    let t = resolve(&graph, &config(flags(false, false, true), Command::Run), &roots).unwrap();
    assert_eq!(sorted(t.features(target_unit(1))), names(&["build", "normal"]));

    // Host decoupled as well: normal only, and build on the host.
    let t = resolve(&graph, &config(flags(false, true, true), Command::Run), &roots).unwrap();
    assert_eq!(t.features(target_unit(1)), names(&["normal"]));
    assert_eq!(t.features(host), names(&["build"]));

    // With tests everything is unified again, decoupled or not.
    let t = resolve(&graph, &config(flags(false, false, false), Command::Test), &roots).unwrap();
    assert_eq!(sorted(t.features(target_unit(1))), names(&["build", "dev", "normal"]));
    let t = resolve(&graph, &config(flags(false, false, true), Command::Test), &roots).unwrap();
    let tested = unit(1, CompilationKind::Target, TestInclusion::IncludesTests);
    assert_eq!(sorted(t.features(tested)), names(&["build", "dev", "normal"]));
    assert!(!t.is_present(target_unit(1)));

    // Host decoupled, with tests: normal and dev unify.
    let t = resolve(&graph, &config(flags(false, true, false), Command::Test), &roots).unwrap();
    assert_eq!(sorted(t.features(target_unit(1))), names(&["dev", "normal"]));
    assert_eq!(t.features(host), names(&["build"]));
}

#[test]
fn decouple_dev_deps() {
    let graph = three_roles_graph();
    let roots = vec![root(0)];

    // `check` follows no development edge without tests.
    let t = resolve(&graph, &config(flags(false, false, false), Command::Check), &roots).unwrap();
    assert!(!t.has_feature(target_unit(1), &s("dev")));
    // `build` pointed at the package does, as long as nothing is decoupled.
    let t = resolve(&graph, &config(flags(false, false, false), Command::Build), &roots).unwrap();
    assert!(t.has_feature(target_unit(1), &s("dev")));
    let t = resolve(&graph, &config(flags(false, false, true), Command::Build), &roots).unwrap();
    assert!(!t.has_feature(target_unit(1), &s("dev")));
    // A build that was asked to include tests follows them in any case.
    let t = resolve(&graph, &with_tests(flags(false, false, false), Command::Build), &roots).unwrap();
    assert!(t.has_feature(target_unit(1), &s("dev")));
    let t = resolve(&graph, &with_tests(flags(false, false, true), Command::Build), &roots).unwrap();
    let tested = unit(1, CompilationKind::Target, TestInclusion::IncludesTests);
    assert!(t.has_feature(tested, &s("dev")));
    // `all` stands for the three flags.
    let all = ResolverBehaviorFlags { itarget: false, host_dep: false, dev_dep: false, all: true };
    let t = resolve(&graph, &config(all, Command::Run), &roots).unwrap();
    assert_eq!(t.features(target_unit(1)), names(&["normal"]));
    assert_eq!(
        t.features(unit(1, CompilationKind::Host, TestInclusion::Normal)),
        names(&["build"])
    );
}

#[test]
fn dev_edges_of_dependencies_need_tests() {
    // foo -> bar -[dev]-> common with `dev`.
    let mut dev = dep("common", 2, DepKind::Dev, vec![plain("dev")]);
    dev.default_features = false;
    let graph = PackageGraph {
        packages: vec![
            package("foo", vec![], vec![dep("bar", 1, DepKind::Normal, vec![])]),
            package("bar", vec![], vec![dev]),
            package("common", vec![("dev", vec![])], vec![]),
        ],
    };
    let roots = vec![root(0)];
    // bar is not what `run` was pointed at.
    let t = resolve(&graph, &config(flags(false, false, false), Command::Run), &roots).unwrap();
    assert!(t.is_present(target_unit(1)));
    assert!(!t.is_present(target_unit(2)));
    let t = resolve(&graph, &config(flags(false, false, false), Command::Test), &roots).unwrap();
    assert!(t.has_feature(target_unit(2), &s("dev")));
}

#[test]
fn cyclical_dev_dep() {
    // foo depends on itself for its tests, with an extra feature.
    let mut own = dep("foo", 0, DepKind::Dev, vec![plain("dev")]);
    own.default_features = false;
    let graph = PackageGraph {
        packages: vec![package("foo", vec![("dev", vec![])], vec![own])],
    };
    let roots = vec![root(0)];

    let t = resolve(&graph, &config(flags(false, false, false), Command::Run), &roots).unwrap();
    assert_eq!(t.features(target_unit(0)), names(&["dev"]));

    let t = resolve(&graph, &config(flags(false, false, true), Command::Run), &roots).unwrap();
    assert!(t.is_present(target_unit(0)));
    assert_eq!(t.features(target_unit(0)), Vec::<String>::new());

    let t = resolve(&graph, &config(flags(false, false, false), Command::Test), &roots).unwrap();
    assert_eq!(t.features(target_unit(0)), names(&["dev"]));

    let t = resolve(&graph, &config(flags(false, false, true), Command::Test), &roots).unwrap();
    let tested = unit(0, CompilationKind::Target, TestInclusion::IncludesTests);
    assert_eq!(t.features(tested), names(&["dev"]));
}

#[test]
fn decouple_host_deps_nested() {
    // foo -[build]-> bdep -> common with f1; foo -> common without.
    let mut plain_common = dep("common", 2, DepKind::Normal, vec![]);
    plain_common.default_features = false;
    let graph = PackageGraph {
        packages: vec![
            package(
                "foo",
                vec![],
                vec![dep("bdep", 1, DepKind::Build, vec![]), plain_common],
            ),
            package("bdep", vec![], vec![dep("common", 2, DepKind::Normal, vec![plain("f1")])]),
            package("common", vec![("f1", vec![])], vec![]),
        ],
    };
    let roots = vec![root(0)];
    let t = resolve(&graph, &config(flags(false, false, false), Command::Check), &roots).unwrap();
    assert!(t.has_feature(target_unit(2), &s("f1")));

    let t = resolve(&graph, &config(flags(false, true, false), Command::Check), &roots).unwrap();
    assert!(!t.has_feature(target_unit(2), &s("f1")));
    // The host closure is contagious: common below bdep is a host unit.
    let host_common = unit(2, CompilationKind::Host, TestInclusion::Normal);
    assert!(t.has_feature(host_common, &s("f1")));
    assert!(t.is_present(unit(1, CompilationKind::Host, TestInclusion::Normal)));
    assert!(!t.is_present(target_unit(1)));
}

#[test]
fn decouple_proc_macro() {
    // foo -> pm (a procedural macro) -> common with f1; foo -> common.
    let mut to_pm = dep("pm", 1, DepKind::Normal, vec![]);
    to_pm.proc_macro = true;
    let graph = PackageGraph {
        packages: vec![
            package("foo", vec![], vec![to_pm, dep("common", 2, DepKind::Normal, vec![])]),
            package("pm", vec![], vec![dep("common", 2, DepKind::Normal, vec![plain("f1")])]),
            package("common", vec![("f1", vec![])], vec![]),
        ],
    };
    let roots = vec![root(0)];
    let t = resolve(&graph, &config(flags(false, false, false), Command::Check), &roots).unwrap();
    assert!(t.has_feature(target_unit(2), &s("f1")));
    let t = resolve(&graph, &config(flags(false, true, false), Command::Check), &roots).unwrap();
    assert!(!t.has_feature(target_unit(2), &s("f1")));
    assert!(t.has_feature(unit(2, CompilationKind::Host, TestInclusion::Normal), &s("f1")));
}

/// foo has an optional dependency `opt` and the features
/// `w = ["opt?/feat"]`, `on = ["opt"]` and `s = ["opt/feat"]`.
fn weak_graph() -> PackageGraph {
    let mut opt = dep("opt", 1, DepKind::Normal, vec![]);
    opt.optional = true;
    opt.default_features = false;
    PackageGraph {
        packages: vec![
            package(
                "foo",
                vec![
                    ("w", vec![FeatureRequest::Weak { dep: s("opt"), feature: s("feat") }]),
                    ("on", vec![plain("opt")]),
                    ("s", vec![FeatureRequest::Strong { dep: s("opt"), feature: s("feat") }]),
                ],
                vec![opt],
            ),
            package("opt", vec![("feat", vec![]), ("default", vec![])], vec![]),
        ],
    }
}

fn root_with(package: usize, features: Vec<FeatureRequest>) -> RootRequest {
    RootRequest { package, features, default_features: true, all_features: false }
}

#[test]
fn weak_request_alone_does_not_build_the_dependency() {
    let graph = weak_graph();
    let c = config(flags(false, false, false), Command::Check);
    let t = resolve(&graph, &c, &vec![root_with(0, vec![plain("w")])]).unwrap();
    assert_eq!(t.features(target_unit(0)), names(&["w"]));
    assert!(!t.is_present(target_unit(1)));
    assert_eq!(t.features(target_unit(1)), Vec::<String>::new());
    assert!(t.has_request(
        target_unit(0),
        &FeatureRequest::Weak { dep: s("opt"), feature: s("feat") }
    ));
}

#[test]
fn weak_request_takes_effect_once_the_dependency_is_built() {
    let graph = weak_graph();
    let c = config(flags(false, false, false), Command::Check);
    // Weak first, then the dependency: the pending feature is delivered.
    let t = resolve(&graph, &c, &vec![root_with(0, vec![plain("w"), plain("on")])]).unwrap();
    assert!(t.is_present(target_unit(1)));
    assert_eq!(t.features(target_unit(1)), names(&["feat"]));
    // The other way round.
    let t = resolve(&graph, &c, &vec![root_with(0, vec![plain("on"), plain("w")])]).unwrap();
    assert_eq!(t.features(target_unit(1)), names(&["feat"]));
    // The dependency alone: built, without the feature.
    let t = resolve(&graph, &c, &vec![root_with(0, vec![plain("on")])]).unwrap();
    assert!(t.is_present(target_unit(1)));
    assert_eq!(t.features(target_unit(1)), Vec::<String>::new());
    assert_eq!(sorted(t.features(target_unit(0))), names(&["on", "opt"]));
}

#[test]
fn strong_request_builds_the_dependency() {
    let graph = weak_graph();
    let c = config(flags(false, false, false), Command::Check);
    let t = resolve(&graph, &c, &vec![root_with(0, vec![plain("s")])]).unwrap();
    assert!(t.is_present(target_unit(1)));
    assert_eq!(t.features(target_unit(1)), names(&["feat"]));
    // Asked on the command line in the same form.
    let direct = FeatureRequest::Strong { dep: s("opt"), feature: s("feat") };
    let t = resolve(&graph, &c, &vec![root_with(0, vec![direct])]).unwrap();
    assert_eq!(t.features(target_unit(1)), names(&["feat"]));
    assert_eq!(t.features(target_unit(0)), Vec::<String>::new());
}

#[test]
fn optional_dependency_is_not_built_unasked() {
    let graph = weak_graph();
    let c = config(flags(false, false, false), Command::Check);
    let t = resolve(&graph, &c, &vec![root(0)]).unwrap();
    assert!(t.is_present(target_unit(0)));
    assert!(!t.is_present(target_unit(1)));
}

#[test]
fn default_features_follow_the_edge() {
    // foo -> lib (default features); lib: default = ["a"], a = ["b"], b = [], c = [].
    let lib = package(
        "lib",
        vec![("default", vec![plain("a")]), ("a", vec![plain("b")]), ("b", vec![]), ("c", vec![])],
        vec![],
    );
    let graph = PackageGraph {
        packages: vec![package("foo", vec![], vec![dep("lib", 1, DepKind::Normal, vec![])]), lib],
    };
    let c = config(flags(false, false, false), Command::Check);
    let t = resolve(&graph, &c, &vec![root(0)]).unwrap();
    assert_eq!(sorted(t.features(target_unit(1))), names(&["a", "b", "default"]));

    let mut graph = graph;
    graph.packages[0].deps[0].default_features = false;
    graph.packages[0].deps[0].features = vec![plain("c")];
    let t = resolve(&graph, &c, &vec![root(0)]).unwrap();
    assert_eq!(t.features(target_unit(1)), names(&["c"]));
}

#[test]
fn all_features_of_a_root() {
    let graph = weak_graph();
    let c = config(flags(false, false, false), Command::Check);
    let everything =
        RootRequest { package: 0, features: vec![], default_features: true, all_features: true };
    let t = resolve(&graph, &c, &vec![everything]).unwrap();
    assert_eq!(sorted(t.features(target_unit(0))), names(&["on", "opt", "s", "w"]));
    assert_eq!(t.features(target_unit(1)), names(&["feat"]));
}

#[test]
fn more_requests_activate_no_less() {
    let graph = weak_graph();
    let c = config(flags(false, false, false), Command::Check);
    let small = resolve(&graph, &c, &vec![root_with(0, vec![plain("w")])]).unwrap();
    let large = resolve(&graph, &c, &vec![root_with(0, vec![plain("w"), plain("on")])]).unwrap();
    for package in 0..2 {
        let u = target_unit(package);
        if small.is_present(u) {
            assert!(large.is_present(u));
        }
        for f in small.features(u) {
            assert!(large.has_feature(u, &f));
        }
    }
    assert!(large.is_present(target_unit(1)));
    assert!(!small.is_present(target_unit(1)));
}

fn same_tables(a: &ActivationTable, b: &ActivationTable, packages: usize) {
    for package in 0..packages {
        for kind in [CompilationKind::Host, CompilationKind::Target] {
            for tests in [TestInclusion::Normal, TestInclusion::IncludesTests] {
                let u = unit(package, kind, tests);
                assert_eq!(a.is_present(u), b.is_present(u));
                assert_eq!(sorted(a.features(u)), sorted(b.features(u)));
            }
        }
    }
}

#[test]
fn propagating_again_changes_nothing() {
    let graph = three_roles_graph();
    let roots = vec![root(0)];
    let c = config(flags(false, true, true), Command::Run);
    let first = resolve(&graph, &c, &roots).unwrap();
    let reference = resolve(&graph, &c, &roots).unwrap();
    let again = propagate(&graph, &c, &roots, first, &vec![]);
    same_tables(&again, &reference, 2);
    // Deltas that are in the table already change nothing either.
    let known = WorkItem { unit: target_unit(1), delta: vec![plain("normal")] };
    let again = propagate(&graph, &c, &roots, again, &vec![known]);
    same_tables(&again, &reference, 2);
}

#[test]
fn propagating_a_new_delta_extends_the_table() {
    let graph = weak_graph();
    let c = config(flags(false, false, false), Command::Check);
    let roots = vec![root_with(0, vec![plain("w")])];
    let first = resolve(&graph, &c, &roots).unwrap();
    assert!(!first.is_present(target_unit(1)));
    // The retry with one more feature: the weak request that was held
    // ready is delivered now.
    let more = WorkItem { unit: target_unit(0), delta: vec![plain("on")] };
    let second = propagate(&graph, &c, &roots, first, &vec![more]);
    assert!(second.is_present(target_unit(1)));
    assert_eq!(second.features(target_unit(1)), names(&["feat"]));
    let direct =
        resolve(&graph, &c, &vec![root_with(0, vec![plain("w"), plain("on")])]).unwrap();
    same_tables(&second, &direct, 2);
}

#[test]
fn inactive_target_optional() {
    // An optional dependency under an inactive platform, switched on by
    // name: with filtering it is not built.
    let mut restricted = dep("common", 1, DepKind::Normal, vec![plain("f1")]);
    restricted.platform = Some(Platform::Cfg(CfgExpr::Value(Cfg::Name(s("whatever")))));
    restricted.optional = true;
    let graph = PackageGraph {
        packages: vec![
            package("foo", vec![("foo1", vec![plain("common")])], vec![restricted]),
            package("common", vec![("f1", vec![])], vec![]),
        ],
    };
    let roots = vec![root_with(0, vec![plain("foo1")])];
    let t = resolve(&graph, &config(flags(false, false, false), Command::Check), &roots).unwrap();
    assert_eq!(t.features(target_unit(1)), names(&["f1"]));
    let t = resolve(&graph, &config(flags(true, false, false), Command::Check), &roots).unwrap();
    assert!(!t.is_present(target_unit(1)));
    assert_eq!(sorted(t.features(target_unit(0))), names(&["common", "foo1"]));
}

#[test]
fn active_platform_edges_are_kept() {
    let mut restricted = dep("common", 1, DepKind::Normal, vec![plain("f1")]);
    restricted.platform = Some(Platform::Cfg(CfgExpr::Value(Cfg::Name(s("unix")))));
    let graph = PackageGraph {
        packages: vec![
            package("foo", vec![], vec![restricted]),
            package("common", vec![("f1", vec![])], vec![]),
        ],
    };
    let t = resolve(&graph, &config(flags(true, false, false), Command::Check), &vec![root(0)])
        .unwrap();
    assert_eq!(t.features(target_unit(1)), names(&["f1"]));
    // With no target to evaluate against, the edge can be active nowhere.
    let mut nowhere = config(flags(true, false, false), Command::Check);
    nowhere.targets = vec![];
    let t = resolve(&graph, &nowhere, &vec![root(0)]).unwrap();
    assert!(!t.is_present(target_unit(1)));
}

#[test]
fn faulty_root_requests_are_reported() {
    let graph = weak_graph();
    let c = config(flags(false, false, false), Command::Check);

    let unknown_package = vec![root(0), root(7)];
    assert_eq!(
        resolve(&graph, &c, &unknown_package).err(),
        Some(ConfigError { root: 1, fault: ConfigFault::UnknownPackage })
    );

    let conflicting =
        vec![RootRequest { package: 0, features: vec![], default_features: false, all_features: true }];
    assert_eq!(
        resolve(&graph, &c, &conflicting).err(),
        Some(ConfigError { root: 0, fault: ConfigFault::ConflictingFlags })
    );

    let unknown_feature = vec![root_with(0, vec![plain("w"), plain("nope"), plain("zzz")])];
    assert_eq!(
        resolve(&graph, &c, &unknown_feature).err(),
        Some(ConfigError { root: 0, fault: ConfigFault::UnknownFeature { position: 1 } })
    );

    let unknown_dep =
        vec![root_with(0, vec![FeatureRequest::Strong { dep: s("nope"), feature: s("feat") }])];
    assert_eq!(
        check_roots(&graph, &unknown_dep),
        Some(ConfigError { root: 0, fault: ConfigFault::UnknownFeature { position: 0 } })
    );

    let unknown_dep_feature =
        vec![root_with(0, vec![FeatureRequest::Weak { dep: s("opt"), feature: s("nope") }])];
    assert_eq!(
        check_roots(&graph, &unknown_dep_feature),
        Some(ConfigError { root: 0, fault: ConfigFault::UnknownFeature { position: 0 } })
    );

    // The name of an optional dependency can be asked for like a feature.
    assert_eq!(check_roots(&graph, &vec![root_with(0, vec![plain("opt")])]), None);
    assert!(graph.is_well_formed());
}

#[test]
fn malformed_graph_is_recognised() {
    let graph = PackageGraph {
        packages: vec![package("foo", vec![], vec![dep("gone", 3, DepKind::Normal, vec![])])],
    };
    assert!(!graph.is_well_formed());
    assert!(inactive_target_graph().is_well_formed());
    let id = PackageId { name: s("bar"), version: s("1.0.0"), source: s("registry") };
    assert_eq!(inactive_target_graph().find(&id), Some(2));
    let other = PackageId { name: s("bar"), version: s("2.0.0"), source: s("registry") };
    assert_eq!(inactive_target_graph().find(&other), None);
}

#[test]
fn two_roots_are_resolved_together() {
    // Two roots share common; each asks for another feature of it.
    let graph = PackageGraph {
        packages: vec![
            package("a", vec![], vec![dep("common", 2, DepKind::Normal, vec![plain("x")])]),
            package("b", vec![], vec![dep("common", 2, DepKind::Normal, vec![plain("y")])]),
            package("common", vec![("x", vec![]), ("y", vec![])], vec![]),
        ],
    };
    let c = config(flags(true, true, true), Command::Check);
    let t = resolve(&graph, &c, &vec![root(0)]).unwrap();
    assert_eq!(t.features(target_unit(2)), names(&["x"]));
    assert!(!t.is_present(target_unit(1)));
    let t = resolve(&graph, &c, &vec![root(0), root(1)]).unwrap();
    assert_eq!(sorted(t.features(target_unit(2))), names(&["x", "y"]));
}

#[test]
fn unified_table_covers_every_decoupled_table() {
    let graphs = vec![three_roles_graph(), host_dep_graph(), inactive_target_graph(), weak_graph()];
    for graph in &graphs {
        let roots = vec![RootRequest {
            package: 0,
            features: vec![],
            default_features: true,
            all_features: true,
        }];
        for command in [Command::Check, Command::Run, Command::Test] {
            let unified =
                resolve(graph, &config(flags(false, false, false), command), &roots).unwrap();
            for bits in 0..8 {
                let f = flags(bits & 1 != 0, bits & 2 != 0, bits & 4 != 0);
                let t = resolve(graph, &config(f, command), &roots).unwrap();
                for u in t.units() {
                    let merged = target_unit(u.package);
                    assert!(unified.is_present(merged));
                    for name in t.features(u) {
                        assert!(unified.has_feature(merged, &name));
                    }
                }
            }
        }
    }
}

use feature_resolver::activation::ActivationTable;
use feature_resolver::context::child_unit;
use feature_resolver::context::follows_dev;
use feature_resolver::context::is_active;
use feature_resolver::context::is_active_anywhere;
use feature_resolver::context::root_unit;
use feature_resolver::context::takes_part;
use feature_resolver::context::Command;
use feature_resolver::context::CompilationKind;
use feature_resolver::context::Invocation;
use feature_resolver::context::ResolverBehaviorFlags;
use feature_resolver::context::ResolverConfig;
use feature_resolver::context::TestInclusion;
use feature_resolver::context::Unit;
use feature_resolver::env::build_script_env;
use feature_resolver::env::feature_signal;
use feature_resolver::env::signal_from_upper;
use feature_resolver::expand::expand;
use feature_resolver::expand::push_new;
use feature_resolver::gate::is_runnable;
use feature_resolver::gate::meets;
use feature_resolver::gate::Artifact;
use feature_resolver::gate::MissingFeatures;
use feature_resolver::graph::requested_directly;
use feature_resolver::graph::DepKind;
use feature_resolver::graph::DependencyEdge;
use feature_resolver::graph::FeatureDecl;
use feature_resolver::graph::FeatureTable;
use feature_resolver::graph::Package;
use feature_resolver::graph::PackageGraph;
use feature_resolver::graph::PackageId;
use feature_resolver::graph::RootRequest;
use feature_resolver::platform::Cfg;
use feature_resolver::platform::CfgExpr;
use feature_resolver::platform::Platform;
use feature_resolver::platform::TargetInfo;
use feature_resolver::request::clone_requests;
use feature_resolver::request::FeatureRequest;
use feature_resolver::resolve::knows_request;
use feature_resolver::resolve::resolve;
use feature_resolver::text::insert_ordered;

fn s(x: &str) -> String {
    x.to_string()
}

fn names(list: &[&str]) -> Vec<String> {
    list.iter().map(|x| s(x)).collect()
}

fn plain(x: &str) -> FeatureRequest {
    FeatureRequest::Plain { feature: s(x) }
}

fn strong(d: &str, f: &str) -> FeatureRequest {
    FeatureRequest::Strong { dep: s(d), feature: s(f) }
}

fn weak(d: &str, f: &str) -> FeatureRequest {
    FeatureRequest::Weak { dep: s(d), feature: s(f) }
}

fn exprs(v: &[FeatureRequest]) -> Vec<String> {
    v.iter().map(|r| r.to_expr()).collect()
}

fn package(name: &str, features: Vec<(&str, Vec<FeatureRequest>)>, deps: Vec<DependencyEdge>) -> Package {
    let mut entries = Vec::new();
    for (n, implies) in features {
        entries.push(FeatureDecl { name: s(n), implies });
    }
    Package {
        id: PackageId { name: s(name), version: s("0.1.0"), source: s("path") },
        table: FeatureTable { entries },
        deps,
    }
}

fn dep(name: &str, target: usize, kind: DepKind, features: Vec<FeatureRequest>) -> DependencyEdge {
    DependencyEdge {
        name: s(name),
        target,
        kind,
        platform: None,
        optional: false,
        default_features: true,
        features,
        proc_macro: false,
    }
}

fn linux() -> TargetInfo {
    TargetInfo {
        name: s("x86_64-unknown-linux-gnu"),
        cfgs: vec![Cfg::Name(s("unix")), Cfg::KeyPair(s("target_os"), s("linux"))],
    }
}

fn flags(itarget: bool, host_dep: bool, dev_dep: bool) -> ResolverBehaviorFlags {
    ResolverBehaviorFlags { itarget, host_dep, dev_dep, all: false }
}

fn config(flags: ResolverBehaviorFlags, command: Command) -> ResolverConfig {
    ResolverConfig {
        flags,
        invocation: Invocation { command, tests: TestInclusion::Normal },
        targets: vec![linux()],
    }
}

fn unit(package: usize, kind: CompilationKind, tests: TestInclusion) -> Unit {
    Unit { package, kind, tests }
}

fn target_unit(package: usize) -> Unit {
    unit(package, CompilationKind::Target, TestInclusion::Normal)
}

fn root(package: usize, features: Vec<FeatureRequest>) -> RootRequest {
    RootRequest { package, features, default_features: true, all_features: false }
}

// ---- requests ----

#[test]
fn written_forms_of_requests() {
    assert_eq!(plain("feat").to_expr(), "feat");
    assert_eq!(strong("dep", "feat").to_expr(), "dep/feat");
    assert_eq!(weak("dep", "feat").to_expr(), "dep?/feat");
    assert_eq!(plain("").to_expr(), "");
}

#[test]
fn sameness_of_requests() {
    assert!(plain("a").same(&plain("a")));
    assert!(!plain("a").same(&plain("b")));
    assert!(!strong("d", "f").same(&weak("d", "f")));
    assert!(strong("d", "f").same(&strong("d", "f")));
    assert!(!strong("d", "f").same(&strong("e", "f")));
    assert!(!weak("d", "f").same(&weak("d", "g")));
    assert!(!plain("f").same(&strong("", "f")));
    assert!(weak("d", "f").clone().same(&weak("d", "f")));
    let list = vec![plain("a"), weak("d", "f")];
    assert!(weak("d", "f").is_in(&list));
    assert!(!strong("d", "f").is_in(&list));
    assert_eq!(exprs(&clone_requests(&list)), names(&["a", "d?/f"]));
    let mut list = list;
    assert!(!push_new(&mut list, &plain("a")));
    assert!(push_new(&mut list, &plain("b")));
    assert_eq!(exprs(&list), names(&["a", "d?/f", "b"]));
}

#[test]
fn reading_of_requests() {
    for (text, expected) in [
        ("feat", plain("feat")),
        ("dep/feat", strong("dep", "feat")),
        ("dep?/feat", weak("dep", "feat")),
        ("", plain("")),
        ("/", strong("", "")),
        ("?/", weak("", "")),
        ("/feat", strong("", "feat")),
        ("dep/", strong("dep", "")),
        ("a/b/c", strong("a", "b/c")),
        ("a?/b?/c", weak("a", "b?/c")),
        ("a??/b", weak("a?", "b")),
        ("a?b/c", strong("a?b", "c")),
        ("feat?", plain("feat?")),
        ("dép?/fé", weak("dép", "fé")),
    ] {
        let r = FeatureRequest::parse(text);
        assert!(r.same(&expected), "{} read as {:?}", text, r);
    }
    for r in [plain("f"), strong("d", "f"), weak("d", "f"), strong("d", "a/b"), weak("", "")] {
        assert!(FeatureRequest::parse(&r.to_expr()).same(&r));
    }
}

#[test]
fn reading_of_toggles() {
    let read = |list: &[&str]| ResolverBehaviorFlags::from_toggles(&names(list));
    assert_eq!(read(&[]), Some(ResolverBehaviorFlags::legacy()));
    assert_eq!(read(&["itarget"]), Some(flags(true, false, false)));
    assert_eq!(read(&["host_dep"]), Some(flags(false, true, false)));
    assert_eq!(read(&["dev_dep", "itarget", "dev_dep"]), Some(flags(true, false, true)));
    assert_eq!(
        read(&["all"]),
        Some(ResolverBehaviorFlags { itarget: false, host_dep: false, dev_dep: false, all: true })
    );
    assert_eq!(read(&["itarget", "compare"]), None);
    assert_eq!(read(&["ITARGET"]), None);
    assert_eq!(read(&[""]), None);
}

// ---- the platform filter ----

fn name(x: &str) -> CfgExpr {
    CfgExpr::Value(Cfg::Name(s(x)))
}

fn pair(k: &str, v: &str) -> CfgExpr {
    CfgExpr::Value(Cfg::KeyPair(s(k), s(v)))
}

#[test]
fn cfg_expressions() {
    let t = linux();
    assert!(name("unix").matches(&t));
    assert!(!name("windows").matches(&t));
    assert!(pair("target_os", "linux").matches(&t));
    assert!(!pair("target_os", "macos").matches(&t));
    assert!(!pair("unix", "linux").matches(&t));
    assert!(!name("target_os").matches(&t));
    assert!(CfgExpr::Not(Box::new(name("windows"))).matches(&t));
    assert!(!CfgExpr::Not(Box::new(name("unix"))).matches(&t));
    assert!(CfgExpr::All(vec![]).matches(&t));
    assert!(!CfgExpr::Any(vec![]).matches(&t));
    assert!(CfgExpr::All(vec![name("unix"), pair("target_os", "linux")]).matches(&t));
    assert!(!CfgExpr::All(vec![name("unix"), name("windows")]).matches(&t));
    assert!(CfgExpr::Any(vec![name("windows"), name("unix")]).matches(&t));
    assert!(!CfgExpr::Any(vec![name("windows"), name("wasm")]).matches(&t));
    let nested = CfgExpr::All(vec![
        CfgExpr::Any(vec![name("windows"), CfgExpr::Not(Box::new(name("wasm")))]),
        CfgExpr::Not(Box::new(CfgExpr::All(vec![name("unix"), name("windows")]))),
    ]);
    assert!(nested.matches(&t));
    assert!(t.has_cfg(&Cfg::Name(s("unix"))));
    assert!(!t.has_cfg(&Cfg::Name(s("linux"))));
    assert!(Cfg::Name(s("a")).same(&Cfg::Name(s("a"))));
    assert!(!Cfg::Name(s("a")).same(&Cfg::KeyPair(s("a"), s(""))));
}

#[test]
fn platforms() {
    let t = linux();
    assert!(Platform::Name(s("x86_64-unknown-linux-gnu")).matches(&t));
    assert!(!Platform::Name(s("wasm32-unknown-unknown")).matches(&t));
    assert!(Platform::Cfg(name("unix")).matches(&t));
    assert!(!Platform::Cfg(name("windows")).matches(&t));
}

#[test]
fn platform_filter() {
    let t = linux();
    let on = flags(true, false, false);
    let off = flags(false, false, false);
    let only_all = ResolverBehaviorFlags { itarget: false, host_dep: false, dev_dep: false, all: true };
    let free = dep("a", 0, DepKind::Normal, vec![]);
    let mut windows = dep("a", 0, DepKind::Normal, vec![]);
    windows.platform = Some(Platform::Cfg(name("windows")));
    let mut unix = dep("a", 0, DepKind::Normal, vec![]);
    unix.platform = Some(Platform::Cfg(name("unix")));

    assert!(is_active(&off, &windows, &t));
    assert!(is_active(&off, &free, &t));
    assert!(is_active(&on, &free, &t));
    assert!(!is_active(&on, &windows, &t));
    assert!(!is_active(&only_all, &windows, &t));
    assert!(is_active(&on, &unix, &t));

    let mac = TargetInfo { name: s("aarch64-apple-darwin"), cfgs: vec![Cfg::Name(s("unix"))] };
    let win = TargetInfo { name: s("x86_64-pc-windows-msvc"), cfgs: vec![Cfg::Name(s("windows"))] };
    let mut c = config(on, Command::Build);
    c.targets = vec![mac, win];
    assert!(is_active_anywhere(&c, &windows));
    assert!(is_active_anywhere(&c, &unix));
    let mut wasm = dep("a", 0, DepKind::Normal, vec![]);
    wasm.platform = Some(Platform::Name(s("wasm32-unknown-unknown")));
    assert!(!is_active_anywhere(&c, &wasm));
    c.flags = off;
    assert!(is_active_anywhere(&c, &wasm));
    assert!(on.platforms_filtered() && !off.platforms_filtered() && only_all.platforms_filtered());
    assert!(only_all.host_decoupled() && only_all.dev_decoupled());
    assert_eq!(ResolverBehaviorFlags::legacy(), off);
}

// ---- the classifier ----

#[test]
fn classification_of_edges() {
    let both = flags(false, true, true);
    let none = flags(false, false, false);
    let host = CompilationKind::Host;
    let target = CompilationKind::Target;
    let normal = TestInclusion::Normal;
    let tests = TestInclusion::IncludesTests;

    let n = dep("x", 5, DepKind::Normal, vec![]);
    let b = dep("x", 5, DepKind::Build, vec![]);
    let d = dep("x", 5, DepKind::Dev, vec![]);
    let mut pm = dep("x", 5, DepKind::Normal, vec![]);
    pm.proc_macro = true;

    assert_eq!(child_unit(&both, unit(0, target, normal), &n), unit(5, target, normal));
    assert_eq!(child_unit(&both, unit(0, target, normal), &b), unit(5, host, normal));
    assert_eq!(child_unit(&both, unit(0, target, normal), &pm), unit(5, host, normal));
    assert_eq!(child_unit(&both, unit(0, target, normal), &d), unit(5, target, tests));
    // Host and tests are contagious.
    assert_eq!(child_unit(&both, unit(0, host, normal), &n), unit(5, host, normal));
    assert_eq!(child_unit(&both, unit(0, target, tests), &n), unit(5, target, tests));
    assert_eq!(child_unit(&both, unit(0, host, tests), &b), unit(5, host, tests));
    // Without decoupling both dimensions collapse.
    assert_eq!(child_unit(&none, unit(0, target, normal), &b), unit(5, target, normal));
    assert_eq!(child_unit(&none, unit(0, target, normal), &d), unit(5, target, normal));
    assert_eq!(child_unit(&flags(false, true, false), unit(0, target, normal), &d), unit(5, target, normal));
    assert_eq!(child_unit(&flags(false, false, true), unit(0, target, normal), &b), unit(5, target, normal));

    assert_eq!(root_unit(&config(both, Command::Build), 3), unit(3, target, normal));
    assert_eq!(root_unit(&config(both, Command::Test), 3), unit(3, target, tests));
    assert_eq!(root_unit(&config(none, Command::Test), 3), unit(3, target, normal));
}

#[test]
fn following_of_development_edges() {
    let legacy = flags(false, false, false);
    let decoupled = flags(false, false, true);
    for command in [Command::Check, Command::Build, Command::Run, Command::Test, Command::Doc] {
        let expect_root = matches!(command, Command::Build | Command::Run | Command::Test);
        let expect_other = matches!(command, Command::Test);
        assert_eq!(follows_dev(&config(legacy, command), true), expect_root);
        assert_eq!(follows_dev(&config(legacy, command), false), expect_other);
        assert_eq!(follows_dev(&config(decoupled, command), true), expect_other);
        assert_eq!(follows_dev(&config(decoupled, command), false), expect_other);
        let mut with = config(decoupled, command);
        with.invocation.tests = TestInclusion::IncludesTests;
        assert!(follows_dev(&with, false));
        assert!(with.invocation.with_tests());
    }
    let d = dep("x", 1, DepKind::Dev, vec![]);
    assert!(takes_part(&config(legacy, Command::Run), &d, true));
    assert!(!takes_part(&config(legacy, Command::Run), &d, false));
    assert!(!takes_part(&config(legacy, Command::Check), &d, true));
    let n = dep("x", 1, DepKind::Normal, vec![]);
    assert!(takes_part(&config(legacy, Command::Check), &n, false));
    let roots = vec![root(2, vec![]), root(4, vec![])];
    assert!(requested_directly(&roots, 4));
    assert!(!requested_directly(&roots, 3));
}

// ---- the feature table resolver ----

fn table_package() -> Package {
    let mut opt = dep("opt", 1, DepKind::Normal, vec![]);
    opt.optional = true;
    package(
        "foo",
        vec![
            ("default", vec![plain("a")]),
            ("a", vec![plain("b"), strong("dep", "x")]),
            ("b", vec![plain("a"), weak("opt", "y")]),
            ("c", vec![plain("c")]),
            ("d", vec![]),
        ],
        vec![opt, dep("dep", 2, DepKind::Normal, vec![])],
    )
}

#[test]
fn expansion_follows_implications_to_the_end() {
    let p = table_package();
    assert_eq!(
        exprs(&expand(&p, &vec![plain("a")], false, false)),
        names(&["a", "b", "dep/x", "opt?/y"])
    );
    assert_eq!(exprs(&expand(&p, &vec![plain("d")], false, false)), names(&["d"]));
    // A feature that implies itself.
    assert_eq!(exprs(&expand(&p, &vec![plain("c")], false, false)), names(&["c"]));
    assert_eq!(exprs(&expand(&p, &vec![], false, false)), Vec::<String>::new());
    // Requests on dependencies open no table; repetitions are dropped.
    assert_eq!(
        exprs(&expand(&p, &vec![strong("dep", "a"), plain("d"), strong("dep", "a")], false, false)),
        names(&["dep/a", "d"])
    );
    // A name that the table does not declare stays as it is.
    assert_eq!(exprs(&expand(&p, &vec![plain("zzz")], false, false)), names(&["zzz"]));
}

#[test]
fn expansion_with_default_and_all_features() {
    let p = table_package();
    assert_eq!(
        exprs(&expand(&p, &vec![], true, false)),
        names(&["default", "a", "b", "dep/x", "opt?/y"])
    );
    assert_eq!(
        exprs(&expand(&p, &vec![plain("d")], true, true)),
        names(&["d", "default", "a", "b", "c", "opt", "dep/x", "opt?/y"])
    );
    // No default feature declared: asking for it adds nothing.
    let bare = package("bare", vec![("x", vec![])], vec![]);
    assert_eq!(exprs(&expand(&bare, &vec![], true, false)), Vec::<String>::new());
    assert_eq!(exprs(&expand(&bare, &vec![], true, true)), names(&["x"]));
    assert!(p.knows_name(&s("opt")) && p.knows_name(&s("a")) && !p.knows_name(&s("dep")));
    assert!(p.dep_named(&s("dep")) && !p.dep_named(&s("a")));
    assert!(p.optional_dep_named(&s("opt")) && !p.optional_dep_named(&s("dep")));
    assert!(p.table.has_feature(&s("default")) && !p.table.has_feature(&s("opt")));
}

// ---- required features ----

/// foo has a build dependency bdep; bin x requires `bdep/f1`.
fn bdep_graph() -> PackageGraph {
    let mut b = dep("bdep", 1, DepKind::Build, vec![]);
    b.default_features = false;
    PackageGraph {
        packages: vec![
            package("foo", vec![("feat1", vec![]), ("zeta", vec![]), ("alpha", vec![])], vec![b]),
            package("bdep", vec![("f1", vec![])], vec![]),
        ],
    }
}

#[test]
fn required_features_host_dep() {
    let graph = bdep_graph();
    let x = Artifact { name: s("x"), unit: target_unit(0), required_features: vec![strong("bdep", "f1")] };

    let c = config(flags(false, false, false), Command::Run);
    let t = resolve(&graph, &c, &vec![root(0, vec![])]).unwrap();
    let err = is_runnable(&graph, &c.flags, &t, &x).unwrap_err();
    assert_eq!(err.artifact, "x");
    assert_eq!(err.package, "foo");
    assert_eq!(err.missing, names(&["bdep/f1"]));
    assert_eq!(
        err.message(),
        "target `x` in package `foo` requires the features: `bdep/f1`\n\
         Consider enabling them by passing, e.g., `--features=\"bdep/f1\"`"
    );

    let c = config(flags(false, true, false), Command::Run);
    let t = resolve(&graph, &c, &vec![root(0, vec![strong("bdep", "f1")])]).unwrap();
    assert!(t.has_feature(unit(1, CompilationKind::Host, TestInclusion::Normal), &s("f1")));
    assert!(is_runnable(&graph, &c.flags, &t, &x).is_ok());
}

#[test]
fn required_features_inactive_dep() {
    let mut bar = dep("bar", 1, DepKind::Normal, vec![]);
    bar.platform = Some(Platform::Cfg(name("whatever")));
    let graph = PackageGraph {
        packages: vec![
            package("foo", vec![("feat1", vec![])], vec![bar]),
            package("bar", vec![("b1", vec![])], vec![]),
        ],
    };
    let c = config(flags(true, false, false), Command::Check);
    let bin = Artifact { name: s("foo"), unit: target_unit(0), required_features: vec![plain("feat1")] };
    let t = resolve(&graph, &c, &vec![root(0, vec![])]).unwrap();
    assert!(!t.is_present(target_unit(1)));
    assert_eq!(is_runnable(&graph, &c.flags, &t, &bin).unwrap_err().missing, names(&["feat1"]));
    let t = resolve(&graph, &c, &vec![root(0, vec![plain("feat1")])]).unwrap();
    assert!(is_runnable(&graph, &c.flags, &t, &bin).is_ok());
    // A requirement on the excluded dependency is still looked up, and
    // is not met: the dependency contributes nothing.
    let needs_bar =
        Artifact { name: s("foo"), unit: target_unit(0), required_features: vec![strong("bar", "b1")] };
    assert_eq!(
        is_runnable(&graph, &c.flags, &t, &needs_bar).unwrap_err().missing,
        names(&["bar/b1"])
    );
    // A weak requirement on a dependency that is not built is met.
    let weakly =
        Artifact { name: s("foo"), unit: target_unit(0), required_features: vec![weak("bar", "b1")] };
    assert!(is_runnable(&graph, &c.flags, &t, &weakly).is_ok());
    // Built without the feature, it is not.
    let legacy = config(flags(false, false, false), Command::Check);
    let t = resolve(&graph, &legacy, &vec![root(0, vec![])]).unwrap();
    assert!(t.is_present(target_unit(1)));
    assert!(!meets(&graph, &legacy.flags, &t, target_unit(0), &weak("bar", "b1")));
    assert!(meets(&graph, &legacy.flags, &t, target_unit(0), &weak("nodep", "b1")));
    assert!(!meets(&graph, &legacy.flags, &t, target_unit(0), &strong("nodep", "b1")));
}

#[test]
fn all_missing_features_are_listed_in_order() {
    let graph = bdep_graph();
    let c = config(flags(false, false, false), Command::Run);
    let t = resolve(&graph, &c, &vec![root(0, vec![plain("feat1")])]).unwrap();
    let x = Artifact {
        name: s("bench-it"),
        unit: target_unit(0),
        required_features: vec![
            plain("zeta"),
            plain("feat1"),
            strong("bdep", "f1"),
            plain("alpha"),
            plain("Zeta"),
            plain("zeta"),
        ],
    };
    let err = is_runnable(&graph, &c.flags, &t, &x).unwrap_err();
    assert_eq!(err.missing, names(&["Zeta", "alpha", "bdep/f1", "zeta", "zeta"]));
    assert_eq!(
        err.message(),
        "target `bench-it` in package `foo` requires the features: \
         `Zeta`, `alpha`, `bdep/f1`, `zeta`, `zeta`\n\
         Consider enabling them by passing, e.g., \
         `--features=\"Zeta alpha bdep/f1 zeta zeta\"`"
    );
    // The table is as it was.
    assert_eq!(t.features(target_unit(0)), names(&["feat1"]));
    // A unit that is not built has no feature.
    let elsewhere = Artifact {
        name: s("t"),
        unit: unit(0, CompilationKind::Host, TestInclusion::Normal),
        required_features: vec![plain("feat1")],
    };
    assert!(is_runnable(&graph, &c.flags, &t, &elsewhere).is_err());
    let nothing = Artifact { name: s("t"), unit: target_unit(0), required_features: vec![] };
    assert!(is_runnable(&graph, &c.flags, &t, &nothing).is_ok());
}

#[test]
fn message_without_entries() {
    let m = MissingFeatures { artifact: s("a"), package: s("p"), missing: vec![] };
    assert_eq!(
        m.message(),
        "target `a` in package `p` requires the features: \n\
         Consider enabling them by passing, e.g., `--features=\"\"`"
    );
}

#[test]
fn ordered_insertion() {
    let mut list: Vec<String> = vec![];
    for x in ["pear", "apple", "fig", "apple", "", "app", "é", "z", "B"] {
        insert_ordered(&mut list, s(x));
    }
    assert_eq!(list, names(&["", "B", "app", "apple", "apple", "fig", "pear", "z", "é"]));
    let mut check = list.clone();
    check.sort();
    assert_eq!(list, check);
}

// ---- signals for build scripts ----

#[test]
fn signals() {
    assert_eq!(feature_signal(&s("f1")), "CARGO_FEATURE_F1");
    assert_eq!(feature_signal(&s("normal")), "CARGO_FEATURE_NORMAL");
    assert_eq!(feature_signal(&s("ALREADY")), "CARGO_FEATURE_ALREADY");
    assert_eq!(feature_signal(&s("")), "CARGO_FEATURE_");
    assert_eq!(feature_signal(&s("straße")), "CARGO_FEATURE_STRASSE");
    assert_eq!(signal_from_upper(&s("abc")), "CARGO_FEATURE_abc");
}

#[test]
fn signals_of_a_unit() {
    let mut b = dep("common", 1, DepKind::Build, vec![plain("build"), plain("extra")]);
    b.default_features = false;
    let mut n = dep("common", 1, DepKind::Normal, vec![plain("normal")]);
    n.default_features = false;
    let graph = PackageGraph {
        packages: vec![
            package("foo", vec![], vec![b, n]),
            package("common", vec![("normal", vec![]), ("build", vec![]), ("extra", vec![])], vec![]),
        ],
    };
    let c = config(flags(false, true, false), Command::Build);
    let t = resolve(&graph, &c, &vec![root(0, vec![])]).unwrap();
    let host = unit(1, CompilationKind::Host, TestInclusion::Normal);
    let mut env = build_script_env(&t, host);
    env.sort();
    assert_eq!(
        env,
        vec![(s("CARGO_FEATURE_BUILD"), s("1")), (s("CARGO_FEATURE_EXTRA"), s("1"))]
    );
    assert_eq!(build_script_env(&t, target_unit(1)), vec![(s("CARGO_FEATURE_NORMAL"), s("1"))]);
    assert_eq!(build_script_env(&t, target_unit(0)), vec![]);
    assert_eq!(build_script_env(&t, target_unit(9)), vec![]);
}

// ---- the table ----

#[test]
fn units_of_a_table() {
    let graph = bdep_graph();
    let c = config(flags(false, true, false), Command::Build);
    let t = resolve(&graph, &c, &vec![root(0, vec![])]).unwrap();
    assert_eq!(
        t.units(),
        vec![target_unit(0), unit(1, CompilationKind::Host, TestInclusion::Normal)]
    );
    let c = config(flags(false, false, false), Command::Build);
    let t = resolve(&graph, &c, &vec![root(0, vec![])]).unwrap();
    assert_eq!(t.units(), vec![target_unit(0), target_unit(1)]);
    let c = config(flags(false, true, true), Command::Test);
    let t = resolve(&graph, &c, &vec![root(0, vec![])]).unwrap();
    assert_eq!(
        t.units(),
        vec![
            unit(0, CompilationKind::Target, TestInclusion::IncludesTests),
            unit(1, CompilationKind::Host, TestInclusion::IncludesTests)
        ]
    );
    assert_eq!(ActivationTable::empty(&graph).units(), vec![]);
}

#[test]
fn empty_table() {
    let graph = bdep_graph();
    let t = ActivationTable::empty(&graph);
    for package in 0..3 {
        assert!(!t.is_present(target_unit(package)));
        assert_eq!(t.features(target_unit(package)), Vec::<String>::new());
        assert!(!t.has_request(target_unit(package), &plain("f1")));
    }
    assert!(knows_request(&graph, 0, &strong("bdep", "f1")));
    assert!(!knows_request(&graph, 0, &strong("bdep", "f2")));
    assert!(!knows_request(&graph, 1, &weak("bdep", "f1")));
    assert!(knows_request(&graph, 1, &plain("f1")));
}

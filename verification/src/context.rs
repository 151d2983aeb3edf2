//! Resolver configuration, the platform filter and the classification of
//! compilation contexts.
//!
//! Every decision that depends on the behaviour flags is taken here: which
//! edges exist for the evaluated targets, which development edges are
//! followed, and which unit an edge leads to.

use crate::graph::DepKind;
use crate::graph::DependencyEdge;
use crate::platform::TargetInfo;
use vstd::prelude::*;
use vstd::string::*;

verus! {

/// The four behaviour toggles. With none of them set, every activation of
/// a package is unified into one entry.
#[derive(Clone, Copy, Debug, PartialEq, Eq, Structural)]
pub struct ResolverBehaviorFlags {
    /// Leave out dependencies that exist on none of the evaluated targets.
    pub itarget: bool,
    /// Keep what is compiled for the host apart from what is compiled for
    /// the target.
    pub host_dep: bool,
    /// Keep development dependencies out of builds without tests.
    pub dev_dep: bool,
    /// The three above at once.
    pub all: bool,
}

/// Whether `name` is the name of a behaviour toggle.
pub open spec fn is_toggle(name: Seq<char>) -> bool {
    name == "itarget"@ || name == "host_dep"@ || name == "dev_dep"@ || name == "all"@
}

impl ResolverBehaviorFlags {
    pub open spec fn filters_platforms(self) -> bool {
        self.itarget || self.all
    }

    pub open spec fn decouples_host(self) -> bool {
        self.host_dep || self.all
    }

    pub open spec fn decouples_dev(self) -> bool {
        self.dev_dep || self.all
    }

    /// The flags of the unified behaviour: none set.
    pub fn legacy() -> (f: ResolverBehaviorFlags)
        ensures
            f == (ResolverBehaviorFlags {
                itarget: false,
                host_dep: false,
                dev_dep: false,
                all: false,
            }),
    {
        ResolverBehaviorFlags { itarget: false, host_dep: false, dev_dep: false, all: false }
    }

    /// The flags that a set of toggle names stands for. The names are
    /// `itarget`, `host_dep`, `dev_dep` and `all`; a flag is set when its
    /// name occurs. Any other name makes the set unreadable.
    pub fn from_toggles(names: &Vec<String>) -> (r: Option<ResolverBehaviorFlags>)
        ensures
            r is Some <==> forall|k: int|
                0 <= k < names@.len() ==> is_toggle((#[trigger] names@[k])@),
            r matches Some(f) ==> {
                &&& f.itarget == exists|k: int|
                    0 <= k < names@.len() && (#[trigger] names@[k])@ == "itarget"@
                &&& f.host_dep == exists|k: int|
                    0 <= k < names@.len() && (#[trigger] names@[k])@ == "host_dep"@
                &&& f.dev_dep == exists|k: int|
                    0 <= k < names@.len() && (#[trigger] names@[k])@ == "dev_dep"@
                &&& f.all == exists|k: int|
                    0 <= k < names@.len() && (#[trigger] names@[k])@ == "all"@
            },
    {
        let itarget = String::from_str("itarget");
        let host_dep = String::from_str("host_dep");
        let dev_dep = String::from_str("dev_dep");
        let all = String::from_str("all");
        let mut flags = ResolverBehaviorFlags::legacy();
        let mut i: usize = 0;
        while i < names.len()
            invariant
                i <= names.len(),
                itarget@ == "itarget"@,
                host_dep@ == "host_dep"@,
                dev_dep@ == "dev_dep"@,
                all@ == "all"@,
                forall|k: int| 0 <= k < i ==> is_toggle((#[trigger] names@[k])@),
                flags.itarget == exists|k: int|
                    0 <= k < i && (#[trigger] names@[k])@ == "itarget"@,
                flags.host_dep == exists|k: int|
                    0 <= k < i && (#[trigger] names@[k])@ == "host_dep"@,
                flags.dev_dep == exists|k: int|
                    0 <= k < i && (#[trigger] names@[k])@ == "dev_dep"@,
                flags.all == exists|k: int| 0 <= k < i && (#[trigger] names@[k])@ == "all"@,
            decreases names.len() - i,
        {
            proof {
                reveal_strlit("itarget");
                reveal_strlit("host_dep");
                reveal_strlit("dev_dep");
                reveal_strlit("all");
                assert("itarget"@[0] == 'i' && "dev_dep"@[0] == 'd');
                assert("itarget"@.len() == 7 && "host_dep"@.len() == 8 && "dev_dep"@.len() == 7
                    && "all"@.len() == 3);
            }
            let name = &names[i];
            if *name == itarget {
                flags.itarget = true;
            } else if *name == host_dep {
                flags.host_dep = true;
            } else if *name == dev_dep {
                flags.dev_dep = true;
            } else if *name == all {
                flags.all = true;
            } else {
                assert(!is_toggle(names@[i as int]@));
                return None;
            }
            i += 1;
        }
        Some(flags)
    }

    pub fn platforms_filtered(&self) -> (r: bool)
        ensures
            r == self.filters_platforms(),
    {
        self.itarget || self.all
    }

    pub fn host_decoupled(&self) -> (r: bool)
        ensures
            r == self.decouples_host(),
    {
        self.host_dep || self.all
    }

    pub fn dev_decoupled(&self) -> (r: bool)
        ensures
            r == self.decouples_dev(),
    {
        self.dev_dep || self.all
    }
}

/// Where a unit runs: on the machine that builds, or on the platform that
/// the build is for.
#[derive(Clone, Copy, Debug, PartialEq, Eq, Structural)]
pub enum CompilationKind {
    Host,
    Target,
}

/// Whether a build includes test, bench or doctest artifacts.
#[derive(Clone, Copy, Debug, PartialEq, Eq, Structural)]
pub enum TestInclusion {
    Normal,
    IncludesTests,
}

/// The key of one activation: a package in one compilation context.
#[derive(Clone, Copy, Debug, PartialEq, Eq, Structural)]
pub struct Unit {
    /// The position of the package in the graph.
    pub package: usize,
    pub kind: CompilationKind,
    pub tests: TestInclusion,
}

/// The command on whose behalf features are resolved.
#[derive(Clone, Copy, Debug, PartialEq, Eq, Structural)]
pub enum Command {
    Check,
    Build,
    Run,
    Test,
    Doc,
}

/// One invocation: the command and whether it was asked to include test
/// artifacts. `Test` always includes them.
#[derive(Clone, Copy, Debug, PartialEq, Eq, Structural)]
pub struct Invocation {
    pub command: Command,
    pub tests: TestInclusion,
}

impl Invocation {
    pub open spec fn includes_tests(self) -> bool {
        self.tests == TestInclusion::IncludesTests || self.command == Command::Test
    }

    /// Whether the command builds what it was pointed at in order to
    /// execute or deliver it: `run` and `build`, not `check`.
    pub open spec fn builds_directly(self) -> bool {
        self.command == Command::Run || self.command == Command::Build
    }

    pub fn with_tests(&self) -> (r: bool)
        ensures
            r == self.includes_tests(),
    {
        self.tests == TestInclusion::IncludesTests || self.command == Command::Test
    }
}

/// Everything but the graph and the root requests: the flags, the
/// invocation and the targets against which platform restrictions are
/// evaluated.
pub struct ResolverConfig {
    pub flags: ResolverBehaviorFlags,
    pub invocation: Invocation,
    pub targets: Vec<TargetInfo>,
}

/// Whether the edge counts for the single target `target`: always when
/// platforms are not filtered or the edge is unrestricted, otherwise when
/// its restriction admits the target.
pub open spec fn edge_active_for(
    flags: ResolverBehaviorFlags,
    edge: &DependencyEdge,
    target: &TargetInfo,
) -> bool {
    !flags.filters_platforms() || match edge.platform {
        None => true,
        Some(p) => p.admits(target),
    }
}

/// Whether the edge counts for the resolution: always when platforms are
/// not filtered or the edge is unrestricted, otherwise when its restriction
/// admits one of the evaluated targets.
pub open spec fn edge_active(config: &ResolverConfig, edge: &DependencyEdge) -> bool {
    !config.flags.filters_platforms() || match edge.platform {
        None => true,
        Some(p) => exists|t: int|
            0 <= t < config.targets@.len() && p.admits(&#[trigger] config.targets@[t]),
    }
}

/// The platform filter for one evaluation target.
pub fn is_active(flags: &ResolverBehaviorFlags, edge: &DependencyEdge, target: &TargetInfo) -> (r:
    bool)
    ensures
        r == edge_active_for(*flags, edge, target),
{
    if !flags.platforms_filtered() {
        return true;
    }
    match &edge.platform {
        None => true,
        Some(p) => p.matches(target),
    }
}

/// The platform filter for a resolution: the edge is kept unless it can
/// be active for none of the evaluated targets.
pub fn is_active_anywhere(config: &ResolverConfig, edge: &DependencyEdge) -> (r: bool)
    ensures
        r == edge_active(config, edge),
{
    if !config.flags.platforms_filtered() {
        return true;
    }
    match &edge.platform {
        None => true,
        Some(p) => {
            let mut t: usize = 0;
            while t < config.targets.len()
                invariant
                    t <= config.targets.len(),
                    edge.platform == Some(*p),
                    config.flags.filters_platforms(),
                    forall|j: int| 0 <= j < t ==> !p.admits(&#[trigger] config.targets@[j]),
                decreases config.targets.len() - t,
            {
                if p.matches(&config.targets[t]) {
                    assert(p.admits(&config.targets@[t as int]));
                    return true;
                }
                t += 1;
            }
            false
        },
    }
}

/// Whether development edges of a package are followed: in every build
/// that includes tests; and, as long as development dependencies are not
/// decoupled, also when `run` or `build` is pointed at the package itself.
pub open spec fn dev_followed(config: &ResolverConfig, from_root: bool) -> bool {
    config.invocation.includes_tests() || (!config.flags.decouples_dev() && from_root
        && config.invocation.builds_directly())
}

pub fn follows_dev(config: &ResolverConfig, from_root: bool) -> (r: bool)
    ensures
        r == dev_followed(config, from_root),
{
    if config.invocation.with_tests() {
        return true;
    }
    if config.flags.dev_decoupled() || !from_root {
        return false;
    }
    match config.invocation.command {
        Command::Run => true,
        Command::Build => true,
        _ => false,
    }
}

/// Whether an edge takes part in a resolution: it passes the platform
/// filter and, if it is a development edge, development edges of its
/// package are followed.
pub fn takes_part(config: &ResolverConfig, edge: &DependencyEdge, from_root: bool) -> (r: bool)
    ensures
        r == (edge_active(config, edge) && (edge.kind == DepKind::Dev ==> dev_followed(
            config,
            from_root,
        ))),
{
    if !is_active_anywhere(config, edge) {
        return false;
    }
    match edge.kind {
        DepKind::Dev => follows_dev(config, from_root),
        _ => true,
    }
}

/// The compilation kind as it enters a unit key: kept when host and
/// target are decoupled, `Target` otherwise.
pub open spec fn key_kind(flags: ResolverBehaviorFlags, kind: CompilationKind) -> CompilationKind {
    if flags.decouples_host() {
        kind
    } else {
        CompilationKind::Target
    }
}

/// The test inclusion as it enters a unit key: kept when development
/// dependencies are decoupled, `Normal` otherwise.
pub open spec fn key_tests(flags: ResolverBehaviorFlags, tests: TestInclusion) -> TestInclusion {
    if flags.decouples_dev() {
        tests
    } else {
        TestInclusion::Normal
    }
}

/// The unit of a root package: compiled for the target, with tests if the
/// invocation includes them.
pub open spec fn root_unit_of(config: &ResolverConfig, package: usize) -> Unit {
    Unit {
        package,
        kind: CompilationKind::Target,
        tests: key_tests(
            config.flags,
            if config.invocation.includes_tests() {
                TestInclusion::IncludesTests
            } else {
                TestInclusion::Normal
            },
        ),
    }
}

/// The unit that `edge` leads to from `source`. A build edge and an edge
/// to a procedural macro lead to the host, and so does every edge that
/// starts there; a development edge leads to a build with tests, and so
/// does every edge that starts in one. The flags then decide which of the
/// two dimensions remain in the key.
pub open spec fn child_unit_of(
    flags: ResolverBehaviorFlags,
    source: Unit,
    edge: &DependencyEdge,
) -> Unit {
    Unit {
        package: edge.target,
        kind: key_kind(
            flags,
            if edge.kind == DepKind::Build || edge.proc_macro || source.kind
                == CompilationKind::Host {
                CompilationKind::Host
            } else {
                CompilationKind::Target
            },
        ),
        tests: key_tests(
            flags,
            if edge.kind == DepKind::Dev || source.tests == TestInclusion::IncludesTests {
                TestInclusion::IncludesTests
            } else {
                TestInclusion::Normal
            },
        ),
    }
}

/// The position of a unit among all units, four to a package.
pub open spec fn slot_index(unit: Unit) -> int {
    4 * unit.package + (if unit.kind == CompilationKind::Host {
        2int
    } else {
        0int
    }) + (if unit.tests == TestInclusion::IncludesTests {
        1int
    } else {
        0int
    })
}

/// The unit at a position.
pub open spec fn unit_at(slot: int) -> Unit {
    Unit {
        package: (slot / 4) as usize,
        kind: if slot % 4 >= 2 {
            CompilationKind::Host
        } else {
            CompilationKind::Target
        },
        tests: if slot % 2 == 1 {
            TestInclusion::IncludesTests
        } else {
            TestInclusion::Normal
        },
    }
}

pub proof fn lemma_unit_at_slot(unit: Unit)
    ensures
        unit_at(slot_index(unit)) == unit,
        4 * unit.package <= slot_index(unit) < 4 * unit.package + 4,
{
}

/// Whether a unit is one that the flags can produce.
pub open spec fn unit_in_key_space(flags: ResolverBehaviorFlags, unit: Unit) -> bool {
    unit.kind == key_kind(flags, unit.kind) && unit.tests == key_tests(flags, unit.tests)
}

pub fn root_unit(config: &ResolverConfig, package: usize) -> (u: Unit)
    ensures
        u == root_unit_of(config, package),
        unit_in_key_space(config.flags, u),
{
    let tests = if config.flags.dev_decoupled() && config.invocation.with_tests() {
        TestInclusion::IncludesTests
    } else {
        TestInclusion::Normal
    };
    Unit { package, kind: CompilationKind::Target, tests }
}

/// The classifier: the unit at the far end of `edge`, seen from `source`.
pub fn child_unit(flags: &ResolverBehaviorFlags, source: Unit, edge: &DependencyEdge) -> (u: Unit)
    ensures
        u == child_unit_of(*flags, source, edge),
        unit_in_key_space(*flags, u),
{
    let on_host = match edge.kind {
        DepKind::Build => true,
        _ => edge.proc_macro || match source.kind {
            CompilationKind::Host => true,
            CompilationKind::Target => false,
        },
    };
    let in_tests = match edge.kind {
        DepKind::Dev => true,
        _ => match source.tests {
            TestInclusion::IncludesTests => true,
            TestInclusion::Normal => false,
        },
    };
    let kind = if flags.host_decoupled() && on_host {
        CompilationKind::Host
    } else {
        CompilationKind::Target
    };
    let tests = if flags.dev_decoupled() && in_tests {
        TestInclusion::IncludesTests
    } else {
        TestInclusion::Normal
    };
    Unit { package: edge.target, kind, tests }
}

} // verus!

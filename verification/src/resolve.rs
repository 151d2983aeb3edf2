//! A whole resolution: the root requests are checked, expanded, and
//! propagated through the graph.

use crate::activation::deltas_of;
use crate::activation::ActivationTable;
use crate::activation::WorkItem;
use crate::context::root_unit;
use crate::context::ResolverConfig;
use crate::engine::propagate;
use crate::expand::expand;
use crate::expand::lemma_closure_holds_start;
use crate::graph::PackageGraph;
use crate::graph::RootRequest;
use crate::request::requests_of;
use crate::request::FeatureRequest;
use crate::request::Request;
use crate::rules::activation;
use crate::rules::brought;
use crate::rules::closed;
use crate::rules::derivable;
use crate::rules::feature_map;
use crate::rules::least_closed;
use crate::rules::lemma_closure_derivable;
use crate::rules::problem_of;
use crate::rules::Atom;
use crate::rules::Problem;
use vstd::prelude::*;

verus! {

/// What can be wrong with a root request.
#[derive(Clone, Copy, Debug, PartialEq, Eq, Structural)]
pub enum ConfigFault {
    /// The request names a package that the graph does not hold.
    UnknownPackage,
    /// Every feature is asked for, and the default feature is declined.
    ConflictingFlags,
    /// The request at `position` names a feature that cannot be switched
    /// on: the package has no such feature or dependency, or the
    /// dependency has no such feature.
    UnknownFeature { position: usize },
}

/// A configuration error: the first root request that is at fault, and
/// what is wrong with it.
#[derive(Clone, Copy, Debug, PartialEq, Eq, Structural)]
pub struct ConfigError {
    pub root: usize,
    pub fault: ConfigFault,
}

/// Whether a request can be made of the package at position `pk`. A
/// plain request must name a declared feature or an optional dependency.
/// A request on a dependency must name a dependency of the package, and a
/// feature that every package of that name knows.
pub open spec fn request_known(graph: &PackageGraph, pk: int, r: Request) -> bool {
    let package = graph.packages@[pk];
    match r {
        Request::Plain(f) => package.knows(f),
        Request::Strong(d, f) => package.has_dep(d) && dep_feature_known(graph, pk, d, f),
        Request::Weak(d, f) => package.has_dep(d) && dep_feature_known(graph, pk, d, f),
    }
}

/// Whether every dependency called `d` of the package at `pk` knows the
/// name `f`.
pub open spec fn dep_feature_known(graph: &PackageGraph, pk: int, d: Seq<char>, f: Seq<char>) -> bool {
    forall|e: int|
        0 <= e < graph.packages@[pk].deps@.len() && (#[trigger] graph.packages@[pk].deps@[e]).name@
            == d ==> graph.packages@[graph.packages@[pk].deps@[e].target as int].knows(f)
}

/// Whether nothing is wrong with a root request.
pub open spec fn root_valid(graph: &PackageGraph, root: &RootRequest) -> bool {
    &&& root.package < graph.packages@.len()
    &&& !(root.all_features && !root.default_features)
    &&& forall|j: int|
        0 <= j < root.features@.len() ==> request_known(
            graph,
            root.package as int,
            (#[trigger] root.features@[j])@,
        )
}

/// Whether `fault` is the first thing wrong with a root request: the
/// package is looked at first, then the flags, then the requests in
/// order.
pub open spec fn fault_fits(graph: &PackageGraph, root: &RootRequest, fault: ConfigFault) -> bool {
    match fault {
        ConfigFault::UnknownPackage => root.package >= graph.packages@.len(),
        ConfigFault::ConflictingFlags => root.package < graph.packages@.len() && root.all_features
            && !root.default_features,
        ConfigFault::UnknownFeature { position } => {
            &&& root.package < graph.packages@.len()
            &&& !(root.all_features && !root.default_features)
            &&& position < root.features@.len()
            &&& !request_known(graph, root.package as int, root.features@[position as int]@)
            &&& forall|j: int|
                0 <= j < position ==> request_known(
                    graph,
                    root.package as int,
                    (#[trigger] root.features@[j])@,
                )
        },
    }
}

fn dep_knows(graph: &PackageGraph, pk: usize, dep: &String, feature: &String) -> (r: bool)
    requires
        graph.wf(),
        pk < graph.packages@.len(),
    ensures
        r == (graph.packages@[pk as int].has_dep(dep@) && dep_feature_known(
            graph,
            pk as int,
            dep@,
            feature@,
        )),
{
    let package = &graph.packages[pk];
    let mut found = false;
    let mut e: usize = 0;
    while e < package.deps.len()
        invariant
            e <= package.deps.len(),
            graph.wf(),
            pk < graph.packages@.len(),
            package == &graph.packages@[pk as int],
            found == exists|k: int| 0 <= k < e && (#[trigger] package.deps@[k]).name@ == dep@,
            forall|k: int|
                0 <= k < e && (#[trigger] graph.packages@[pk as int].deps@[k]).name@ == dep@
                    ==> graph.packages@[graph.packages@[pk as int].deps@[k].target as int].knows(
                    feature@,
                ),
        decreases package.deps.len() - e,
    {
        if package.deps[e].name == *dep {
            let target = package.deps[e].target;
            assert(graph.packages@[pk as int].deps@[e as int].target < graph.packages@.len());
            if !graph.packages[target].knows_name(feature) {
                return false;
            }
            found = true;
        }
        e += 1;
    }
    found
}

/// Whether the request can be made of the package at position `pk`.
pub fn knows_request(graph: &PackageGraph, pk: usize, request: &FeatureRequest) -> (r: bool)
    requires
        graph.wf(),
        pk < graph.packages@.len(),
    ensures
        r == request_known(graph, pk as int, request@),
{
    match request {
        FeatureRequest::Plain { feature } => graph.packages[pk].knows_name(feature),
        FeatureRequest::Strong { dep, feature } => dep_knows(graph, pk, dep, feature),
        FeatureRequest::Weak { dep, feature } => dep_knows(graph, pk, dep, feature),
    }
}

/// Checks one root request.
pub fn check_root(graph: &PackageGraph, root: &RootRequest) -> (r: Option<ConfigFault>)
    requires
        graph.wf(),
    ensures
        match r {
            None => root_valid(graph, root),
            Some(fault) => fault_fits(graph, root, fault),
        },
{
    if root.package >= graph.packages.len() {
        return Some(ConfigFault::UnknownPackage);
    }
    if root.all_features && !root.default_features {
        return Some(ConfigFault::ConflictingFlags);
    }
    let mut j: usize = 0;
    while j < root.features.len()
        invariant
            j <= root.features.len(),
            graph.wf(),
            root.package < graph.packages@.len(),
            !(root.all_features && !root.default_features),
            forall|k: int|
                0 <= k < j ==> request_known(
                    graph,
                    root.package as int,
                    (#[trigger] root.features@[k])@,
                ),
        decreases root.features.len() - j,
    {
        if !knows_request(graph, root.package, &root.features[j]) {
            return Some(ConfigFault::UnknownFeature { position: j });
        }
        j += 1;
    }
    None
}

/// Checks the root requests in order and reports the first that is at
/// fault.
pub fn check_roots(graph: &PackageGraph, roots: &Vec<RootRequest>) -> (r: Option<ConfigError>)
    requires
        graph.wf(),
    ensures
        match r {
            None => forall|i: int| 0 <= i < roots@.len() ==> root_valid(graph, #[trigger] &roots@[i]),
            Some(err) => err.root < roots@.len() && fault_fits(
                graph,
                &roots@[err.root as int],
                err.fault,
            ) && forall|i: int| 0 <= i < err.root ==> root_valid(graph, #[trigger] &roots@[i]),
        },
{
    let mut i: usize = 0;
    while i < roots.len()
        invariant
            i <= roots.len(),
            graph.wf(),
            forall|k: int| 0 <= k < i ==> root_valid(graph, #[trigger] &roots@[k]),
        decreases roots.len() - i,
    {
        match check_root(graph, &roots[i]) {
            Some(fault) => {
                return Some(ConfigError { root: i, fault });
            },
            None => {},
        }
        i += 1;
    }
    None
}

/// Two bases of which each lies in the least table over the other have
/// the same least table.
pub proof fn lemma_same_least(p: Problem, a: Set<Atom>, b: Set<Atom>)
    requires
        a.subset_of(least_closed(p, b)),
        b.subset_of(least_closed(p, a)),
    ensures
        least_closed(p, a) == least_closed(p, b),
{
    assert forall|x: Atom| least_closed(p, a).contains(x) <==> least_closed(p, b).contains(x) by {
        if derivable(p, a, x) {
            assert forall|c: Set<Atom>| b.subset_of(c) && closed(p, c) implies #[trigger] c.contains(
                x,
            ) by {
                assert forall|y: Atom| a.contains(y) implies c.contains(y) by {
                    assert(derivable(p, b, y));
                }
            }
        }
        if derivable(p, b, x) {
            assert forall|c: Set<Atom>| a.subset_of(c) && closed(p, c) implies #[trigger] c.contains(
                x,
            ) by {
                assert forall|y: Atom| b.contains(y) implies c.contains(y) by {
                    assert(derivable(p, a, y));
                }
            }
        }
    }
    assert(least_closed(p, a) =~= least_closed(p, b));
}

/// Resolves the features of a graph. The root requests are checked
/// first; if one is at fault nothing is resolved and the first fault is
/// reported. Otherwise the result is the activation of the problem: the
/// least table that holds the root requests and obeys the rules.
pub fn resolve(graph: &PackageGraph, config: &ResolverConfig, roots: &Vec<RootRequest>) -> (r:
    Result<ActivationTable, ConfigError>)
    requires
        graph.wf(),
    ensures
        match r {
            Ok(table) => {
                &&& forall|i: int| 0 <= i < roots@.len() ==> root_valid(graph, #[trigger] &roots@[i])
                &&& table.wf()
                &&& table.size() == graph.packages@.len()
                &&& table.settled_for(problem_of(graph, config, roots))
                &&& table.atoms() == activation(problem_of(graph, config, roots))
                &&& table@ == feature_map(activation(problem_of(graph, config, roots)))
            },
            Err(err) => {
                &&& err.root < roots@.len()
                &&& fault_fits(graph, &roots@[err.root as int], err.fault)
                &&& forall|i: int| 0 <= i < err.root ==> root_valid(graph, #[trigger] &roots@[i])
            },
        },
{
    match check_roots(graph, roots) {
        Some(err) => {
            return Err(err);
        },
        None => {},
    }
    let ghost p = problem_of(graph, config, roots);
    assert(p.wf());
    let mut deltas: Vec<WorkItem> = Vec::new();
    let mut i: usize = 0;
    while i < roots.len()
        invariant
            i <= roots.len(),
            p == problem_of(graph, config, roots),
            p.wf(),
            deltas@.len() == i,
            forall|k: int|
                0 <= k < i ==> (#[trigger] deltas@[k]).unit == p.root_unit(k) && requests_of(
                    deltas@[k].delta@,
                ).to_set() == crate::expand::closure(
                    &p.graph.packages@[p.roots[k].package as int].table,
                    p.root_start(k),
                ),
        decreases roots.len() - i,
    {
        let root = &roots[i];
        let unit = root_unit(config, root.package);
        let delta = expand(
            &graph.packages[root.package],
            &root.features,
            root.default_features,
            root.all_features,
        );
        deltas.push(WorkItem { unit, delta });
        i += 1;
    }
    let table = ActivationTable::empty(graph);
    let out = propagate(graph, config, roots, table, &deltas);
    proof {
        let given = brought(deltas_of(deltas@));
        let dv = deltas_of(deltas@);
        assert(table.atoms().union(given) =~= given);
        assert(p.seeds().subset_of(least_closed(p, given))) by {
            assert forall|x: Atom| p.seeds().contains(x) implies given.contains(x) by {
                let k = choose|k: int| 0 <= k < p.roots.len() && #[trigger] p.seeded_by(k, x);
                assert(dv[k] == deltas@[k]@);
                match x {
                    Atom::Present(u) => {},
                    Atom::Active(u, r) => {
                        lemma_closure_holds_start(
                            &p.graph.packages@[p.roots[k].package as int].table,
                            p.root_start(k),
                            r,
                        );
                        assert(requests_of(deltas@[k].delta@).to_set().contains(r));
                    },
                }
                assert(dv[k].holds(x));
            }
        }
        assert(given.subset_of(least_closed(p, p.seeds()))) by {
            assert forall|x: Atom| given.contains(x) implies derivable(p, p.seeds(), x) by {
                let k = choose|k: int| 0 <= k < dv.len() && (#[trigger] dv[k]).holds(x);
                assert(dv[k] == deltas@[k]@);
                let u = p.root_unit(k);
                assert(p.seeded_by(k, Atom::Present(u)));
                assert(p.seeds().contains(Atom::Present(u)));
                match x {
                    Atom::Present(_) => {},
                    Atom::Active(_, r) => {
                        assert forall|q: Request| p.root_start(k).contains(q) implies derivable(
                            p,
                            p.seeds(),
                            Atom::Active(u, q),
                        ) by {
                            assert(p.seeded_by(k, Atom::Active(u, q)));
                            assert(p.seeds().contains(Atom::Active(u, q)));
                        }
                        lemma_closure_derivable(p, p.seeds(), u, p.root_start(k));
                        assert(requests_of(deltas@[k].delta@).to_set().contains(r));
                    },
                }
            }
        }
        lemma_same_least(p, given, p.seeds());
    }
    Ok(out)
}

} // verus!

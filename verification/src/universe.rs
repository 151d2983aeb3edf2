//! The finite universe in which a propagation moves: every request that
//! can come up, and every atom that can be made of them. It bounds the
//! number of steps.

use crate::context::unit_at;
use crate::context::Unit;
use crate::context::lemma_unit_at_slot;
use crate::context::slot_index;
use crate::expand::closure;
use crate::expand::default_feature;
use crate::expand::implied_all;
use crate::expand::lemma_closure_least;
use crate::expand::lemma_implied_upto_contains;
use crate::expand::table_closed;
use crate::graph::Package;
use crate::graph::PackageGraph;
use crate::request::requests_of;
use crate::request::Request;
use crate::rules::Atom;
use crate::rules::Problem;
use vstd::prelude::*;

verus! {

/// The first `n` parts, one after the other.
pub open spec fn joined<A>(parts: Seq<Seq<A>>, n: int) -> Seq<A>
    decreases n,
{
    if n <= 0 {
        Seq::empty()
    } else {
        joined(parts, n - 1) + parts[n - 1]
    }
}

pub proof fn lemma_concat_contains<A>(a: Seq<A>, b: Seq<A>, x: A)
    requires
        a.contains(x) || b.contains(x),
    ensures
        (a + b).contains(x),
{
    if a.contains(x) {
        let i = choose|i: int| 0 <= i < a.len() && a[i] == x;
        assert((a + b)[i] == x);
    } else {
        let i = choose|i: int| 0 <= i < b.len() && b[i] == x;
        assert((a + b)[a.len() + i] == x);
    }
}

pub proof fn lemma_joined_contains<A>(parts: Seq<Seq<A>>, n: int, i: int, j: int)
    requires
        0 <= i < n <= parts.len(),
        0 <= j < parts[i].len(),
    ensures
        joined(parts, n).contains(parts[i][j]),
    decreases n,
{
    if i == n - 1 {
        assert(parts[n - 1].contains(parts[i][j]));
    } else {
        lemma_joined_contains(parts, n - 1, i, j);
    }
    lemma_concat_contains(joined(parts, n - 1), parts[n - 1], parts[i][j]);
}

/// The requests that the edges of a package carry.
pub open spec fn asked_by_edges(package: &Package) -> Seq<Request> {
    joined(
        Seq::new(package.deps@.len(), |e: int| requests_of(package.deps@[e].features@)),
        package.deps@.len() as int,
    )
}

/// Plain requests for the declared features of a package.
pub open spec fn declared_names(package: &Package) -> Seq<Request> {
    Seq::new(
        package.table.entries@.len(),
        |i: int| Request::Plain(package.table.entries@[i].name@),
    )
}

/// Plain requests for the dependencies of a package.
pub open spec fn dependency_names(package: &Package) -> Seq<Request> {
    Seq::new(package.deps@.len(), |e: int| Request::Plain(package.deps@[e].name@))
}

/// Every request that a package mentions.
pub open spec fn package_requests(package: &Package) -> Seq<Request> {
    implied_all(&package.table) + asked_by_edges(package) + declared_names(package)
        + dependency_names(package)
}

/// Every request that a graph mentions.
pub open spec fn graph_requests(graph: &PackageGraph) -> Seq<Request> {
    joined(
        Seq::new(graph.packages@.len(), |pk: int| package_requests(&graph.packages@[pk])),
        graph.packages@.len() as int,
    )
}

/// The plain request for the feature that a request names.
pub open spec fn plain_part(r: Request) -> Request {
    Request::Plain(r.feature())
}

/// Every request that can come up in a propagation over `graph` that
/// starts from the requests `init`.
pub open spec fn request_universe(graph: &PackageGraph, init: Seq<Request>) -> Seq<Request> {
    let b = init + graph_requests(graph) + seq![Request::Plain(default_feature())];
    b + b.map_values(|r: Request| plain_part(r))
}

/// Whether `g` holds every request that the graph mentions, `default`,
/// and with each request the plain request for its feature.
pub open spec fn covers(p: Problem, g: Seq<Request>) -> bool {
    &&& forall|pk: int, i: int, j: int|
        0 <= pk < p.size() && 0 <= i < p.graph.packages@[pk].table.entries@.len() && 0 <= j
            < p.graph.packages@[pk].table.entries@[i].implies@.len() ==> g.contains(
            (#[trigger] p.graph.packages@[pk].table.entries@[i].implies@[j])@,
        )
    &&& forall|pk: int, e: int, j: int|
        0 <= pk < p.size() && 0 <= e < p.graph.packages@[pk].deps@.len() && 0 <= j
            < p.graph.packages@[pk].deps@[e].features@.len() ==> g.contains(
            (#[trigger] p.graph.packages@[pk].deps@[e].features@[j])@,
        )
    &&& g.contains(Request::Plain(default_feature()))
    &&& forall|r: Request| #[trigger] g.contains(r) ==> g.contains(plain_part(r))
    &&& forall|pk: int, i: int|
        0 <= pk < p.size() && 0 <= i < p.graph.packages@[pk].table.entries@.len() ==> g.contains(
            Request::Plain((#[trigger] p.graph.packages@[pk].table.entries@[i]).name@),
        )
    &&& forall|pk: int, e: int|
        0 <= pk < p.size() && 0 <= e < p.graph.packages@[pk].deps@.len() ==> g.contains(
            Request::Plain((#[trigger] p.graph.packages@[pk].deps@[e]).name@),
        )
}

proof fn lemma_in_package_requests(package: &Package, x: Request)
    requires
        implied_all(&package.table).contains(x) || asked_by_edges(package).contains(x)
            || declared_names(package).contains(x) || dependency_names(package).contains(x),
    ensures
        package_requests(package).contains(x),
{
    let a = implied_all(&package.table);
    let b = asked_by_edges(package);
    let c = declared_names(package);
    let d = dependency_names(package);
    if a.contains(x) || b.contains(x) {
        lemma_concat_contains(a, b, x);
        lemma_concat_contains(a + b, c, x);
    } else if c.contains(x) {
        lemma_concat_contains(a + b, c, x);
    }
    lemma_concat_contains(a + b + c, d, x);
}

proof fn lemma_in_universe(graph: &PackageGraph, init: Seq<Request>, x: Request)
    requires
        init.contains(x) || graph_requests(graph).contains(x) || x == Request::Plain(
            default_feature(),
        ),
    ensures
        request_universe(graph, init).contains(x),
        request_universe(graph, init).contains(plain_part(x)),
{
    let last = seq![Request::Plain(default_feature())];
    let b = init + graph_requests(graph) + last;
    assert(last[0] == Request::Plain(default_feature()));
    if init.contains(x) || graph_requests(graph).contains(x) {
        lemma_concat_contains(init, graph_requests(graph), x);
    }
    lemma_concat_contains(init + graph_requests(graph), last, x);
    let k = choose|k: int| 0 <= k < b.len() && b[k] == x;
    let m = b.map_values(|r: Request| plain_part(r));
    assert(m[k] == plain_part(x));
    lemma_concat_contains(b, m, x);
    lemma_concat_contains(b, m, plain_part(x));
}

proof fn lemma_in_graph_requests(graph: &PackageGraph, pk: int, x: Request)
    requires
        0 <= pk < graph.packages@.len(),
        package_requests(&graph.packages@[pk]).contains(x),
    ensures
        graph_requests(graph).contains(x),
{
    let parts = Seq::new(
        graph.packages@.len(),
        |pk: int| package_requests(&graph.packages@[pk]),
    );
    let j = choose|j: int| 0 <= j < parts[pk].len() && parts[pk][j] == x;
    lemma_joined_contains(parts, graph.packages@.len() as int, pk, j);
}

/// The universe covers the graph and holds what it was started from.
pub proof fn lemma_universe_covers(p: Problem, init: Seq<Request>)
    ensures
        covers(p, request_universe(&p.graph, init)),
        forall|r: Request| init.contains(r) ==> #[trigger] request_universe(&p.graph, init).contains(r),
{
    let graph = &p.graph;
    let g = request_universe(graph, init);
    assert forall|pk: int, i: int, j: int|
        0 <= pk < p.size() && 0 <= i < p.graph.packages@[pk].table.entries@.len() && 0 <= j
            < p.graph.packages@[pk].table.entries@[i].implies@.len() implies g.contains(
        (#[trigger] p.graph.packages@[pk].table.entries@[i].implies@[j])@,
    ) by {
        let package = &graph.packages@[pk];
        let x = package.table.entries@[i].implies@[j]@;
        lemma_implied_upto_contains(&package.table, package.table.entries@.len() as int, i, j);
        lemma_in_package_requests(package, x);
        lemma_in_graph_requests(graph, pk, x);
        lemma_in_universe(graph, init, x);
    }
    assert forall|pk: int, e: int, j: int|
        0 <= pk < p.size() && 0 <= e < p.graph.packages@[pk].deps@.len() && 0 <= j
            < p.graph.packages@[pk].deps@[e].features@.len() implies g.contains(
        (#[trigger] p.graph.packages@[pk].deps@[e].features@[j])@,
    ) by {
        let package = &graph.packages@[pk];
        let x = package.deps@[e].features@[j]@;
        let parts = Seq::new(
            package.deps@.len(),
            |e: int| requests_of(package.deps@[e].features@),
        );
        assert(parts[e][j] == x);
        lemma_joined_contains(parts, package.deps@.len() as int, e, j);
        lemma_in_package_requests(package, x);
        lemma_in_graph_requests(graph, pk, x);
        lemma_in_universe(graph, init, x);
    }
    assert(g.contains(Request::Plain(default_feature()))) by {
        lemma_in_universe(graph, init, Request::Plain(default_feature()));
    }
    assert forall|r: Request| #[trigger] g.contains(r) implies g.contains(plain_part(r)) by {
        let b = init + graph_requests(graph) + seq![Request::Plain(default_feature())];
        let m = b.map_values(|r: Request| plain_part(r));
        let k = choose|k: int| 0 <= k < g.len() && g[k] == r;
        if k < b.len() {
            assert(b[k] == r);
            assert(m[k] == plain_part(r));
            lemma_concat_contains(b, m, plain_part(r));
        } else {
            assert(m[k - b.len()] == r);
            assert(plain_part(r) == r);
        }
    }
    assert forall|pk: int, i: int|
        0 <= pk < p.size() && 0 <= i < p.graph.packages@[pk].table.entries@.len() implies g.contains(
        Request::Plain((#[trigger] p.graph.packages@[pk].table.entries@[i]).name@),
    ) by {
        let package = &graph.packages@[pk];
        let x = Request::Plain(package.table.entries@[i].name@);
        assert(declared_names(package)[i] == x);
        lemma_in_package_requests(package, x);
        lemma_in_graph_requests(graph, pk, x);
        lemma_in_universe(graph, init, x);
    }
    assert forall|pk: int, e: int|
        0 <= pk < p.size() && 0 <= e < p.graph.packages@[pk].deps@.len() implies g.contains(
        Request::Plain((#[trigger] p.graph.packages@[pk].deps@[e]).name@),
    ) by {
        let package = &graph.packages@[pk];
        let x = Request::Plain(package.deps@[e].name@);
        assert(dependency_names(package)[e] == x);
        lemma_in_package_requests(package, x);
        lemma_in_graph_requests(graph, pk, x);
        lemma_in_universe(graph, init, x);
    }
    assert forall|r: Request| init.contains(r) implies #[trigger] g.contains(r) by {
        lemma_in_universe(graph, init, r);
    }
}

/// A universe that covers the graph holds the closure of whatever it
/// holds, under the feature table of any package of the graph.
pub proof fn lemma_closure_in_universe(p: Problem, g: Seq<Request>, pk: int, start: Set<Request>)
    requires
        covers(p, g),
        0 <= pk < p.size(),
        forall|r: Request| start.contains(r) ==> g.contains(r),
    ensures
        forall|r: Request|
            closure(&p.graph.packages@[pk].table, start).contains(r) ==> g.contains(r),
{
    let table = &p.graph.packages@[pk].table;
    let gs = g.to_set();
    assert(table_closed(table, gs)) by {
        assert forall|i: int, j: int|
            0 <= i < table.entries@.len() && 0 <= j < table.entries@[i].implies@.len()
                && gs.contains(Request::Plain(table.entries@[i].name@)) implies gs.contains(
            (#[trigger] table.entries@[i].implies@[j])@,
        ) by {
            assert(g.contains(p.graph.packages@[pk].table.entries@[i].implies@[j]@));
        }
    }
    assert(start.subset_of(gs));
    lemma_closure_least(table, start, gs);
    assert forall|r: Request| closure(table, start).contains(r) implies g.contains(r) by {
        assert(gs.contains(r));
    }
}

/// The atoms that can be made of the first `k` units and the requests
/// of `g`.
pub open spec fn atoms_upto(g: Seq<Request>, k: int) -> Set<Atom>
    decreases k,
{
    if k <= 0 {
        Set::empty()
    } else {
        atoms_upto(g, k - 1).union(
            g.map_values(|r: Request| Atom::Active(unit_at(k - 1), r)).to_set(),
        ).insert(Atom::Present(unit_at(k - 1)))
    }
}

pub proof fn lemma_atoms_upto_finite(g: Seq<Request>, k: int)
    ensures
        atoms_upto(g, k).finite(),
    decreases k,
{
    if k > 0 {
        lemma_atoms_upto_finite(g, k - 1);
    }
}

pub proof fn lemma_atoms_upto_contains(g: Seq<Request>, k: int, x: Atom)
    requires
        match x {
            Atom::Present(u) => slot_index(u) < k,
            Atom::Active(u, r) => slot_index(u) < k && g.contains(r),
        },
    ensures
        atoms_upto(g, k).contains(x),
    decreases k,
{
    let u = match x {
        Atom::Present(u) => u,
        Atom::Active(u, _) => u,
    };
    lemma_unit_at_slot(u);
    if slot_index(u) == k - 1 {
        match x {
            Atom::Present(_) => {},
            Atom::Active(_, r) => {
                let m = g.map_values(|r: Request| Atom::Active(unit_at(k - 1), r));
                let i = choose|i: int| 0 <= i < g.len() && g[i] == r;
                assert(m[i] == x);
                assert(m.to_set().contains(x));
            },
        }
    } else {
        lemma_atoms_upto_contains(g, k - 1, x);
    }
}

/// Whether the requests of all the atoms belong to `g`.
pub open spec fn bounded(g: Seq<Request>, all: Set<Atom>) -> bool {
    forall|u: Unit, r: Request| #[trigger] all.contains(Atom::Active(u, r)) ==> g.contains(r)
}

} // verus!

//! What a resolution is: the rules by which activations follow from one
//! another, and the least table that obeys them.
//!
//! A table is described by its atoms: which units are present, and which
//! requests are in force in which unit. The rules are positive, so among
//! the tables that hold the root requests and obey the rules there is a
//! least one. That table is the result of a resolution.

use crate::context::child_unit_of;
use crate::context::dev_followed;
use crate::context::edge_active;
use crate::context::root_unit_of;
use crate::context::ResolverConfig;
use crate::context::Unit;
use crate::expand::closure;
use crate::expand::default_feature;
use crate::expand::lemma_closure_least;
use crate::expand::start_requests;
use crate::expand::table_closed;
use crate::graph::DepKind;
use crate::graph::DependencyEdge;
use crate::graph::Package;
use crate::graph::PackageGraph;
use crate::graph::is_requested;
use crate::graph::RootRequest;
use crate::request::requests_of;
use crate::request::Request;
use vstd::prelude::*;

verus! {

/// The input of a resolution. The graph, the configuration and the root
/// requests are plain data; the rules read them as they are, and names
/// through their views.
pub struct Problem {
    pub graph: PackageGraph,
    pub config: ResolverConfig,
    pub roots: Seq<RootRequest>,
}

/// The input of a resolution, put together from its parts.
pub open spec fn problem_of(
    graph: &PackageGraph,
    config: &ResolverConfig,
    roots: &Vec<RootRequest>,
) -> Problem {
    Problem { graph: *graph, config: *config, roots: roots@ }
}

/// One fact of an activation table.
pub enum Atom {
    /// The unit is built.
    Present(Unit),
    /// The request is in force in the unit. For a plain request this means
    /// that the feature is active there.
    Active(Unit, Request),
}

/// A unit together with requests that reach it.
pub struct Delta {
    pub unit: Unit,
    pub requests: Seq<Request>,
}

impl Delta {
    /// Whether the delta brings the atom: the presence of its unit, or one
    /// of its requests there.
    pub open spec fn holds(self, x: Atom) -> bool {
        match x {
            Atom::Present(u) => u == self.unit,
            Atom::Active(u, r) => u == self.unit && self.requests.contains(r),
        }
    }
}

/// The atoms that the deltas bring.
pub open spec fn brought(deltas: Seq<Delta>) -> Set<Atom> {
    Set::new(|x: Atom| exists|i: int| 0 <= i < deltas.len() && (#[trigger] deltas[i]).holds(x))
}

impl Problem {
    /// The graph is well formed and every root is a package of it.
    pub open spec fn wf(self) -> bool {
        &&& self.graph.wf()
        &&& forall|i: int|
            0 <= i < self.roots.len() ==> (#[trigger] self.roots[i]).package
                < self.graph.packages@.len()
    }

    pub open spec fn size(self) -> int {
        self.graph.packages@.len() as int
    }

    /// The package of a unit.
    pub open spec fn package(self, u: Unit) -> Package {
        self.graph.packages@[u.package as int]
    }

    /// The `e`-th dependency edge of a unit's package.
    pub open spec fn edge(self, u: Unit, e: int) -> DependencyEdge {
        self.package(u).deps@[e]
    }

    /// Whether features were requested of the package directly.
    pub open spec fn is_root(self, package: usize) -> bool {
        is_requested(self.roots, package)
    }

    /// Whether the `e`-th edge of the unit's package takes part in the
    /// resolution: it passes the platform filter and, if it is a
    /// development edge, development edges of the package are followed.
    pub open spec fn traversed(self, u: Unit, e: int) -> bool {
        &&& 0 <= e < self.package(u).deps@.len()
        &&& edge_active(&self.config, &self.edge(u, e))
        &&& (self.edge(u, e).kind == DepKind::Dev ==> dev_followed(
            &self.config,
            self.is_root(u.package),
        ))
    }

    /// The unit at the far end of the `e`-th edge of `u`.
    pub open spec fn child(self, u: Unit, e: int) -> Unit {
        child_unit_of(self.config.flags, u, &self.edge(u, e))
    }

    /// The unit of a root package.
    pub open spec fn root_unit(self, i: int) -> Unit {
        root_unit_of(&self.config, self.roots[i].package)
    }

    /// What the `i`-th root request starts from.
    pub open spec fn root_start(self, i: int) -> Set<Request> {
        start_requests(
            &self.graph.packages@[self.roots[i].package as int],
            requests_of(self.roots[i].features@),
            self.roots[i].default_features,
            self.roots[i].all_features,
        )
    }

    /// The atoms that the root requests state outright.
    pub open spec fn seeds(self) -> Set<Atom> {
        Set::new(
            |x: Atom|
                exists|i: int|
                    0 <= i < self.roots.len() && #[trigger] self.seeded_by(i, x),
        )
    }

    /// Whether the `i`-th root request states the atom.
    pub open spec fn seeded_by(self, i: int, x: Atom) -> bool {
        match x {
            Atom::Present(u) => u == self.root_unit(i),
            Atom::Active(u, r) => u == self.root_unit(i) && self.root_start(i).contains(r),
        }
    }
}

/// What following an edge from `u` asks of the table `a`: the unit at the
/// far end is present, the edge's requests are in force there, and so is
/// `default` where the edge asks for it and the package declares it.
pub open spec fn edge_served(p: Problem, a: Set<Atom>, u: Unit, e: int) -> bool {
    let c = p.child(u, e);
    &&& a.contains(Atom::Present(c))
    &&& forall|j: int|
        0 <= j < p.edge(u, e).features@.len() ==> a.contains(
            Atom::Active(c, (#[trigger] p.edge(u, e).features@[j])@),
        )
    &&& (p.edge(u, e).default_features && p.package(c).table.declares(default_feature())
        ==> a.contains(Atom::Active(c, Request::Plain(default_feature()))))
}

/// Whether `a` holds everything that the atom `x` brings about by itself.
///
/// - A present unit follows every edge that takes part and is not
///   optional.
/// - A unit in which a request is in force is present.
/// - A plain request brings what the feature of that name implies, and
///   follows the edges to the dependency of that name.
/// - A strong request follows the edges to its dependency and puts its
///   feature in force at their far end.
/// - A weak request brings about nothing by itself.
pub open spec fn served(p: Problem, a: Set<Atom>, x: Atom) -> bool {
    match x {
        Atom::Present(u) => forall|e: int|
            #[trigger] p.traversed(u, e) && !p.edge(u, e).optional ==> edge_served(p, a, u, e),
        Atom::Active(u, r) => a.contains(Atom::Present(u)) && match r {
            Request::Plain(f) => {
                &&& forall|i: int, j: int|
                    0 <= i < p.package(u).table.entries@.len() && 0 <= j < p.package(
                        u,
                    ).table.entries@[i].implies@.len() && p.package(u).table.entries@[i].name@ == f
                        ==> a.contains(
                        Atom::Active(u, (#[trigger] p.package(u).table.entries@[i].implies@[j])@),
                    )
                &&& forall|e: int|
                    #[trigger] p.traversed(u, e) && p.edge(u, e).name@ == f ==> edge_served(
                        p,
                        a,
                        u,
                        e,
                    )
            },
            Request::Strong(d, f) => forall|e: int|
                #[trigger] p.traversed(u, e) && p.edge(u, e).name@ == d ==> edge_served(p, a, u, e)
                    && a.contains(Atom::Active(p.child(u, e), Request::Plain(f))),
            Request::Weak(_, _) => true,
        },
    }
}

/// Whether `a` holds what the weak requests in `s` bring about: the
/// feature at the far end of each edge to the named dependency, provided
/// that the unit there is present in `s`.
pub open spec fn weak_served(p: Problem, s: Set<Atom>, a: Set<Atom>) -> bool {
    forall|u: Unit, d: Seq<char>, f: Seq<char>, e: int|
        #![trigger s.contains(Atom::Active(u, Request::Weak(d, f))), p.traversed(u, e)]
        s.contains(Atom::Active(u, Request::Weak(d, f))) && p.traversed(u, e) && p.edge(u, e).name@
            == d && s.contains(Atom::Present(p.child(u, e))) ==> a.contains(
            Atom::Active(p.child(u, e), Request::Plain(f)),
        )
}

/// Whether `a` holds everything that the atoms of `s` bring about.
pub open spec fn closed_upto(p: Problem, s: Set<Atom>, a: Set<Atom>) -> bool {
    &&& forall|x: Atom| #[trigger] s.contains(x) ==> served(p, a, x)
    &&& weak_served(p, s, a)
}

/// Whether a table obeys the rules: it holds everything that its own
/// atoms bring about. Such a table is a fixpoint of propagation.
pub open spec fn closed(p: Problem, s: Set<Atom>) -> bool {
    closed_upto(p, s, s)
}

/// Whether the atom belongs to every table that holds `base` and obeys
/// the rules.
pub open spec fn derivable(p: Problem, base: Set<Atom>, x: Atom) -> bool {
    forall|c: Set<Atom>| base.subset_of(c) && closed(p, c) ==> #[trigger] c.contains(x)
}

/// The least table that holds `base` and obeys the rules.
pub open spec fn least_closed(p: Problem, base: Set<Atom>) -> Set<Atom> {
    Set::new(|x: Atom| derivable(p, base, x))
}

/// The result of a resolution: the least table that holds the root
/// requests and obeys the rules.
pub open spec fn activation(p: Problem) -> Set<Atom> {
    least_closed(p, p.seeds())
}

/// The activation table that a set of atoms describes: for each present
/// unit, the names of the features that are active in it.
pub open spec fn feature_map(s: Set<Atom>) -> Map<Unit, Set<Seq<char>>> {
    Map::new(
        |u: Unit| s.contains(Atom::Present(u)),
        |u: Unit| Set::new(|f: Seq<char>| s.contains(Atom::Active(u, Request::Plain(f)))),
    )
}

/// The requests that are in force in `u` according to `s`.
pub open spec fn slice(s: Set<Atom>, u: Unit) -> Set<Request> {
    Set::new(|r: Request| s.contains(Atom::Active(u, r)))
}

pub proof fn lemma_edge_served_grows(p: Problem, a: Set<Atom>, b: Set<Atom>, u: Unit, e: int)
    requires
        edge_served(p, a, u, e),
        a.subset_of(b),
    ensures
        edge_served(p, b, u, e),
{
}

pub proof fn lemma_served_grows(p: Problem, a: Set<Atom>, b: Set<Atom>, x: Atom)
    requires
        served(p, a, x),
        a.subset_of(b),
    ensures
        served(p, b, x),
{
    match x {
        Atom::Present(u) => {
            assert forall|e: int| #[trigger] p.traversed(u, e) && !p.edge(u, e).optional implies edge_served(
                p,
                b,
                u,
                e,
            ) by {
                lemma_edge_served_grows(p, a, b, u, e);
            }
        },
        Atom::Active(u, r) => {
            match r {
                Request::Plain(f) => {
                    assert forall|e: int|
                        #[trigger] p.traversed(u, e) && p.edge(u, e).name@ == f implies edge_served(
                        p,
                        b,
                        u,
                        e,
                    ) by {
                        lemma_edge_served_grows(p, a, b, u, e);
                    }
                },
                Request::Strong(d, f) => {
                    assert forall|e: int|
                        #[trigger] p.traversed(u, e) && p.edge(u, e).name@ == d implies edge_served(
                        p,
                        b,
                        u,
                        e,
                    ) && b.contains(Atom::Active(p.child(u, e), Request::Plain(f))) by {
                        lemma_edge_served_grows(p, a, b, u, e);
                    }
                },
                Request::Weak(_, _) => {},
            }
        },
    }
}

pub proof fn lemma_closed_upto_grows(p: Problem, s: Set<Atom>, a: Set<Atom>, b: Set<Atom>)
    requires
        closed_upto(p, s, a),
        a.subset_of(b),
    ensures
        closed_upto(p, s, b),
{
    assert forall|x: Atom| #[trigger] s.contains(x) implies served(p, b, x) by {
        lemma_served_grows(p, a, b, x);
    }
}

/// In a table that obeys the rules, the requests in force in a unit are
/// closed for the feature table of the unit's package.
pub proof fn lemma_slice_closed(p: Problem, c: Set<Atom>, u: Unit)
    requires
        closed(p, c),
    ensures
        table_closed(&p.package(u).table, slice(c, u)),
{
    let table = &p.package(u).table;
    assert forall|i: int, j: int|
        0 <= i < table.entries@.len() && 0 <= j < table.entries@[i].implies@.len() && slice(
            c,
            u,
        ).contains(Request::Plain(table.entries@[i].name@)) implies slice(c, u).contains(
        (#[trigger] table.entries@[i].implies@[j])@,
    ) by {
        let x = Atom::Active(u, Request::Plain(table.entries@[i].name@));
        assert(c.contains(x));
        assert(served(p, c, x));
    }
}

/// If every request of `start` can be derived for a unit, so can every
/// request of its closure under the feature table of the unit's package.
pub proof fn lemma_closure_derivable(p: Problem, base: Set<Atom>, u: Unit, start: Set<Request>)
    requires
        forall|r: Request| start.contains(r) ==> derivable(p, base, Atom::Active(u, r)),
    ensures
        forall|r: Request|
            closure(&p.package(u).table, start).contains(r) ==> derivable(
                p,
                base,
                Atom::Active(u, r),
            ),
{
    let table = &p.package(u).table;
    assert forall|r: Request| closure(table, start).contains(r) implies derivable(
        p,
        base,
        Atom::Active(u, r),
    ) by {
        assert forall|c: Set<Atom>| base.subset_of(c) && closed(p, c) implies #[trigger] c.contains(
            Atom::Active(u, r),
        ) by {
            lemma_slice_closed(p, c, u);
            assert(start.subset_of(slice(c, u))) by {
                assert forall|q: Request| start.contains(q) implies slice(c, u).contains(q) by {
                    assert(derivable(p, base, Atom::Active(u, q)));
                }
            }
            lemma_closure_least(table, start, slice(c, u));
            assert(slice(c, u).contains(r));
        }
    }
}

/// Whether the atom `x`, by itself, follows the `e`-th edge of `u`.
pub open spec fn follows(p: Problem, x: Atom, u: Unit, e: int) -> bool {
    p.traversed(u, e) && match x {
        Atom::Present(v) => v == u && !p.edge(u, e).optional,
        Atom::Active(v, Request::Plain(f)) => v == u && p.edge(u, e).name@ == f,
        Atom::Active(v, Request::Strong(d, _)) => v == u && p.edge(u, e).name@ == d,
        Atom::Active(_, Request::Weak(_, _)) => false,
    }
}

/// What an edge carries can be derived once an atom that follows the edge
/// can.
pub proof fn lemma_edge_derivable(p: Problem, base: Set<Atom>, x: Atom, u: Unit, e: int)
    requires
        derivable(p, base, x),
        follows(p, x, u, e),
    ensures
        derivable(p, base, Atom::Present(p.child(u, e))),
        forall|j: int|
            0 <= j < p.edge(u, e).features@.len() ==> derivable(
                p,
                base,
                Atom::Active(p.child(u, e), (#[trigger] p.edge(u, e).features@[j])@),
            ),
        p.edge(u, e).default_features && p.package(p.child(u, e)).table.declares(default_feature())
            ==> derivable(p, base, Atom::Active(p.child(u, e), Request::Plain(default_feature()))),
        forall|d: Seq<char>, f: Seq<char>|
            x == Atom::Active(u, Request::Strong(d, f)) ==> derivable(
                p,
                base,
                Atom::Active(p.child(u, e), Request::Plain(f)),
            ),
{
    let c = p.child(u, e);
    assert forall|t: Set<Atom>| base.subset_of(t) && closed(p, t) implies edge_served(p, t, u, e)
        && forall|d: Seq<char>, f: Seq<char>|
        x == Atom::Active(u, Request::Strong(d, f)) ==> t.contains(
            Atom::Active(c, Request::Plain(f)),
        ) by {
        assert(t.contains(x));
        assert(served(p, t, x));
    }
    assert forall|j: int| 0 <= j < p.edge(u, e).features@.len() implies derivable(
        p,
        base,
        Atom::Active(c, (#[trigger] p.edge(u, e).features@[j])@),
    ) by {
        assert forall|t: Set<Atom>| base.subset_of(t) && closed(p, t) implies #[trigger] t.contains(
            Atom::Active(c, p.edge(u, e).features@[j]@),
        ) by {
            assert(edge_served(p, t, u, e));
        }
    }
    assert(derivable(p, base, Atom::Present(c))) by {
        assert forall|t: Set<Atom>| base.subset_of(t) && closed(p, t) implies #[trigger] t.contains(
            Atom::Present(c),
        ) by {
            assert(edge_served(p, t, u, e));
        }
    }
    if p.edge(u, e).default_features && p.package(c).table.declares(default_feature()) {
        assert forall|t: Set<Atom>| base.subset_of(t) && closed(p, t) implies #[trigger] t.contains(
            Atom::Active(c, Request::Plain(default_feature())),
        ) by {
            assert(edge_served(p, t, u, e));
        }
    }
    assert forall|d: Seq<char>, f: Seq<char>|
        x == Atom::Active(u, Request::Strong(d, f)) implies derivable(
        p,
        base,
        Atom::Active(c, Request::Plain(f)),
    ) by {
        assert forall|t: Set<Atom>| base.subset_of(t) && closed(p, t) implies #[trigger] t.contains(
            Atom::Active(c, Request::Plain(f)),
        ) by {
            assert(edge_served(p, t, u, e));
        }
    }
}

/// The feature of a weak request can be derived at the far end of an
/// edge to its dependency once the unit there can.
pub proof fn lemma_weak_derivable(
    p: Problem,
    base: Set<Atom>,
    u: Unit,
    d: Seq<char>,
    f: Seq<char>,
    e: int,
)
    requires
        derivable(p, base, Atom::Active(u, Request::Weak(d, f))),
        p.traversed(u, e),
        p.edge(u, e).name@ == d,
        derivable(p, base, Atom::Present(p.child(u, e))),
    ensures
        derivable(p, base, Atom::Active(p.child(u, e), Request::Plain(f))),
{
    assert forall|t: Set<Atom>| base.subset_of(t) && closed(p, t) implies #[trigger] t.contains(
        Atom::Active(p.child(u, e), Request::Plain(f)),
    ) by {
        assert(t.contains(Atom::Active(u, Request::Weak(d, f))));
        assert(t.contains(Atom::Present(p.child(u, e))));
        assert(weak_served(p, t, t));
    }
}

/// The least table lies in every table that holds the base and obeys the
/// rules.
pub proof fn lemma_least_is_least(p: Problem, base: Set<Atom>, c: Set<Atom>)
    requires
        base.subset_of(c),
        closed(p, c),
    ensures
        least_closed(p, base).subset_of(c),
{
}

} // verus!

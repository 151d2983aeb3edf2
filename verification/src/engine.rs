//! The propagation engine.
//!
//! Propagation is a fixpoint computation with a work list. A work item
//! is a unit together with requests that reach it. Taking an item in
//! makes the unit present, puts in force those of its requests that are
//! new to the unit, and queues, for every edge that a new atom follows,
//! the expanded requests that the edge carries to the unit at its far
//! end. An item that brings nothing new queues nothing, so the work ends
//! when the tables of all units have stopped growing.

use crate::activation::deltas_of;
use crate::activation::ActivationTable;
use crate::activation::WorkItem;
use crate::context::child_unit;
use crate::context::takes_part;
use crate::context::lemma_unit_at_slot;
use crate::context::ResolverConfig;
use crate::context::Unit;
use crate::expand::closure;
use crate::expand::default_feature;
use crate::expand::expand;
use crate::expand::lemma_closure_closed;
use crate::expand::lemma_closure_holds_start;
use crate::expand::start_requests;
use crate::graph::requested_directly;
use crate::graph::PackageGraph;
use crate::graph::RootRequest;
use crate::progress::backed;
use crate::progress::inv;
use crate::progress::lemma_finish;
use crate::progress::lemma_fixpoint;
use crate::progress::lemma_hold_ready;
use crate::progress::lemma_mark_present;
use crate::progress::lemma_put_in_force;
use crate::progress::lemma_queue;
use crate::progress::lemma_start;
use crate::progress::lemma_take;
use crate::progress::lemma_brought_push;
use crate::progress::prepared;
use crate::progress::queueable;
use crate::progress::settled;
use crate::progress::taken_in;
use crate::progress::State;
use crate::request::clone_requests;
use crate::request::requests_of;
use crate::request::FeatureRequest;
use crate::request::Request;
use crate::rules::brought;
use crate::rules::derivable;
use crate::rules::edge_served;
use crate::rules::least_closed;
use crate::rules::lemma_closure_derivable;
use crate::rules::lemma_edge_derivable;
use crate::rules::lemma_edge_served_grows;
use crate::rules::lemma_weak_derivable;
use crate::rules::problem_of;
use crate::rules::Atom;
use crate::rules::Delta;
use crate::rules::Problem;
use crate::universe::atoms_upto;
use crate::universe::bounded;
use crate::universe::covers;
use crate::universe::joined;
use crate::universe::lemma_atoms_upto_contains;
use crate::universe::lemma_atoms_upto_finite;
use crate::universe::lemma_closure_in_universe;
use crate::universe::lemma_concat_contains;
use crate::universe::lemma_joined_contains;
use crate::universe::lemma_universe_covers;
use crate::universe::plain_part;
use crate::universe::request_universe;
use vstd::prelude::*;

verus! {

/// A propagation in progress.
struct Engine {
    table: ActivationTable,
    worklist: Vec<WorkItem>,
    /// Every delta that was ever queued.
    log: Ghost<Seq<Delta>>,
}

/// Whether what the caller has to see to before a request is put in
/// force has been seen to for the edges before the `n`-th.
spec fn prepared_upto(p: Problem, st: State, u: Unit, r: Request, n: int) -> bool {
    match r {
        Request::Plain(f) => forall|e: int|
            e < n && #[trigger] p.traversed(u, e) && p.edge(u, e).name@ == f ==> edge_served(
                p,
                st.all(),
                u,
                e,
            ),
        Request::Strong(d, f) => forall|e: int|
            e < n && #[trigger] p.traversed(u, e) && p.edge(u, e).name@ == d ==> edge_served(
                p,
                st.all(),
                u,
                e,
            ) && st.all().contains(Atom::Active(p.child(u, e), Request::Plain(f))),
        Request::Weak(d, f) => forall|e: int|
            e < n && #[trigger] p.traversed(u, e) && p.edge(u, e).name@ == d
                ==> st.pending.contains((p.child(u, e), f)) && (st.atoms.contains(
                Atom::Present(p.child(u, e)),
            ) ==> st.all().contains(Atom::Active(p.child(u, e), Request::Plain(f)))),
    }
}

proof fn lemma_prepared_grows(p: Problem, st: State, s2: State, u: Unit, r: Request, n: int)
    requires
        prepared_upto(p, st, u, r, n),
        st.all().subset_of(s2.all()),
        st.pending.subset_of(s2.pending),
        st.atoms == s2.atoms,
    ensures
        prepared_upto(p, s2, u, r, n),
{
    match r {
        Request::Plain(f) => {
            assert forall|e: int|
                e < n && #[trigger] p.traversed(u, e) && p.edge(u, e).name@ == f implies edge_served(
                p,
                s2.all(),
                u,
                e,
            ) by {
                lemma_edge_served_grows(p, st.all(), s2.all(), u, e);
            }
        },
        Request::Strong(d, f) => {
            assert forall|e: int|
                e < n && #[trigger] p.traversed(u, e) && p.edge(u, e).name@ == d implies edge_served(
                p,
                s2.all(),
                u,
                e,
            ) && s2.all().contains(Atom::Active(p.child(u, e), Request::Plain(f))) by {
                lemma_edge_served_grows(p, st.all(), s2.all(), u, e);
            }
        },
        Request::Weak(d, f) => {},
    }
}

/// What a feature held ready for a present unit amounts to can be
/// derived, and lies in the universe.
proof fn lemma_ready_derivable(
    p: Problem,
    base: Set<Atom>,
    g: Seq<Request>,
    st: State,
    cur: Option<Delta>,
    c: Unit,
    f: Seq<char>,
)
    requires
        inv(p, base, st, cur),
        covers(p, g),
        bounded(g, st.all()),
        st.pending.contains((c, f)),
        derivable(p, base, Atom::Present(c)),
    ensures
        derivable(p, base, Atom::Active(c, Request::Plain(f))),
        g.contains(Request::Plain(f)),
{
    assert(backed(p, st.all(), c, f));
    let (u, d, e) = choose|u: Unit, d: Seq<char>, e: int|
        #![trigger st.all().contains(Atom::Active(u, Request::Weak(d, f))), p.traversed(u, e)]
        st.all().contains(Atom::Active(u, Request::Weak(d, f))) && p.traversed(u, e) && p.edge(
            u,
            e,
        ).name@ == d && p.child(u, e) == c;
    lemma_weak_derivable(p, base, u, d, f, e);
    assert(g.contains(Request::Weak(d, f)));
    assert(g.contains(plain_part(Request::Weak(d, f))));
}

/// The atoms of a sound and bounded state lie in the universe.
proof fn lemma_within(p: Problem, base: Set<Atom>, g: Seq<Request>, st: State, cur: Option<Delta>)
    requires
        inv(p, base, st, cur),
        bounded(g, st.all()),
    ensures
        st.atoms.subset_of(atoms_upto(g, 4 * p.size())),
        st.atoms.finite(),
        st.atoms.len() <= atoms_upto(g, 4 * p.size()).len(),
{
    let universe = atoms_upto(g, 4 * p.size());
    assert forall|x: Atom| st.atoms.contains(x) implies universe.contains(x) by {
        assert(st.all().contains(x));
        match x {
            Atom::Present(u) => {
                lemma_unit_at_slot(u);
            },
            Atom::Active(u, r) => {
                lemma_unit_at_slot(u);
            },
        }
        lemma_atoms_upto_contains(g, 4 * p.size(), x);
    }
    lemma_atoms_upto_finite(g, 4 * p.size());
    vstd::set_lib::lemma_len_subset(st.atoms, universe);
}

impl Engine {
    spec fn state(&self) -> State {
        State {
            atoms: self.table.atoms(),
            pending: self.table.ready(),
            log: self.log@,
            queue: deltas_of(self.worklist@),
        }
    }

    /// The engine is in a sound state, within the universe `g`.
    spec fn ok(
        &self,
        p: Problem,
        base: Set<Atom>,
        g: Seq<Request>,
        cur: Option<Delta>,
    ) -> bool {
        &&& self.table.wf()
        &&& self.table.size() == p.size()
        &&& inv(p, base, self.state(), cur)
        &&& covers(p, g)
        &&& bounded(g, self.state().all())
    }

    /// Queues, for `unit`, the expansion of `requested`.
    fn enqueue(
        &mut self,
        graph: &PackageGraph,
        unit: Unit,
        requested: &Vec<FeatureRequest>,
        default_features: bool,
        Ghost(p): Ghost<Problem>,
        Ghost(base): Ghost<Set<Atom>>,
        Ghost(g): Ghost<Seq<Request>>,
        Ghost(cur): Ghost<Option<Delta>>,
    )
        requires
            old(self).ok(p, base, g, cur),
            p.graph == *graph,
            unit.package < p.size(),
            derivable(p, base, Atom::Present(unit)),
            forall|r: Request| #[trigger]
                start_requests(
                    &p.package(unit),
                    requests_of(requested@),
                    default_features,
                    false,
                ).contains(r) ==> derivable(p, base, Atom::Active(unit, r)) && g.contains(r),
        ensures
            final(self).ok(p, base, g, cur),
            final(self).table == old(self).table,
            final(self).worklist@.len() == old(self).worklist@.len() + 1,
            old(self).state().all().subset_of(final(self).state().all()),
            final(self).state().all().contains(Atom::Present(unit)),
            forall|r: Request| #[trigger]
                start_requests(
                    &p.package(unit),
                    requests_of(requested@),
                    default_features,
                    false,
                ).contains(r) ==> final(self).state().all().contains(Atom::Active(unit, r)),
    {
        let ghost start = start_requests(
            &p.package(unit),
            requests_of(requested@),
            default_features,
            false,
        );
        let ghost st0 = self.state();
        let delta = expand(&graph.packages[unit.package], requested, default_features, false);
        let item = WorkItem { unit, delta };
        let ghost d = item@;
        proof {
            let table = &p.package(unit).table;
            assert(d.requests.to_set() == closure(table, start));
            lemma_closure_derivable(p, base, unit, start);
            lemma_closure_closed(table, start);
            lemma_closure_in_universe(p, g, unit.package as int, start);
            assert forall|x: Atom| d.holds(x) implies #[trigger] derivable(p, base, x) by {
                match x {
                    Atom::Present(u) => {},
                    Atom::Active(u, r) => {
                        assert(d.requests.to_set().contains(r));
                    },
                }
            }
            assert(queueable(p, base, d));
            lemma_queue(p, base, st0, cur, d);
            lemma_brought_push(st0.log, d);
        }
        self.worklist.push(item);
        proof {
            self.log@ = self.log@.push(d);
            assert(self.state().queue =~= st0.queue.push(d));
            assert(self.state() == st0.with_delta(d));
            assert forall|u: Unit, r: Request| #[trigger]
                self.state().all().contains(Atom::Active(u, r)) implies g.contains(r) by {
                if !st0.all().contains(Atom::Active(u, r)) {
                    assert(d.holds(Atom::Active(u, r)));
                    assert(d.requests.to_set().contains(r));
                }
            }
            assert(d.holds(Atom::Present(unit)));
            assert forall|r: Request| #[trigger] start.contains(r) implies self.state().all().contains(
                Atom::Active(unit, r),
            ) by {
                lemma_closure_holds_start(&p.package(unit).table, start, r);
                assert(d.requests.to_set().contains(r));
                assert(d.holds(Atom::Active(unit, r)));
            }
        }
    }

    /// Makes a unit present, if it is not: queues what its edges that are
    /// not optional carry, and the features held ready for it.
    fn activate(
        &mut self,
        graph: &PackageGraph,
        config: &ResolverConfig,
        roots: &Vec<RootRequest>,
        unit: Unit,
        Ghost(p): Ghost<Problem>,
        Ghost(base): Ghost<Set<Atom>>,
        Ghost(g): Ghost<Seq<Request>>,
        Ghost(cur): Ghost<Option<Delta>>,
    )
        requires
            old(self).ok(p, base, g, cur),
            p == problem_of(graph, config, roots),
            unit.package < p.size(),
            old(self).state().all().contains(Atom::Present(unit)),
        ensures
            final(self).ok(p, base, g, cur),
            final(self).state().atoms == old(self).state().atoms.insert(Atom::Present(unit)),
            old(self).state().all().subset_of(final(self).state().all()),
            final(self).worklist@.len() >= old(self).worklist@.len(),
            old(self).state().atoms.contains(Atom::Present(unit)) ==> final(self).worklist@.len()
                == old(self).worklist@.len(),
    {
        if self.table.is_present(unit) {
            assert(self.state().atoms.insert(Atom::Present(unit)) =~= self.state().atoms);
            return ;
        }
        let ghost st0 = self.state();
        let ghost table0 = self.table;
        let package = &graph.packages[unit.package];
        let from_root = requested_directly(roots, unit.package);
        let mut e: usize = 0;
        while e < package.deps.len()
            invariant
                e <= package.deps.len(),
                self.ok(p, base, g, cur),
                p == problem_of(graph, config, roots),
                unit.package < p.size(),
                package == &graph.packages@[unit.package as int],
                from_root == p.is_root(unit.package),
                self.table == table0,
                st0.all().subset_of(self.state().all()),
                self.worklist@.len() >= st0.queue.len(),
                derivable(p, base, Atom::Present(unit)),
                forall|k: int|
                    k < e && #[trigger] p.traversed(unit, k) && !p.edge(unit, k).optional
                        ==> edge_served(p, self.state().all(), unit, k),
            decreases package.deps.len() - e,
        {
            let edge = &package.deps[e];
            if !edge.optional && takes_part(config, edge, from_root) {
                assert(p.traversed(unit, e as int));
                let child = child_unit(&config.flags, unit, edge);
                let ghost before = self.state();
                proof {
                    lemma_edge_derivable(p, base, Atom::Present(unit), unit, e as int);
                    assert(p.edge(unit, e as int) == *edge);
                    assert forall|r: Request| #[trigger]
                        start_requests(
                            &p.package(child),
                            requests_of(edge.features@),
                            edge.default_features,
                            false,
                        ).contains(r) implies derivable(p, base, Atom::Active(child, r))
                        && g.contains(r) by {
                        if requests_of(edge.features@).contains(r) {
                            let j = choose|j: int|
                                0 <= j < edge.features@.len() && requests_of(edge.features@)[j] == r;
                            assert(p.graph.packages@[unit.package as int].deps@[e as int].features@[j]@
                                == r);
                        }
                    }
                }
                self.enqueue(
                    graph,
                    child,
                    &edge.features,
                    edge.default_features,
                    Ghost(p),
                    Ghost(base),
                    Ghost(g),
                    Ghost(cur),
                );
                proof {
                    let now = self.state();
                    assert forall|k: int|
                        k < e && #[trigger] p.traversed(unit, k) && !p.edge(unit, k).optional implies edge_served(
                        p,
                        now.all(),
                        unit,
                        k,
                    ) by {
                        lemma_edge_served_grows(p, before.all(), now.all(), unit, k);
                    }
                    assert(edge_served(p, now.all(), unit, e as int)) by {
                        let start = start_requests(
                            &p.package(child),
                            requests_of(edge.features@),
                            edge.default_features,
                            false,
                        );
                        assert forall|j: int| 0 <= j < edge.features@.len() implies now.all().contains(
                            Atom::Active(child, (#[trigger] edge.features@[j])@),
                        ) by {
                            assert(requests_of(edge.features@)[j] == edge.features@[j]@);
                            assert(start.contains(edge.features@[j]@));
                        }
                        if edge.default_features && p.package(child).table.declares(
                            default_feature(),
                        ) {
                            assert(start.contains(Request::Plain(default_feature())));
                        }
                    }
                }
            }
            e += 1;
        }
        let count = self.table.ready_count(unit);
        let mut k: usize = 0;
        while k < count
            invariant
                k <= count,
                count == table0.ready_list(unit).len(),
                self.ok(p, base, g, cur),
                p == problem_of(graph, config, roots),
                unit.package < p.size(),
                self.table == table0,
                st0.all().subset_of(self.state().all()),
                self.worklist@.len() >= st0.queue.len(),
                derivable(p, base, Atom::Present(unit)),
                forall|k: int| #[trigger]
                    p.traversed(unit, k) && !p.edge(unit, k).optional ==> edge_served(
                        p,
                        self.state().all(),
                        unit,
                        k,
                    ),
                forall|m: int|
                    0 <= m < k ==> self.state().all().contains(
                        Atom::Active(unit, Request::Plain(#[trigger] table0.ready_list(unit)[m])),
                    ),
            decreases count - k,
        {
            let name = self.table.ready_name(unit, k);
            let mut requested: Vec<FeatureRequest> = Vec::new();
            requested.push(FeatureRequest::plain(&name));
            let ghost before = self.state();
            proof {
                table0.lemma_ready_list(unit);
                assert(table0.ready_list(unit).contains(name@));
                lemma_ready_derivable(p, base, g, before, cur, unit, name@);
                assert(requests_of(requested@) =~= seq![Request::Plain(name@)]);
                assert forall|r: Request| #[trigger]
                    start_requests(&p.package(unit), requests_of(requested@), false, false).contains(
                        r,
                    ) implies derivable(p, base, Atom::Active(unit, r)) && g.contains(r) by {
                    let i = choose|i: int|
                        0 <= i < requests_of(requested@).len() && requests_of(requested@)[i] == r;
                    assert(r == Request::Plain(name@));
                }
            }
            self.enqueue(
                graph,
                unit,
                &requested,
                false,
                Ghost(p),
                Ghost(base),
                Ghost(g),
                Ghost(cur),
            );
            proof {
                let now = self.state();
                assert forall|q: int| #[trigger]
                    p.traversed(unit, q) && !p.edge(unit, q).optional implies edge_served(
                    p,
                    now.all(),
                    unit,
                    q,
                ) by {
                    lemma_edge_served_grows(p, before.all(), now.all(), unit, q);
                }
                assert(requests_of(requested@)[0] == Request::Plain(name@));
                assert(start_requests(
                    &p.package(unit),
                    requests_of(requested@),
                    false,
                    false,
                ).contains(Request::Plain(name@)));
            }
            k += 1;
        }
        let ghost st1 = self.state();
        proof {
            table0.lemma_ready_list(unit);
            assert forall|f: Seq<char>| #[trigger] st1.pending.contains((unit, f)) implies st1.all().contains(
                Atom::Active(unit, Request::Plain(f)),
            ) by {
                assert(table0.ready().contains((unit, f)));
                assert(table0.ready_list(unit).contains(f));
                let m = choose|m: int|
                    0 <= m < table0.ready_list(unit).len() && table0.ready_list(unit)[m] == f;
                assert(st1.all().contains(
                    Atom::Active(unit, Request::Plain(table0.ready_list(unit)[m])),
                ));
            }
            lemma_mark_present(p, base, st1, cur, unit);
        }
        self.table.set_present(unit);
        proof {
            assert(self.state() == st1.with_atom(Atom::Present(unit)));
        }
    }

    /// Puts a request of the delta in hand in force in its unit, after
    /// queueing what the request brings about.
    fn take_request(
        &mut self,
        graph: &PackageGraph,
        config: &ResolverConfig,
        roots: &Vec<RootRequest>,
        unit: Unit,
        request: &FeatureRequest,
        Ghost(p): Ghost<Problem>,
        Ghost(base): Ghost<Set<Atom>>,
        Ghost(g): Ghost<Seq<Request>>,
        Ghost(d): Ghost<Delta>,
    )
        requires
            old(self).ok(p, base, g, Some(d)),
            p == problem_of(graph, config, roots),
            d.unit == unit,
            d.requests.contains(request@),
            unit.package < p.size(),
            old(self).state().atoms.contains(Atom::Present(unit)),
        ensures
            final(self).ok(p, base, g, Some(d)),
            final(self).state().atoms == old(self).state().atoms.insert(
                Atom::Active(unit, request@),
            ),
            old(self).state().all().subset_of(final(self).state().all()),
            final(self).worklist@.len() >= old(self).worklist@.len(),
    {
        let ghost st0 = self.state();
        let ghost x = Atom::Active(unit, request@);
        let ghost cur = Some(d);
        proof {
            let i = choose|i: int| 0 <= i < st0.log.len() && st0.log[i] == d;
            assert(st0.log[i].holds(x));
            assert(st0.all().contains(x));
        }
        let package = &graph.packages[unit.package];
        let from_root = requested_directly(roots, unit.package);
        let dep_name = match request {
            FeatureRequest::Plain { feature } => feature,
            FeatureRequest::Strong { dep, .. } => dep,
            FeatureRequest::Weak { dep, .. } => dep,
        };
        let mut e: usize = 0;
        while e < package.deps.len()
            invariant
                e <= package.deps.len(),
                self.ok(p, base, g, cur),
                cur == Some(d),
                p == problem_of(graph, config, roots),
                unit.package < p.size(),
                package == &graph.packages@[unit.package as int],
                from_root == p.is_root(unit.package),
                x == Atom::Active(unit, request@),
                derivable(p, base, x),
                g.contains(request@),
                st0.all().contains(x),
                st0.all().subset_of(self.state().all()),
                self.state().atoms == st0.atoms,
                self.worklist@.len() >= st0.queue.len(),
                dep_name@ == match request@ {
                    Request::Plain(f) => f,
                    Request::Strong(dn, _) => dn,
                    Request::Weak(dn, _) => dn,
                },
                prepared_upto(p, self.state(), unit, request@, e as int),
            decreases package.deps.len() - e,
        {
            let edge = &package.deps[e];
            let ghost before = self.state();
            if edge.name == *dep_name && takes_part(config, edge, from_root) {
                assert(p.traversed(unit, e as int));
                assert(p.edge(unit, e as int) == *edge);
                let child = child_unit(&config.flags, unit, edge);
                match request {
                    FeatureRequest::Plain { feature } => {
                        proof {
                            lemma_edge_derivable(p, base, x, unit, e as int);
                            assert forall|r: Request| #[trigger]
                                start_requests(
                                    &p.package(child),
                                    requests_of(edge.features@),
                                    edge.default_features,
                                    false,
                                ).contains(r) implies derivable(p, base, Atom::Active(child, r))
                                && g.contains(r) by {
                                if requests_of(edge.features@).contains(r) {
                                    let j = choose|j: int|
                                        0 <= j < edge.features@.len() && requests_of(
                                            edge.features@,
                                        )[j] == r;
                                    assert(p.graph.packages@[unit.package as int].deps@[e as int].features@[j]@
                                        == r);
                                }
                            }
                        }
                        self.enqueue(
                            graph,
                            child,
                            &edge.features,
                            edge.default_features,
                            Ghost(p),
                            Ghost(base),
                            Ghost(g),
                            Ghost(cur),
                        );
                        proof {
                            let now = self.state();
                            let start = start_requests(
                                &p.package(child),
                                requests_of(edge.features@),
                                edge.default_features,
                                false,
                            );
                            assert forall|j: int|
                                0 <= j < edge.features@.len() implies now.all().contains(
                                Atom::Active(child, (#[trigger] edge.features@[j])@),
                            ) by {
                                assert(requests_of(edge.features@)[j] == edge.features@[j]@);
                                assert(start.contains(edge.features@[j]@));
                            }
                            if edge.default_features && p.package(child).table.declares(
                                default_feature(),
                            ) {
                                assert(start.contains(Request::Plain(default_feature())));
                            }
                            assert(edge_served(p, now.all(), unit, e as int));
                        }
                    },
                    FeatureRequest::Strong { dep, feature } => {
                        let mut requested = clone_requests(&edge.features);
                        requested.push(FeatureRequest::plain(feature));
                        proof {
                            lemma_edge_derivable(p, base, x, unit, e as int);
                            assert(g.contains(plain_part(request@)));
                            assert(requests_of(requested@) =~= requests_of(edge.features@).push(
                                Request::Plain(feature@),
                            ));
                            assert forall|r: Request| #[trigger]
                                start_requests(
                                    &p.package(child),
                                    requests_of(requested@),
                                    edge.default_features,
                                    false,
                                ).contains(r) implies derivable(p, base, Atom::Active(child, r))
                                && g.contains(r) by {
                                if requests_of(requested@).contains(r) {
                                    let j = choose|j: int|
                                        0 <= j < requested@.len() && requests_of(requested@)[j] == r;
                                    if j < edge.features@.len() {
                                        assert(p.graph.packages@[unit.package as int].deps@[e as int].features@[j]@
                                            == r);
                                    }
                                }
                            }
                        }
                        self.enqueue(
                            graph,
                            child,
                            &requested,
                            edge.default_features,
                            Ghost(p),
                            Ghost(base),
                            Ghost(g),
                            Ghost(cur),
                        );
                        proof {
                            let now = self.state();
                            let start = start_requests(
                                &p.package(child),
                                requests_of(requested@),
                                edge.default_features,
                                false,
                            );
                            assert forall|j: int|
                                0 <= j < edge.features@.len() implies now.all().contains(
                                Atom::Active(child, (#[trigger] edge.features@[j])@),
                            ) by {
                                assert(requests_of(requested@)[j] == edge.features@[j]@);
                                assert(start.contains(edge.features@[j]@));
                            }
                            if edge.default_features && p.package(child).table.declares(
                                default_feature(),
                            ) {
                                assert(start.contains(Request::Plain(default_feature())));
                            }
                            assert(requests_of(requested@)[edge.features@.len() as int]
                                == Request::Plain(feature@));
                            assert(start.contains(Request::Plain(feature@)));
                            assert(edge_served(p, now.all(), unit, e as int));
                        }
                    },
                    FeatureRequest::Weak { dep, feature } => {
                        proof {
                            assert(before.all().contains(Atom::Active(unit, Request::Weak(dep@, feature@)))
                                && p.traversed(unit, e as int));
                            assert(backed(p, before.all(), child, feature@));
                            lemma_hold_ready(p, base, before, cur, child, feature@);
                        }
                        self.table.hold_ready(child, feature.clone());
                        assert(self.state() == before.with_pending(child, feature@));
                        if self.table.is_present(child) {
                            let mut requested: Vec<FeatureRequest> = Vec::new();
                            requested.push(FeatureRequest::plain(feature));
                            let ghost mid = self.state();
                            proof {
                                assert(mid.all().contains(Atom::Present(child)));
                                lemma_weak_derivable(p, base, unit, dep@, feature@, e as int);
                                assert(g.contains(plain_part(request@)));
                                assert(requests_of(requested@) =~= seq![Request::Plain(feature@)]);
                                assert forall|r: Request| #[trigger]
                                    start_requests(
                                        &p.package(child),
                                        requests_of(requested@),
                                        false,
                                        false,
                                    ).contains(r) implies derivable(p, base, Atom::Active(child, r))
                                    && g.contains(r) by {
                                    let i = choose|i: int|
                                        0 <= i < requests_of(requested@).len() && requests_of(
                                            requested@,
                                        )[i] == r;
                                    assert(r == Request::Plain(feature@));
                                }
                            }
                            self.enqueue(
                                graph,
                                child,
                                &requested,
                                false,
                                Ghost(p),
                                Ghost(base),
                                Ghost(g),
                                Ghost(cur),
                            );
                            proof {
                                assert(requests_of(requested@)[0] == Request::Plain(feature@));
                                assert(start_requests(
                                    &p.package(child),
                                    requests_of(requested@),
                                    false,
                                    false,
                                ).contains(Request::Plain(feature@)));
                            }
                        }
                    },
                }
            }
            proof {
                lemma_prepared_grows(p, before, self.state(), unit, request@, e as int);
            }
            e += 1;
        }
        let ghost st1 = self.state();
        proof {
            assert(prepared(p, st1, unit, request@));
            lemma_put_in_force(p, base, st1, d, request@);
        }
        self.table.insert(unit, request.clone());
        proof {
            assert(self.state() == st1.with_atom(x));
        }
    }

    /// Takes work items in until none is left.
    fn run(
        &mut self,
        graph: &PackageGraph,
        config: &ResolverConfig,
        roots: &Vec<RootRequest>,
        Ghost(p): Ghost<Problem>,
        Ghost(base): Ghost<Set<Atom>>,
        Ghost(g): Ghost<Seq<Request>>,
    )
        requires
            old(self).ok(p, base, g, None),
            p == problem_of(graph, config, roots),
            base.subset_of(old(self).state().all()),
        ensures
            final(self).table.wf(),
            final(self).table.size() == p.size(),
            final(self).table.atoms() == least_closed(p, base),
            settled(p, final(self).table.atoms(), final(self).table.ready()),
    {
        let ghost universe = atoms_upto(g, 4 * p.size());
        while self.worklist.len() > 0
            invariant
                self.ok(p, base, g, None),
                p == problem_of(graph, config, roots),
                base.subset_of(self.state().all()),
                universe == atoms_upto(g, 4 * p.size()),
            decreases universe.len() - self.state().atoms.len(), self.worklist@.len(),
        {
            let ghost st0 = self.state();
            proof {
                lemma_within(p, base, g, st0, None);
                lemma_take(p, base, st0);
            }
            let item = self.worklist.pop().unwrap();
            let ghost d = item@;
            let ghost cur = Some(d);
            let ghost taken = self.worklist@.len();
            proof {
                assert(self.state().queue =~= st0.queue.drop_last());
                assert(self.state() == st0.without_last());
                assert(d == st0.queue.last());
                let i = choose|i: int| 0 <= i < st0.log.len() && st0.log[i] == d;
                assert(st0.log[i].holds(Atom::Present(d.unit)));
                assert(st0.all().contains(Atom::Present(d.unit)));
            }
            let unit = item.unit;
            self.activate(graph, config, roots, unit, Ghost(p), Ghost(base), Ghost(g), Ghost(cur));
            proof {
                lemma_within(p, base, g, self.state(), cur);
            }
            let mut k: usize = 0;
            while k < item.delta.len()
                invariant
                    k <= item.delta.len(),
                    self.ok(p, base, g, cur),
                    cur == Some(d),
                    d == item@,
                    unit == item.unit,
                    unit.package < p.size(),
                    p == problem_of(graph, config, roots),
                    base.subset_of(self.state().all()),
                    universe == atoms_upto(g, 4 * p.size()),
                    self.state().atoms.contains(Atom::Present(unit)),
                    forall|m: int|
                        0 <= m < k ==> self.state().atoms.contains(
                            Atom::Active(unit, (#[trigger] item.delta@[m])@),
                        ),
                    st0.atoms.finite(),
                    self.state().atoms.finite(),
                    self.state().atoms.len() >= st0.atoms.len(),
                    self.state().atoms.len() <= universe.len(),
                    self.state().atoms.len() == st0.atoms.len() ==> self.worklist@.len() == taken,
                    taken + 1 == st0.queue.len(),
                decreases item.delta.len() - k,
            {
                let request = &item.delta[k];
                let ghost before = self.state();
                if !self.table.has_request(unit, request) {
                    proof {
                        assert(requests_of(item.delta@)[k as int] == request@);
                    }
                    self.take_request(
                        graph,
                        config,
                        roots,
                        unit,
                        request,
                        Ghost(p),
                        Ghost(base),
                        Ghost(g),
                        Ghost(d),
                    );
                    proof {
                        lemma_within(p, base, g, self.state(), cur);
                    }
                }
                k += 1;
            }
            proof {
                let st1 = self.state();
                assert(taken_in(st1.atoms, d)) by {
                    assert forall|x: Atom| d.holds(x) implies #[trigger] st1.atoms.contains(x) by {
                        match x {
                            Atom::Present(u) => {},
                            Atom::Active(u, r) => {
                                let m = choose|m: int|
                                    0 <= m < d.requests.len() && d.requests[m] == r;
                                assert(item.delta@[m]@ == r);
                            },
                        }
                    }
                }
                lemma_finish(p, base, st1, d);
            }
        }
        proof {
            assert(self.state().queue.len() == 0);
            lemma_fixpoint(p, base, self.state());
        }
    }
}

/// The requests of all the work items, one after the other.
spec fn asked_by_items(items: Seq<WorkItem>) -> Seq<Request> {
    joined(Seq::new(items.len(), |k: int| requests_of(items[k].delta@)), items.len() as int)
}

/// Propagation from a table that is a fixpoint already. The deltas are
/// expanded and taken in, and with them everything that they bring about.
/// The result is the least fixpoint that holds the table and the deltas;
/// with no deltas, it is the table as it was.
pub fn propagate(
    graph: &PackageGraph,
    config: &ResolverConfig,
    roots: &Vec<RootRequest>,
    table: ActivationTable,
    deltas: &Vec<WorkItem>,
) -> (out: ActivationTable)
    requires
        problem_of(graph, config, roots).wf(),
        table.settled_for(problem_of(graph, config, roots)),
        forall|k: int| 0 <= k < deltas@.len() ==> (#[trigger] deltas@[k]).unit.package
            < graph.packages@.len(),
    ensures
        out.wf(),
        out.size() == graph.packages@.len(),
        out.settled_for(problem_of(graph, config, roots)),
        out.atoms() == least_closed(
            problem_of(graph, config, roots),
            table.atoms().union(brought(deltas_of(deltas@))),
        ),
        deltas@.len() == 0 ==> out.atoms() == table.atoms() && out@ == table@,
{
    let ghost p = problem_of(graph, config, roots);
    let ghost base = table.atoms().union(brought(deltas_of(deltas@)));
    let ghost init = table.mentioned() + asked_by_items(deltas@);
    let ghost g = request_universe(graph, init);
    let ghost atoms0 = table.atoms();
    proof {
        lemma_start(p, base, table.atoms(), table.ready());
        lemma_universe_covers(p, init);
        assert forall|u: Unit, r: Request| #[trigger]
            table.atoms().contains(Atom::Active(u, r)) implies g.contains(r) by {
            table.lemma_mentioned(u, r);
            lemma_concat_contains(table.mentioned(), asked_by_items(deltas@), r);
        }
    }
    let mut engine = Engine { table, worklist: Vec::new(), log: Ghost(Seq::empty()) };
    proof {
        assert(engine.state().queue =~= Seq::<Delta>::empty());
        assert(engine.state() == State {
            atoms: atoms0,
            pending: engine.table.ready(),
            log: Seq::empty(),
            queue: Seq::empty(),
        });
        assert(engine.state().all() =~= atoms0);
    }
    let mut k: usize = 0;
    while k < deltas.len()
        invariant
            k <= deltas.len(),
            engine.ok(p, base, g, None),
            p == problem_of(graph, config, roots),
            base == atoms0.union(brought(deltas_of(deltas@))),
            g == request_universe(graph, init),
            init == table.mentioned() + asked_by_items(deltas@),
            atoms0.subset_of(engine.state().all()),
            engine.table.atoms() == atoms0,
            forall|m: int| 0 <= m < deltas@.len() ==> (#[trigger] deltas@[m]).unit.package
                < graph.packages@.len(),
            forall|m: int, x: Atom|
                0 <= m < k && (#[trigger] deltas@[m])@.holds(x) ==> #[trigger] engine.state().all().contains(
                    x,
                ),
        decreases deltas.len() - k,
    {
        let item = &deltas[k];
        let ghost before = engine.state();
        proof {
            let dv = deltas_of(deltas@);
            assert(dv[k as int] == item@);
            assert(dv[k as int].holds(Atom::Present(item.unit)));
            assert(base.contains(Atom::Present(item.unit)));
            lemma_universe_covers(p, init);
            assert forall|r: Request| #[trigger]
                start_requests(&p.package(item.unit), requests_of(item.delta@), false, false).contains(
                    r,
                ) implies derivable(p, base, Atom::Active(item.unit, r)) && g.contains(r) by {
                assert(dv[k as int].holds(Atom::Active(item.unit, r)));
                assert(base.contains(Atom::Active(item.unit, r)));
                let parts = Seq::new(deltas@.len(), |k: int| requests_of(deltas@[k].delta@));
                let j = choose|j: int|
                    0 <= j < requests_of(item.delta@).len() && requests_of(item.delta@)[j] == r;
                assert(parts[k as int][j] == r);
                lemma_joined_contains(parts, deltas@.len() as int, k as int, j);
                lemma_concat_contains(table.mentioned(), asked_by_items(deltas@), r);
            }
        }
        engine.enqueue(
            graph,
            item.unit,
            &item.delta,
            false,
            Ghost(p),
            Ghost(base),
            Ghost(g),
            Ghost(None),
        );
        proof {
            let now = engine.state();
            assert forall|m: int, x: Atom|
                0 <= m < k + 1 && (#[trigger] deltas@[m])@.holds(x) implies #[trigger] now.all().contains(
                x,
            ) by {
                if m < k {
                    assert(before.all().contains(x));
                } else {
                    match x {
                        Atom::Present(u) => {},
                        Atom::Active(u, r) => {
                            assert(start_requests(
                                &p.package(item.unit),
                                requests_of(item.delta@),
                                false,
                                false,
                            ).contains(r));
                        },
                    }
                }
            }
        }
        k += 1;
    }
    proof {
        assert forall|x: Atom| base.contains(x) implies engine.state().all().contains(x) by {
            if !atoms0.contains(x) {
                let dv = deltas_of(deltas@);
                let m = choose|m: int| 0 <= m < dv.len() && (#[trigger] dv[m]).holds(x);
                assert(deltas@[m]@.holds(x));
            }
        }
    }
    engine.run(graph, config, roots, Ghost(p), Ghost(base), Ghost(g));
    let out = engine.table;
    proof {
        if deltas@.len() == 0 {
            assert(base =~= atoms0);
            assert(least_closed(p, atoms0) =~= atoms0) by {
                assert forall|x: Atom| least_closed(p, atoms0).contains(x) implies atoms0.contains(
                    x,
                ) by {
                    assert(derivable(p, atoms0, x));
                }
            }
        }
    }
    out
}

} // verus!

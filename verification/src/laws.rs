//! What holds of every resolution.
//!
//! The statements are about `activation`, the table that `resolve`
//! returns, and about `least_closed`, the table that `propagate` returns.

use crate::context::dev_followed;
use crate::context::edge_active;
use crate::context::key_kind;
use crate::context::key_tests;
use crate::context::ResolverBehaviorFlags;
use crate::context::CompilationKind;
use crate::context::TestInclusion;
use crate::context::Unit;
use crate::expand::closure;
use crate::expand::default_feature;
use crate::expand::lemma_closure_closed;
use crate::expand::lemma_closure_holds_start;
use crate::expand::lemma_closure_least;
use crate::graph::DepKind;
use crate::request::requests_of;
use crate::request::Request;
use crate::rules::activation;
use crate::rules::closed;
use crate::rules::derivable;
use crate::rules::edge_served;
use crate::rules::feature_map;
use crate::rules::follows;
use crate::rules::least_closed;
use crate::rules::lemma_edge_derivable;
use crate::rules::lemma_least_is_least;
use crate::rules::lemma_slice_closed;
use crate::rules::slice;
use crate::rules::lemma_weak_derivable;
use crate::rules::served;
use crate::rules::weak_served;
use crate::rules::Atom;
use crate::rules::Problem;
use vstd::prelude::*;

verus! {

/// The least table over a base obeys the rules: it is a fixpoint.
pub proof fn law_least_is_fixpoint(p: Problem, base: Set<Atom>)
    ensures
        closed(p, least_closed(p, base)),
        base.subset_of(least_closed(p, base)),
{
    let l = least_closed(p, base);
    assert forall|x: Atom| #[trigger] l.contains(x) implies served(p, l, x) by {
        assert(derivable(p, base, x));
        match x {
            Atom::Present(u) => {
                assert forall|e: int|
                    #[trigger] p.traversed(u, e) && !p.edge(u, e).optional implies edge_served(
                    p,
                    l,
                    u,
                    e,
                ) by {
                    lemma_edge_derivable(p, base, x, u, e);
                }
            },
            Atom::Active(u, r) => {
                assert(l.contains(Atom::Present(u))) by {
                    assert forall|c: Set<Atom>|
                        base.subset_of(c) && closed(p, c) implies #[trigger] c.contains(
                        Atom::Present(u),
                    ) by {
                        assert(c.contains(x));
                        assert(served(p, c, x));
                    }
                }
                match r {
                    Request::Plain(f) => {
                        let table = &p.package(u).table;
                        assert forall|i: int, j: int|
                            0 <= i < table.entries@.len() && 0 <= j
                                < table.entries@[i].implies@.len() && table.entries@[i].name@
                                == f implies l.contains(
                            Atom::Active(u, (#[trigger] table.entries@[i].implies@[j])@),
                        ) by {
                            assert forall|c: Set<Atom>|
                                base.subset_of(c) && closed(p, c) implies #[trigger] c.contains(
                                Atom::Active(u, table.entries@[i].implies@[j]@),
                            ) by {
                                assert(c.contains(x));
                                assert(served(p, c, x));
                            }
                        }
                        assert forall|e: int|
                            #[trigger] p.traversed(u, e) && p.edge(u, e).name@ == f implies edge_served(
                            p,
                            l,
                            u,
                            e,
                        ) by {
                            lemma_edge_derivable(p, base, x, u, e);
                        }
                    },
                    Request::Strong(d, f) => {
                        assert forall|e: int|
                            #[trigger] p.traversed(u, e) && p.edge(u, e).name@ == d implies edge_served(
                            p,
                            l,
                            u,
                            e,
                        ) && l.contains(Atom::Active(p.child(u, e), Request::Plain(f))) by {
                            lemma_edge_derivable(p, base, x, u, e);
                        }
                    },
                    Request::Weak(_, _) => {},
                }
            },
        }
    }
    assert forall|u: Unit, d: Seq<char>, f: Seq<char>, e: int|
        #![trigger l.contains(Atom::Active(u, Request::Weak(d, f))), p.traversed(u, e)]
        l.contains(Atom::Active(u, Request::Weak(d, f))) && p.traversed(u, e) && p.edge(u, e).name@
            == d && l.contains(Atom::Present(p.child(u, e))) implies l.contains(
        Atom::Active(p.child(u, e), Request::Plain(f)),
    ) by {
        lemma_weak_derivable(p, base, u, d, f, e);
    }
}

/// Idempotence. Over a table that is a fixpoint already, the least
/// fixpoint is the table itself: propagating again, with nothing new,
/// changes nothing.
pub proof fn law_fixpoint_is_stable(p: Problem, table: Set<Atom>)
    requires
        closed(p, table),
    ensures
        least_closed(p, table) == table,
{
    assert forall|x: Atom| least_closed(p, table).contains(x) implies table.contains(x) by {
        assert(derivable(p, table, x));
    }
    assert(least_closed(p, table) =~= table);
}

/// The result of a resolution is a fixpoint, and resolving on from it
/// gives it back.
pub proof fn law_activation_is_stable(p: Problem)
    ensures
        closed(p, activation(p)),
        p.seeds().subset_of(activation(p)),
        least_closed(p, activation(p)) == activation(p),
{
    law_least_is_fixpoint(p, p.seeds());
    law_fixpoint_is_stable(p, activation(p));
}

/// Whether everything that the roots of `p` ask for is asked for by the
/// roots of `q` as well: each root package of `p` is a root package of
/// `q`, with at least the same requests.
pub open spec fn asks_no_more(p: Problem, q: Problem) -> bool {
    forall|i: int|
        0 <= i < p.roots.len() ==> exists|j: int|
            0 <= j < q.roots.len() && (#[trigger] q.roots[j]).package == (
            #[trigger] p.roots[i]).package && p.root_start(i).subset_of(q.root_start(j))
}

/// Monotonicity. Over the same graph and configuration, root requests
/// that ask for no more activate no more: every unit that is present is
/// present in the larger resolution, with at least the same features.
pub proof fn law_monotone(p: Problem, q: Problem)
    requires
        p.graph == q.graph,
        p.config == q.config,
        asks_no_more(p, q),
    ensures
        activation(p).subset_of(activation(q)),
        forall|u: Unit| #[trigger]
            feature_map(activation(p)).dom().contains(u) ==> feature_map(
                activation(q),
            ).dom().contains(u) && feature_map(activation(p))[u].subset_of(
                feature_map(activation(q))[u],
            ),
{
    let big = activation(q);
    law_least_is_fixpoint(q, q.seeds());
    assert forall|pk: usize| p.is_root(pk) implies q.is_root(pk) by {
        let i = choose|i: int| 0 <= i < p.roots.len() && (#[trigger] p.roots[i]).package == pk;
        let j = choose|j: int|
            0 <= j < q.roots.len() && (#[trigger] q.roots[j]).package == p.roots[i].package
                && p.root_start(i).subset_of(q.root_start(j));
    }
    assert forall|u: Unit, e: int| #[trigger] p.traversed(u, e) implies q.traversed(u, e) by {
        if p.is_root(u.package) {
            assert(q.is_root(u.package));
        }
    }
    assert(p.seeds().subset_of(big)) by {
        assert forall|x: Atom| p.seeds().contains(x) implies big.contains(x) by {
            let i = choose|i: int| 0 <= i < p.roots.len() && #[trigger] p.seeded_by(i, x);
            let j = choose|j: int|
                0 <= j < q.roots.len() && (#[trigger] q.roots[j]).package == p.roots[i].package
                    && p.root_start(i).subset_of(q.root_start(j));
            assert(q.seeded_by(j, x));
            assert(q.seeds().contains(x));
        }
    }
    assert(closed(p, big)) by {
        assert forall|x: Atom| #[trigger] big.contains(x) implies served(p, big, x) by {
            assert(served(q, big, x));
            match x {
                Atom::Present(u) => {
                    assert forall|e: int|
                        #[trigger] p.traversed(u, e) && !p.edge(u, e).optional implies edge_served(
                        p,
                        big,
                        u,
                        e,
                    ) by {
                        assert(q.traversed(u, e));
                        assert(edge_served(q, big, u, e));
                    }
                },
                Atom::Active(u, r) => {
                    match r {
                        Request::Plain(f) => {
                            assert forall|e: int|
                                #[trigger] p.traversed(u, e) && p.edge(u, e).name@
                                    == f implies edge_served(p, big, u, e) by {
                                assert(q.traversed(u, e));
                                assert(edge_served(q, big, u, e));
                            }
                        },
                        Request::Strong(d, f) => {
                            assert forall|e: int|
                                #[trigger] p.traversed(u, e) && p.edge(u, e).name@
                                    == d implies edge_served(p, big, u, e) && big.contains(
                                Atom::Active(p.child(u, e), Request::Plain(f)),
                            ) by {
                                assert(q.traversed(u, e));
                                assert(edge_served(q, big, u, e));
                            }
                        },
                        Request::Weak(_, _) => {},
                    }
                },
            }
        }
        assert forall|u: Unit, d: Seq<char>, f: Seq<char>, e: int|
            #![trigger big.contains(Atom::Active(u, Request::Weak(d, f))), p.traversed(u, e)]
            big.contains(Atom::Active(u, Request::Weak(d, f))) && p.traversed(u, e) && p.edge(
                u,
                e,
            ).name@ == d && big.contains(Atom::Present(p.child(u, e))) implies big.contains(
            Atom::Active(p.child(u, e), Request::Plain(f)),
        ) by {
            assert(q.traversed(u, e));
        }
    }
    lemma_least_is_least(p, p.seeds(), big);
}

/// A unit as the flags key it: each dimension that the flags do not
/// decouple is collapsed.
pub open spec fn rekeyed(flags: ResolverBehaviorFlags, u: Unit) -> Unit {
    Unit { package: u.package, kind: key_kind(flags, u.kind), tests: key_tests(flags, u.tests) }
}

/// An atom with its unit keyed by the flags.
pub open spec fn rekeyed_atom(flags: ResolverBehaviorFlags, x: Atom) -> Atom {
    match x {
        Atom::Present(u) => Atom::Present(rekeyed(flags, u)),
        Atom::Active(u, r) => Atom::Active(rekeyed(flags, u), r),
    }
}

/// Whether every behaviour that `fewer` switches on is switched on by
/// `more` as well.
pub open spec fn switches_no_more(fewer: ResolverBehaviorFlags, more: ResolverBehaviorFlags) -> bool {
    &&& fewer.filters_platforms() ==> more.filters_platforms()
    &&& fewer.decouples_host() ==> more.decouples_host()
    &&& fewer.decouples_dev() ==> more.decouples_dev()
}

/// Whether two problems differ in their flags only, the second having no
/// flag switched on that the first has not.
pub open spec fn same_but_fewer_flags(p: Problem, q: Problem) -> bool {
    &&& p.graph == q.graph
    &&& p.roots == q.roots
    &&& p.config.invocation == q.config.invocation
    &&& p.config.targets == q.config.targets
    &&& switches_no_more(q.config.flags, p.config.flags)
}

/// An edge that takes part under more flags takes part under fewer, and
/// leads to the unit that the coarser keys merge its far end into.
proof fn lemma_rekeyed_edge(p: Problem, q: Problem, u: Unit, e: int)
    requires
        same_but_fewer_flags(p, q),
        p.traversed(u, e),
    ensures
        q.traversed(rekeyed(q.config.flags, u), e),
        q.child(rekeyed(q.config.flags, u), e) == rekeyed(q.config.flags, p.child(u, e)),
        q.edge(rekeyed(q.config.flags, u), e) == p.edge(u, e),
        q.package(rekeyed(q.config.flags, p.child(u, e))) == p.package(p.child(u, e)),
{
    let edge = p.edge(u, e);
    if q.config.flags.filters_platforms() {
        if let Some(pl) = edge.platform {
            let w = choose|w: int|
                0 <= w < p.config.targets@.len() && pl.admits(&#[trigger] p.config.targets@[w]);
            assert(pl.admits(&q.config.targets@[w]));
        }
    }
}

proof fn lemma_rekeyed_edge_served(
    p: Problem,
    q: Problem,
    big: Set<Atom>,
    t: Set<Atom>,
    u: Unit,
    e: int,
)
    requires
        same_but_fewer_flags(p, q),
        p.traversed(u, e),
        edge_served(q, big, rekeyed(q.config.flags, u), e),
        forall|x: Atom| t.contains(x) <==> big.contains(rekeyed_atom(q.config.flags, x)),
    ensures
        edge_served(p, t, u, e),
{
    let flags = q.config.flags;
    lemma_rekeyed_edge(p, q, u, e);
    let c = p.child(u, e);
    assert(rekeyed_atom(flags, Atom::Present(c)) == Atom::Present(rekeyed(flags, c)));
    assert forall|j: int| 0 <= j < p.edge(u, e).features@.len() implies t.contains(
        Atom::Active(c, (#[trigger] p.edge(u, e).features@[j])@),
    ) by {
        let r = p.edge(u, e).features@[j]@;
        assert(rekeyed_atom(flags, Atom::Active(c, r)) == Atom::Active(rekeyed(flags, c), r));
        assert(big.contains(
            Atom::Active(q.child(rekeyed(flags, u), e), q.edge(rekeyed(flags, u), e).features@[j]@),
        ));
    }
    if p.edge(u, e).default_features && p.package(c).table.declares(default_feature()) {
        let r = Request::Plain(default_feature());
        assert(rekeyed_atom(flags, Atom::Active(c, r)) == Atom::Active(rekeyed(flags, c), r));
    }
}

proof fn lemma_rekeyed_served(p: Problem, q: Problem, big: Set<Atom>, t: Set<Atom>, x: Atom)
    requires
        same_but_fewer_flags(p, q),
        closed(q, big),
        t.contains(x),
        forall|x: Atom| t.contains(x) <==> big.contains(rekeyed_atom(q.config.flags, x)),
    ensures
        served(p, t, x),
{
    let flags = q.config.flags;
    let y = rekeyed_atom(flags, x);
    assert(big.contains(y));
    assert(served(q, big, y));
    match x {
        Atom::Present(u) => {
            let v = rekeyed(flags, u);
            assert forall|e: int|
                #[trigger] p.traversed(u, e) && !p.edge(u, e).optional implies edge_served(
                p,
                t,
                u,
                e,
            ) by {
                lemma_rekeyed_edge(p, q, u, e);
                assert(q.traversed(v, e));
                lemma_rekeyed_edge_served(p, q, big, t, u, e);
            }
        },
        Atom::Active(u, r) => {
            let v = rekeyed(flags, u);
            assert(y == Atom::Active(v, r));
            assert(big.contains(Atom::Present(v)));
            assert(rekeyed_atom(flags, Atom::Present(u)) == Atom::Present(v));
            assert(t.contains(Atom::Present(u)));
            match r {
                Request::Plain(f) => {
                    let table = &p.package(u).table;
                    assert(q.package(v) == p.package(u));
                    assert forall|i: int, j: int|
                        0 <= i < table.entries@.len() && 0 <= j
                            < table.entries@[i].implies@.len() && table.entries@[i].name@
                            == f implies t.contains(
                        Atom::Active(u, (#[trigger] table.entries@[i].implies@[j])@),
                    ) by {
                        let z = table.entries@[i].implies@[j]@;
                        assert(big.contains(Atom::Active(v, q.package(v).table.entries@[i].implies@[j]@)));
                        assert(rekeyed_atom(flags, Atom::Active(u, z)) == Atom::Active(v, z));
                    }
                    assert forall|e: int|
                        #[trigger] p.traversed(u, e) && p.edge(u, e).name@ == f implies edge_served(
                        p,
                        t,
                        u,
                        e,
                    ) by {
                        lemma_rekeyed_edge(p, q, u, e);
                        assert(q.traversed(v, e));
                        lemma_rekeyed_edge_served(p, q, big, t, u, e);
                    }
                },
                Request::Strong(d, f) => {
                    assert forall|e: int|
                        #[trigger] p.traversed(u, e) && p.edge(u, e).name@ == d implies edge_served(
                        p,
                        t,
                        u,
                        e,
                    ) && t.contains(Atom::Active(p.child(u, e), Request::Plain(f))) by {
                        lemma_rekeyed_edge(p, q, u, e);
                        assert(q.traversed(v, e));
                        lemma_rekeyed_edge_served(p, q, big, t, u, e);
                        let c = p.child(u, e);
                        assert(big.contains(Atom::Active(q.child(v, e), Request::Plain(f))));
                        assert(rekeyed_atom(flags, Atom::Active(c, Request::Plain(f)))
                            == Atom::Active(rekeyed(flags, c), Request::Plain(f)));
                    }
                },
                Request::Weak(_, _) => {},
            }
        },
    }
}

/// Fewer flags unify more. Take two resolutions of the same graph, roots,
/// invocation and targets, of which the second has no flag switched on
/// that the first has not. Whatever the first activates, the second
/// activates in the unit that its coarser keys merge the first one's
/// unit into. So with no flag set, one entry of a package holds all that
/// any of its entries holds under any flags.
pub proof fn law_fewer_flags_unify_more(p: Problem, q: Problem)
    requires
        same_but_fewer_flags(p, q),
    ensures
        forall|x: Atom| #[trigger]
            activation(p).contains(x) ==> activation(q).contains(rekeyed_atom(q.config.flags, x)),
{
    let big = activation(q);
    let flags = q.config.flags;
    law_least_is_fixpoint(q, q.seeds());
    let t = Set::new(|x: Atom| big.contains(rekeyed_atom(flags, x)));
    assert(p.seeds().subset_of(t)) by {
        assert forall|x: Atom| p.seeds().contains(x) implies t.contains(x) by {
            let i = choose|i: int| 0 <= i < p.roots.len() && #[trigger] p.seeded_by(i, x);
            assert(q.seeded_by(i, rekeyed_atom(flags, x)));
            assert(q.seeds().contains(rekeyed_atom(flags, x)));
        }
    }
    assert(closed(p, t)) by {
        assert forall|x: Atom| #[trigger] t.contains(x) implies served(p, t, x) by {
            lemma_rekeyed_served(p, q, big, t, x);
        }
        assert forall|u: Unit, d: Seq<char>, f: Seq<char>, e: int|
            #![trigger t.contains(Atom::Active(u, Request::Weak(d, f))), p.traversed(u, e)]
            t.contains(Atom::Active(u, Request::Weak(d, f))) && p.traversed(u, e) && p.edge(
                u,
                e,
            ).name@ == d && t.contains(Atom::Present(p.child(u, e))) implies t.contains(
            Atom::Active(p.child(u, e), Request::Plain(f)),
        ) by {
            let v = rekeyed(flags, u);
            let c = p.child(u, e);
            lemma_rekeyed_edge(p, q, u, e);
            assert(rekeyed_atom(flags, Atom::Active(u, Request::Weak(d, f))) == Atom::Active(
                v,
                Request::Weak(d, f),
            ));
            assert(big.contains(Atom::Active(v, Request::Weak(d, f))));
            assert(rekeyed_atom(flags, Atom::Present(c)) == Atom::Present(rekeyed(flags, c)));
            assert(big.contains(Atom::Present(q.child(v, e))));
            assert(weak_served(q, big, big));
            assert(big.contains(Atom::Active(q.child(v, e), Request::Plain(f))));
            assert(rekeyed_atom(flags, Atom::Active(c, Request::Plain(f))) == Atom::Active(
                rekeyed(flags, c),
                Request::Plain(f),
            ));
        }
    }
    lemma_least_is_least(p, p.seeds(), t);
    assert forall|x: Atom| #[trigger] activation(p).contains(x) implies activation(q).contains(
        rekeyed_atom(q.config.flags, x),
    ) by {
        assert(t.contains(x));
    }
}

/// Whether the `e`-th edge of `u` is followed in the table `a`: the unit
/// is present, the edge takes part, and the edge is not optional or is
/// switched on, by the feature of its name or by a strong request.
pub open spec fn enabled(p: Problem, a: Set<Atom>, u: Unit, e: int) -> bool {
    &&& a.contains(Atom::Present(u))
    &&& p.traversed(u, e)
    &&& (!p.edge(u, e).optional || a.contains(Atom::Active(u, Request::Plain(p.edge(u, e).name@)))
        || exists|f: Seq<char>| #[trigger]
        a.contains(Atom::Active(u, Request::Strong(p.edge(u, e).name@, f))))
}

/// Whether the `e`-th edge of `u` carries the request: it is among the
/// edge's requests, or it is `default` where the edge asks for it and the
/// package at the far end declares it.
pub open spec fn carried(p: Problem, u: Unit, e: int, r: Request) -> bool {
    requests_of(p.edge(u, e).features@).contains(r) || (p.edge(u, e).default_features
        && p.package(p.child(u, e)).table.declares(default_feature()) && r == Request::Plain(
        default_feature(),
    ))
}

/// Whether the table `a` holds a reason for the atom.
///
/// - A unit is present for a root request, or at the far end of an edge
///   that is followed.
/// - A request is in force for a root request; or because a feature that
///   is active in the unit implies it; or because an edge that is
///   followed carries it; or, for a plain request, because of a strong
///   request at the near end of an edge, or of a weak request there while
///   the unit is present.
pub open spec fn caused(p: Problem, a: Set<Atom>, x: Atom) -> bool {
    p.seeds().contains(x) || match x {
        Atom::Present(c) => exists|u: Unit, e: int| #[trigger]
            enabled(p, a, u, e) && p.child(u, e) == c,
        Atom::Active(c, r) => {
            ||| exists|i: int, j: int|
                0 <= i < p.package(c).table.entries@.len() && 0 <= j < p.package(
                    c,
                ).table.entries@[i].implies@.len() && a.contains(
                    Atom::Active(c, Request::Plain(p.package(c).table.entries@[i].name@)),
                ) && r == (#[trigger] p.package(c).table.entries@[i].implies@[j])@
            ||| exists|u: Unit, e: int| #[trigger]
                enabled(p, a, u, e) && p.child(u, e) == c && carried(p, u, e, r)
            ||| exists|u: Unit, e: int| #[trigger]
                by_strong(p, a, u, e, r) && p.child(u, e) == c
            ||| exists|u: Unit, e: int| #[trigger]
                by_weak(p, a, u, e, r) && p.child(u, e) == c
        },
    }
}

/// Whether `r` is the plain request for the feature of a strong request
/// that is in force at the near end of the edge.
pub open spec fn by_strong(p: Problem, a: Set<Atom>, u: Unit, e: int, r: Request) -> bool {
    p.traversed(u, e) && r == Request::Plain(r.feature()) && a.contains(
        Atom::Active(u, Request::Strong(p.edge(u, e).name@, r.feature())),
    )
}

/// Whether `r` is the plain request for the feature of a weak request
/// that is in force at the near end of the edge, while the unit at the
/// far end is present.
pub open spec fn by_weak(p: Problem, a: Set<Atom>, u: Unit, e: int, r: Request) -> bool {
    p.traversed(u, e) && r == Request::Plain(r.feature()) && a.contains(
        Atom::Active(u, Request::Weak(p.edge(u, e).name@, r.feature())),
    ) && a.contains(Atom::Present(p.child(u, e)))
}

/// The unit that an atom speaks of.
pub open spec fn unit_of(x: Atom) -> Unit {
    match x {
        Atom::Present(u) => u,
        Atom::Active(u, _) => u,
    }
}

proof fn lemma_edge_causes(p: Problem, a: Set<Atom>, t: Set<Atom>, u: Unit, e: int)
    requires
        enabled(p, a, u, e),
        edge_served(p, a, u, e),
        forall|x: Atom|
            t.contains(x) <==> a.contains(x) && caused(p, a, x) && caused(
                p,
                a,
                Atom::Present(unit_of(x)),
            ),
    ensures
        edge_served(p, t, u, e),
{
    let c = p.child(u, e);
    assert(enabled(p, a, u, e) && p.child(u, e) == c);
    assert(caused(p, a, Atom::Present(c)));
    assert forall|j: int| 0 <= j < p.edge(u, e).features@.len() implies t.contains(
        Atom::Active(c, (#[trigger] p.edge(u, e).features@[j])@),
    ) by {
        let r = p.edge(u, e).features@[j]@;
        assert(requests_of(p.edge(u, e).features@)[j] == r);
        assert(enabled(p, a, u, e) && p.child(u, e) == c && carried(p, u, e, r));
    }
    if p.edge(u, e).default_features && p.package(c).table.declares(default_feature()) {
        let r = Request::Plain(default_feature());
        assert(enabled(p, a, u, e) && p.child(u, e) == c && carried(p, u, e, r));
    }
}

/// Nothing is activated without a reason: every atom of a resolution has
/// one in the resolution.
pub proof fn law_every_atom_caused(p: Problem)
    ensures
        forall|x: Atom| #[trigger]
            activation(p).contains(x) ==> caused(p, activation(p), x),
{
    let a = activation(p);
    law_least_is_fixpoint(p, p.seeds());
    let t = Set::new(
        |x: Atom| a.contains(x) && caused(p, a, x) && caused(p, a, Atom::Present(unit_of(x))),
    );
    assert(p.seeds().subset_of(t)) by {
        assert forall|x: Atom| p.seeds().contains(x) implies t.contains(x) by {
            let i = choose|i: int| 0 <= i < p.roots.len() && #[trigger] p.seeded_by(i, x);
            assert(p.seeded_by(i, Atom::Present(unit_of(x))));
            assert(p.seeds().contains(Atom::Present(unit_of(x))));
        }
    }
    assert(closed(p, t)) by {
        assert forall|x: Atom| #[trigger] t.contains(x) implies served(p, t, x) by {
            assert(served(p, a, x));
            match x {
                Atom::Present(u) => {
                    assert forall|e: int|
                        #[trigger] p.traversed(u, e) && !p.edge(u, e).optional implies edge_served(
                        p,
                        t,
                        u,
                        e,
                    ) by {
                        lemma_edge_causes(p, a, t, u, e);
                    }
                },
                Atom::Active(u, r) => {
                    assert(a.contains(Atom::Present(u)));
                    assert(t.contains(Atom::Present(u)));
                    match r {
                        Request::Plain(f) => {
                            let table = &p.package(u).table;
                            assert forall|i: int, j: int|
                                0 <= i < table.entries@.len() && 0 <= j
                                    < table.entries@[i].implies@.len() && table.entries@[i].name@
                                    == f implies t.contains(
                                Atom::Active(u, (#[trigger] table.entries@[i].implies@[j])@),
                            ) by {
                                let y = Atom::Active(u, table.entries@[i].implies@[j]@);
                                assert(a.contains(y));
                                assert(caused(p, a, y));
                            }
                            assert forall|e: int|
                                #[trigger] p.traversed(u, e) && p.edge(u, e).name@
                                    == f implies edge_served(p, t, u, e) by {
                                lemma_edge_causes(p, a, t, u, e);
                            }
                        },
                        Request::Strong(d, f) => {
                            assert forall|e: int|
                                #[trigger] p.traversed(u, e) && p.edge(u, e).name@
                                    == d implies edge_served(p, t, u, e) && t.contains(
                                Atom::Active(p.child(u, e), Request::Plain(f)),
                            ) by {
                                assert(a.contains(
                                    Atom::Active(u, Request::Strong(p.edge(u, e).name@, f)),
                                ));
                                assert(enabled(p, a, u, e));
                                lemma_edge_causes(p, a, t, u, e);
                                let y = Request::Plain(f);
                                assert(by_strong(p, a, u, e, y) && p.child(u, e) == p.child(u, e));
                                assert(enabled(p, a, u, e) && p.child(u, e) == p.child(u, e));
                            }
                        },
                        Request::Weak(_, _) => {},
                    }
                },
            }
        }
        assert forall|u: Unit, d: Seq<char>, f: Seq<char>, e: int|
            #![trigger t.contains(Atom::Active(u, Request::Weak(d, f))), p.traversed(u, e)]
            t.contains(Atom::Active(u, Request::Weak(d, f))) && p.traversed(u, e) && p.edge(
                u,
                e,
            ).name@ == d && t.contains(Atom::Present(p.child(u, e))) implies t.contains(
            Atom::Active(p.child(u, e), Request::Plain(f)),
        ) by {
            let c = p.child(u, e);
            let y = Request::Plain(f);
            assert(a.contains(Atom::Active(u, Request::Weak(d, f))));
            assert(a.contains(Atom::Present(c)));
            assert(weak_served(p, a, a));
            assert(a.contains(Atom::Active(c, y)));
            assert(by_weak(p, a, u, e, y) && p.child(u, e) == c);
        }
    }
    lemma_least_is_least(p, p.seeds(), t);
}

/// The requests that reach a unit from outside its own feature table:
/// those of the root requests, those that edges carry which are followed
/// to the unit, and the features of strong and weak requests at the near
/// end of edges to it.
pub open spec fn reaching(p: Problem, a: Set<Atom>, c: Unit) -> Set<Request> {
    Set::new(
        |r: Request|
            {
                ||| p.seeds().contains(Atom::Active(c, r))
                ||| exists|u: Unit, e: int| #[trigger]
                    enabled(p, a, u, e) && p.child(u, e) == c && carried(p, u, e, r)
                ||| exists|u: Unit, e: int| #[trigger]
                    by_strong(p, a, u, e, r) && p.child(u, e) == c
                ||| exists|u: Unit, e: int| #[trigger] by_weak(p, a, u, e, r) && p.child(u, e) == c
            },
    )
}

/// What reaches a unit is in force in it.
proof fn lemma_reaching_in_force(p: Problem, c: Unit, r: Request)
    requires
        reaching(p, activation(p), c).contains(r),
    ensures
        activation(p).contains(Atom::Active(c, r)),
{
    let a = activation(p);
    law_least_is_fixpoint(p, p.seeds());
    if p.seeds().contains(Atom::Active(c, r)) {
    } else if exists|u: Unit, e: int| #[trigger]
        enabled(p, a, u, e) && p.child(u, e) == c && carried(p, u, e, r) {
        let (u, e) = choose|u: Unit, e: int| #[trigger]
            enabled(p, a, u, e) && p.child(u, e) == c && carried(p, u, e, r);
        lemma_enabled_served(p, u, e);
        if requests_of(p.edge(u, e).features@).contains(r) {
            let j = choose|j: int|
                0 <= j < p.edge(u, e).features@.len() && requests_of(p.edge(u, e).features@)[j]
                    == r;
            assert(p.edge(u, e).features@[j]@ == r);
        }
    } else if exists|u: Unit, e: int| #[trigger] by_strong(p, a, u, e, r) && p.child(u, e) == c {
        let (u, e) = choose|u: Unit, e: int| #[trigger]
            by_strong(p, a, u, e, r) && p.child(u, e) == c;
        assert(served(p, a, Atom::Active(u, Request::Strong(p.edge(u, e).name@, r.feature()))));
    } else {
        let (u, e) = choose|u: Unit, e: int| #[trigger]
            by_weak(p, a, u, e, r) && p.child(u, e) == c;
        assert(weak_served(p, a, a));
    }
}

/// What an edge that is followed carries reaches the unit at its far
/// end.
proof fn lemma_edge_reaches(p: Problem, a: Set<Atom>, t: Set<Atom>, u: Unit, e: int)
    requires
        enabled(p, a, u, e),
        edge_served(p, a, u, e),
        forall|x: Atom|
            t.contains(x) <==> a.contains(x) && match x {
                Atom::Present(_) => true,
                Atom::Active(c, r) => closure(&p.package(c).table, reaching(p, a, c)).contains(r),
            },
    ensures
        edge_served(p, t, u, e),
{
    let c = p.child(u, e);
    assert forall|j: int| 0 <= j < p.edge(u, e).features@.len() implies t.contains(
        Atom::Active(c, (#[trigger] p.edge(u, e).features@[j])@),
    ) by {
        let r = p.edge(u, e).features@[j]@;
        assert(requests_of(p.edge(u, e).features@)[j] == r);
        assert(enabled(p, a, u, e) && p.child(u, e) == c && carried(p, u, e, r));
        lemma_closure_holds_start(&p.package(c).table, reaching(p, a, c), r);
    }
    if p.edge(u, e).default_features && p.package(c).table.declares(default_feature()) {
        let r = Request::Plain(default_feature());
        assert(enabled(p, a, u, e) && p.child(u, e) == c && carried(p, u, e, r));
        lemma_closure_holds_start(&p.package(c).table, reaching(p, a, c), r);
    }
}

/// Every entry is an expansion. The requests in force in a unit are
/// exactly the expansion, under the feature table of the unit's package,
/// of the requests that reach the unit. In particular, a unit that two
/// edges lead to holds the expansion of the union of what they carry.
pub proof fn law_entry_is_expansion(p: Problem, c: Unit)
    ensures
        slice(activation(p), c) == closure(&p.package(c).table, reaching(p, activation(p), c)),
{
    let a = activation(p);
    law_least_is_fixpoint(p, p.seeds());
    let t = Set::new(
        |x: Atom|
            a.contains(x) && match x {
                Atom::Present(_) => true,
                Atom::Active(c, r) => closure(&p.package(c).table, reaching(p, a, c)).contains(r),
            },
    );
    assert(p.seeds().subset_of(t)) by {
        assert forall|x: Atom| p.seeds().contains(x) implies t.contains(x) by {
            match x {
                Atom::Present(_) => {},
                Atom::Active(u, r) => {
                    lemma_closure_holds_start(&p.package(u).table, reaching(p, a, u), r);
                },
            }
        }
    }
    assert(closed(p, t)) by {
        assert forall|x: Atom| #[trigger] t.contains(x) implies served(p, t, x) by {
            assert(served(p, a, x));
            match x {
                Atom::Present(u) => {
                    assert forall|e: int|
                        #[trigger] p.traversed(u, e) && !p.edge(u, e).optional implies edge_served(
                        p,
                        t,
                        u,
                        e,
                    ) by {
                        lemma_edge_reaches(p, a, t, u, e);
                    }
                },
                Atom::Active(u, r) => {
                    assert(a.contains(Atom::Present(u)));
                    match r {
                        Request::Plain(f) => {
                            let table = &p.package(u).table;
                            lemma_closure_closed(table, reaching(p, a, u));
                            assert forall|e: int|
                                #[trigger] p.traversed(u, e) && p.edge(u, e).name@
                                    == f implies edge_served(p, t, u, e) by {
                                lemma_edge_reaches(p, a, t, u, e);
                            }
                        },
                        Request::Strong(d, f) => {
                            assert forall|e: int|
                                #[trigger] p.traversed(u, e) && p.edge(u, e).name@
                                    == d implies edge_served(p, t, u, e) && t.contains(
                                Atom::Active(p.child(u, e), Request::Plain(f)),
                            ) by {
                                assert(a.contains(
                                    Atom::Active(u, Request::Strong(p.edge(u, e).name@, f)),
                                ));
                                assert(enabled(p, a, u, e));
                                lemma_edge_reaches(p, a, t, u, e);
                                let y = Request::Plain(f);
                                let k = p.child(u, e);
                                assert(by_strong(p, a, u, e, y) && p.child(u, e) == k);
                                lemma_closure_holds_start(
                                    &p.package(k).table,
                                    reaching(p, a, k),
                                    y,
                                );
                            }
                        },
                        Request::Weak(_, _) => {},
                    }
                },
            }
        }
        assert forall|u: Unit, d: Seq<char>, f: Seq<char>, e: int|
            #![trigger t.contains(Atom::Active(u, Request::Weak(d, f))), p.traversed(u, e)]
            t.contains(Atom::Active(u, Request::Weak(d, f))) && p.traversed(u, e) && p.edge(
                u,
                e,
            ).name@ == d && t.contains(Atom::Present(p.child(u, e))) implies t.contains(
            Atom::Active(p.child(u, e), Request::Plain(f)),
        ) by {
            let k = p.child(u, e);
            let y = Request::Plain(f);
            assert(weak_served(p, a, a));
            assert(a.contains(Atom::Active(k, y)));
            assert(by_weak(p, a, u, e, y) && p.child(u, e) == k);
            lemma_closure_holds_start(&p.package(k).table, reaching(p, a, k), y);
        }
    }
    lemma_least_is_least(p, p.seeds(), t);
    let table = &p.package(c).table;
    let start = reaching(p, a, c);
    assert(closure(table, start).subset_of(slice(a, c))) by {
        lemma_slice_closed(p, a, c);
        assert forall|r: Request| start.contains(r) implies slice(a, c).contains(r) by {
            lemma_reaching_in_force(p, c, r);
        }
        lemma_closure_least(table, start, slice(a, c));
    }
    assert forall|r: Request| slice(a, c).contains(r) implies closure(table, start).contains(
        r,
    ) by {
        assert(t.contains(Atom::Active(c, r)));
    }
    assert(slice(a, c) =~= closure(table, start));
}

/// A package that is no root, and to which no edge that is followed
/// leads, is not built: no unit of it is present and no request is in
/// force in one.
pub proof fn law_unreached_package_absent(p: Problem, package: usize)
    requires
        !p.is_root(package),
        forall|u: Unit, e: int| #[trigger]
            enabled(p, activation(p), u, e) ==> p.edge(u, e).target != package,
    ensures
        forall|x: Atom| #[trigger] activation(p).contains(x) ==> unit_of(x).package != package,
{
    let a = activation(p);
    law_every_atom_caused(p);
    law_least_is_fixpoint(p, p.seeds());
    assert forall|x: Atom| #[trigger] a.contains(x) implies unit_of(x).package != package by {
        let c = unit_of(x);
        assert(served(p, a, x));
        assert(a.contains(Atom::Present(c)));
        assert(caused(p, a, Atom::Present(c)));
        if p.seeds().contains(Atom::Present(c)) {
            let i = choose|i: int|
                0 <= i < p.roots.len() && #[trigger] p.seeded_by(i, Atom::Present(c));
            assert(p.roots[i].package == c.package);
        } else {
            let (u, e) = choose|u: Unit, e: int| #[trigger]
                enabled(p, a, u, e) && p.child(u, e) == c;
            assert(p.edge(u, e).target != package);
        }
    }
}

/// Platform exclusion. With platform filtering switched on, a
/// dependency that is no root, and that present units reach only by
/// edges whose platform restriction admits none of the evaluated
/// targets, is not built, and none of its features is active anywhere.
pub proof fn law_platform_exclusion(p: Problem, package: usize)
    requires
        p.config.flags.filters_platforms(),
        !p.is_root(package),
        forall|u: Unit, e: int|
            activation(p).contains(Atom::Present(u)) && 0 <= e < p.package(u).deps@.len() && (
            #[trigger] p.edge(u, e)).target == package ==> !edge_active(&p.config, &p.edge(u, e)),
    ensures
        forall|x: Atom| #[trigger] activation(p).contains(x) ==> unit_of(x).package != package,
        forall|u: Unit|
            u.package == package ==> !(#[trigger] feature_map(activation(p)).dom().contains(u)),
{
    assert forall|u: Unit, e: int| #[trigger] enabled(p, activation(p), u, e) implies p.edge(
        u,
        e,
    ).target != package by {
        if p.edge(u, e).target == package {
            assert(!edge_active(&p.config, &p.edge(u, e)));
        }
    }
    law_unreached_package_absent(p, package);
    assert forall|u: Unit| u.package == package implies !(#[trigger] feature_map(
        activation(p),
    ).dom().contains(u)) by {
        if activation(p).contains(Atom::Present(u)) {
            assert(unit_of(Atom::Present(u)).package != package);
        }
    }
}

/// Unification across platforms. With platform filtering switched off,
/// an edge counts whatever its platform restriction says: if its unit is
/// present and the edge is not optional, then the unit at its far end is
/// present and the edge's requests are in force there. (A development
/// edge must be one that is followed.)
pub proof fn law_platform_unification(p: Problem, u: Unit, e: int)
    requires
        !p.config.flags.filters_platforms(),
        activation(p).contains(Atom::Present(u)),
        0 <= e < p.package(u).deps@.len(),
        !p.edge(u, e).optional,
        p.edge(u, e).kind == DepKind::Dev ==> dev_followed(&p.config, p.is_root(u.package)),
    ensures
        edge_served(p, activation(p), u, e),
{
    law_least_is_fixpoint(p, p.seeds());
    assert(p.traversed(u, e));
    assert(served(p, activation(p), Atom::Present(u)));
}

/// Host and target, decoupled and not. Take a build edge and a normal
/// edge to the same package, both followed, from units that are compiled
/// for the target with the same test inclusion. The requests of each
/// edge are in force at its far end. With host decoupling the two far
/// ends are distinct units, one for the host and one for the target;
/// without it they are one unit, which therefore holds the requests of
/// both edges.
pub proof fn law_host_target_decoupling(p: Problem, u: Unit, b: int, v: Unit, n: int)
    requires
        enabled(p, activation(p), u, b),
        enabled(p, activation(p), v, n),
        p.edge(u, b).kind == DepKind::Build,
        p.edge(v, n).kind == DepKind::Normal,
        !p.edge(v, n).proc_macro,
        p.edge(u, b).target == p.edge(v, n).target,
        v.kind == CompilationKind::Target,
        u.tests == v.tests,
    ensures
        edge_served(p, activation(p), u, b),
        edge_served(p, activation(p), v, n),
        p.config.flags.decouples_host() ==> p.child(u, b).kind == CompilationKind::Host && p.child(
            v,
            n,
        ).kind == CompilationKind::Target && p.child(u, b) != p.child(v, n),
        !p.config.flags.decouples_host() ==> p.child(u, b) == p.child(v, n),
{
    lemma_enabled_served(p, u, b);
    lemma_enabled_served(p, v, n);
}

/// What an edge that is followed carries is in force at its far end.
pub proof fn lemma_enabled_served(p: Problem, u: Unit, e: int)
    requires
        enabled(p, activation(p), u, e),
    ensures
        edge_served(p, activation(p), u, e),
{
    let a = activation(p);
    law_least_is_fixpoint(p, p.seeds());
    if !p.edge(u, e).optional {
        assert(served(p, a, Atom::Present(u)));
    } else if a.contains(Atom::Active(u, Request::Plain(p.edge(u, e).name@))) {
        assert(served(p, a, Atom::Active(u, Request::Plain(p.edge(u, e).name@))));
    } else {
        let f = choose|f: Seq<char>| #[trigger]
            a.contains(Atom::Active(u, Request::Strong(p.edge(u, e).name@, f)));
        assert(served(p, a, Atom::Active(u, Request::Strong(p.edge(u, e).name@, f))));
    }
}

/// Development dependencies in builds with tests. Whatever the flags,
/// in a build that includes tests a development edge of a present unit
/// that passes the platform filter and is not optional is followed: its
/// requests are in force at its far end.
pub proof fn law_dev_features_with_tests(p: Problem, u: Unit, e: int)
    requires
        p.config.invocation.includes_tests(),
        activation(p).contains(Atom::Present(u)),
        0 <= e < p.package(u).deps@.len(),
        p.edge(u, e).kind == DepKind::Dev,
        edge_active(&p.config, &p.edge(u, e)),
        !p.edge(u, e).optional,
    ensures
        edge_served(p, activation(p), u, e),
{
    assert(enabled(p, activation(p), u, e));
    lemma_enabled_served(p, u, e);
}

/// Development dependencies decoupled. With development dependencies
/// decoupled, a build without tests follows no development edge.
pub proof fn law_dev_edges_skipped(p: Problem, u: Unit, e: int)
    requires
        p.config.flags.decouples_dev(),
        !p.config.invocation.includes_tests(),
        p.edge(u, e).kind == DepKind::Dev,
    ensures
        !p.traversed(u, e),
        !enabled(p, activation(p), u, e),
{
}

/// No feature without a request. A feature is not active in a unit if
/// no root request names it for the unit, no feature of the package
/// implies it, and no edge to the unit that takes part carries it or
/// gets it from a strong or weak request of its near end.
pub proof fn law_unrequested_feature_absent(p: Problem, c: Unit, f: Seq<char>)
    requires
        !p.seeds().contains(Atom::Active(c, Request::Plain(f))),
        forall|i: int, j: int|
            0 <= i < p.package(c).table.entries@.len() && 0 <= j < p.package(
                c,
            ).table.entries@[i].implies@.len() ==> (#[trigger] p.package(
                c,
            ).table.entries@[i].implies@[j])@ != Request::Plain(f),
        forall|u: Unit, e: int|
            #[trigger] p.traversed(u, e) && p.child(u, e) == c ==> !carried(
                p,
                u,
                e,
                Request::Plain(f),
            ) && !activation(p).contains(Atom::Active(u, Request::Strong(p.edge(u, e).name@, f)))
                && !activation(p).contains(Atom::Active(u, Request::Weak(p.edge(u, e).name@, f))),
    ensures
        !activation(p).contains(Atom::Active(c, Request::Plain(f))),
{
    let a = activation(p);
    let x = Atom::Active(c, Request::Plain(f));
    let r = Request::Plain(f);
    law_every_atom_caused(p);
    if a.contains(x) {
        assert(caused(p, a, x));
        if exists|u: Unit, e: int| #[trigger]
            enabled(p, a, u, e) && p.child(u, e) == c && carried(p, u, e, r) {
            let (u, e) = choose|u: Unit, e: int| #[trigger]
                enabled(p, a, u, e) && p.child(u, e) == c && carried(p, u, e, r);
            assert(p.traversed(u, e));
        } else if exists|u: Unit, e: int| #[trigger] by_strong(p, a, u, e, r) && p.child(u, e) == c {
            let (u, e) = choose|u: Unit, e: int| #[trigger]
                by_strong(p, a, u, e, r) && p.child(u, e) == c;
            assert(p.traversed(u, e));
        } else if exists|u: Unit, e: int| #[trigger] by_weak(p, a, u, e, r) && p.child(u, e) == c {
            let (u, e) = choose|u: Unit, e: int| #[trigger]
                by_weak(p, a, u, e, r) && p.child(u, e) == c;
            assert(p.traversed(u, e));
        } else {
        }
    }
}

/// Platform exclusion, feature by feature. With platform filtering
/// switched on, a feature that only edges could bring to a unit whose
/// platform restriction admits none of the evaluated targets is not
/// active there, even if the unit is built for another reason.
pub proof fn law_platform_excluded_feature_absent(p: Problem, c: Unit, f: Seq<char>)
    requires
        p.config.flags.filters_platforms(),
        !p.seeds().contains(Atom::Active(c, Request::Plain(f))),
        forall|i: int, j: int|
            0 <= i < p.package(c).table.entries@.len() && 0 <= j < p.package(
                c,
            ).table.entries@[i].implies@.len() ==> (#[trigger] p.package(
                c,
            ).table.entries@[i].implies@[j])@ != Request::Plain(f),
        forall|u: Unit, e: int|
            #[trigger] p.traversed(u, e) && p.child(u, e) == c && edge_active(
                &p.config,
                &p.edge(u, e),
            ) ==> !carried(p, u, e, Request::Plain(f)) && !activation(p).contains(
                Atom::Active(u, Request::Strong(p.edge(u, e).name@, f)),
            ) && !activation(p).contains(Atom::Active(u, Request::Weak(p.edge(u, e).name@, f))),
    ensures
        !activation(p).contains(Atom::Active(c, Request::Plain(f))),
{
    law_unrequested_feature_absent(p, c, f);
}

/// Development dependencies decoupled, feature by feature. With
/// development dependencies decoupled, in a build without tests, a
/// feature that only development edges could bring to a unit is not
/// active there: that is a feature which no root request names for the
/// unit, which no feature of the package implies, and which every edge
/// to the unit that is no development edge neither carries nor gets from
/// a strong or weak request of its near end.
pub proof fn law_dev_only_feature_absent(p: Problem, c: Unit, f: Seq<char>)
    requires
        p.config.flags.decouples_dev(),
        !p.config.invocation.includes_tests(),
        !p.seeds().contains(Atom::Active(c, Request::Plain(f))),
        forall|i: int, j: int|
            0 <= i < p.package(c).table.entries@.len() && 0 <= j < p.package(
                c,
            ).table.entries@[i].implies@.len() ==> (#[trigger] p.package(
                c,
            ).table.entries@[i].implies@[j])@ != Request::Plain(f),
        forall|u: Unit, e: int|
            #[trigger] p.traversed(u, e) && p.child(u, e) == c && p.edge(u, e).kind != DepKind::Dev
                ==> !carried(p, u, e, Request::Plain(f)) && !activation(p).contains(
                Atom::Active(u, Request::Strong(p.edge(u, e).name@, f)),
            ) && !activation(p).contains(Atom::Active(u, Request::Weak(p.edge(u, e).name@, f))),
    ensures
        !activation(p).contains(Atom::Active(c, Request::Plain(f))),
{
    assert forall|u: Unit, e: int| #[trigger] p.traversed(u, e) implies p.edge(u, e).kind
        != DepKind::Dev by {}
    law_unrequested_feature_absent(p, c, f);
}

/// Development dependencies unified. As long as development
/// dependencies are not decoupled, a `run` or `build` pointed at a
/// package follows its development edges even without tests, and what
/// they carry lands in the same units that the normal edges lead to:
/// test inclusion is no part of the key.
pub proof fn law_dev_features_unified(p: Problem, u: Unit, e: int)
    requires
        !p.config.flags.decouples_dev(),
        p.config.invocation.builds_directly(),
        p.is_root(u.package),
        activation(p).contains(Atom::Present(u)),
        0 <= e < p.package(u).deps@.len(),
        p.edge(u, e).kind == DepKind::Dev,
        edge_active(&p.config, &p.edge(u, e)),
        !p.edge(u, e).optional,
    ensures
        edge_served(p, activation(p), u, e),
        p.child(u, e).tests == TestInclusion::Normal,
{
    assert(enabled(p, activation(p), u, e));
    lemma_enabled_served(p, u, e);
}

/// Weak requests bring no unit. Every unit that is present is the unit
/// of a root request or lies at the far end of an edge that is followed
/// because it is not optional, or because the feature of its name or a
/// strong request switched it on. A weak request is no such reason.
pub proof fn law_weak_request_adds_no_unit(p: Problem, c: Unit)
    requires
        activation(p).contains(Atom::Present(c)),
    ensures
        p.seeds().contains(Atom::Present(c)) || exists|u: Unit, e: int| #[trigger]
            enabled(p, activation(p), u, e) && p.child(u, e) == c,
{
    law_every_atom_caused(p);
    assert(caused(p, activation(p), Atom::Present(c)));
}

/// Weak requests take effect on present units. Where a weak request is
/// in force, its feature is active at the far end of every edge to its
/// dependency that takes part, as soon as the unit there is present.
pub proof fn law_weak_request_contributes(p: Problem, u: Unit, d: Seq<char>, f: Seq<char>, e: int)
    requires
        activation(p).contains(Atom::Active(u, Request::Weak(d, f))),
        p.traversed(u, e),
        p.edge(u, e).name@ == d,
        activation(p).contains(Atom::Present(p.child(u, e))),
    ensures
        activation(p).contains(Atom::Active(p.child(u, e), Request::Plain(f))),
{
    law_least_is_fixpoint(p, p.seeds());
    assert(weak_served(p, activation(p), activation(p)));
}

} // verus!

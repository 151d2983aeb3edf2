//! The state of a propagation in progress and what holds of it at every
//! step.
//!
//! A propagation keeps a table, a queue of deltas that still have to be
//! taken in, and for every unit the features that weak requests hold
//! ready for it. The lemmas here say how each single step keeps the state
//! sound (nothing is in it that cannot be derived) and complete up to the
//! queue (what the table's atoms bring about is in the table or was
//! queued). When the queue is empty the table is the least fixpoint.

use crate::context::Unit;
use crate::expand::table_closed;
use crate::request::Request;
use crate::rules::brought;
use crate::rules::closed;
use crate::rules::closed_upto;
use crate::rules::derivable;
use crate::rules::edge_served;
use crate::rules::least_closed;
use crate::rules::lemma_closed_upto_grows;
use crate::rules::served;
use crate::rules::weak_served;
use crate::rules::Atom;
use crate::rules::Delta;
use crate::rules::Problem;
use vstd::prelude::*;

verus! {

/// The state of a propagation.
pub struct State {
    /// The atoms of the table.
    pub atoms: Set<Atom>,
    /// The features held ready for units by weak requests.
    pub pending: Set<(Unit, Seq<char>)>,
    /// Every delta that was ever queued.
    pub log: Seq<Delta>,
    /// The deltas that still wait.
    pub queue: Seq<Delta>,
}

impl State {
    /// The atoms of the table together with those that were ever queued.
    pub open spec fn all(self) -> Set<Atom> {
        self.atoms.union(brought(self.log))
    }

    pub open spec fn with_atom(self, x: Atom) -> State {
        State { atoms: self.atoms.insert(x), ..self }
    }

    pub open spec fn with_pending(self, c: Unit, f: Seq<char>) -> State {
        State { pending: self.pending.insert((c, f)), ..self }
    }

    pub open spec fn with_delta(self, d: Delta) -> State {
        State { log: self.log.push(d), queue: self.queue.push(d), ..self }
    }

    pub open spec fn without_last(self) -> State {
        State { queue: self.queue.drop_last(), ..self }
    }
}

/// Whether all atoms of a delta are in the table.
pub open spec fn taken_in(atoms: Set<Atom>, d: Delta) -> bool {
    forall|x: Atom| d.holds(x) ==> #[trigger] atoms.contains(x)
}

/// Whether a feature held ready for `c` comes from a weak request on an
/// edge to `c`.
pub open spec fn backed(p: Problem, all: Set<Atom>, c: Unit, f: Seq<char>) -> bool {
    exists|u: Unit, d: Seq<char>, e: int|
        #![trigger all.contains(Atom::Active(u, Request::Weak(d, f))), p.traversed(u, e)]
        all.contains(Atom::Active(u, Request::Weak(d, f))) && p.traversed(u, e) && p.edge(
            u,
            e,
        ).name@ == d && p.child(u, e) == c
}

/// Whether every weak request of the table has its feature held ready at
/// the far end of each edge to its dependency.
pub open spec fn weak_recorded(p: Problem, atoms: Set<Atom>, pending: Set<(Unit, Seq<char>)>) -> bool {
    forall|u: Unit, d: Seq<char>, f: Seq<char>, e: int|
        #![trigger atoms.contains(Atom::Active(u, Request::Weak(d, f))), p.traversed(u, e)]
        atoms.contains(Atom::Active(u, Request::Weak(d, f))) && p.traversed(u, e) && p.edge(
            u,
            e,
        ).name@ == d ==> pending.contains((p.child(u, e), f))
}

/// Whether a unit is present wherever a request is in force.
pub open spec fn units_present(atoms: Set<Atom>) -> bool {
    forall|u: Unit, r: Request| #[trigger]
        atoms.contains(Atom::Active(u, r)) ==> atoms.contains(Atom::Present(u))
}

/// Whether the atom speaks of a package of the graph.
pub open spec fn in_graph(p: Problem, x: Atom) -> bool {
    match x {
        Atom::Present(u) => u.package < p.size(),
        Atom::Active(u, _) => u.package < p.size(),
    }
}

/// What holds of a propagation between two steps. `cur` is the delta
/// that is being taken in, if any.
pub open spec fn inv(p: Problem, base: Set<Atom>, st: State, cur: Option<Delta>) -> bool {
    &&& p.wf()
    &&& forall|x: Atom| #[trigger] st.all().contains(x) ==> derivable(p, base, x) && in_graph(p, x)
    &&& closed_upto(p, st.atoms, st.all())
    &&& forall|i: int|
        0 <= i < st.log.len() ==> taken_in(st.atoms, #[trigger] st.log[i]) || st.queue.contains(
            st.log[i],
        ) || cur == Some(st.log[i])
    &&& forall|i: int|
        0 <= i < st.log.len() ==> table_closed(
            &p.package(st.log[i].unit).table,
            (#[trigger] st.log[i]).requests.to_set(),
        )
    &&& forall|k: int| 0 <= k < st.queue.len() ==> st.log.contains(#[trigger] st.queue[k])
    &&& (cur matches Some(d) ==> st.log.contains(d))
    &&& units_present(st.atoms)
    &&& weak_recorded(p, st.atoms, st.pending)
    &&& forall|c: Unit, f: Seq<char>| #[trigger]
        st.pending.contains((c, f)) ==> backed(p, st.all(), c, f)
}

/// What holds of a table between propagations: it is a fixpoint, and what
/// it holds ready for weak requests is exactly what its weak requests
/// ask for.
pub open spec fn settled(p: Problem, atoms: Set<Atom>, pending: Set<(Unit, Seq<char>)>) -> bool {
    &&& closed(p, atoms)
    &&& forall|x: Atom| #[trigger] atoms.contains(x) ==> in_graph(p, x)
    &&& units_present(atoms)
    &&& weak_recorded(p, atoms, pending)
    &&& forall|c: Unit, f: Seq<char>| #[trigger]
        pending.contains((c, f)) ==> backed(p, atoms, c, f)
}

/// Whether a delta may be queued: its unit belongs to the graph, its
/// atoms can be derived, and its requests are closed for the feature
/// table of its unit's package.
pub open spec fn queueable(p: Problem, base: Set<Atom>, d: Delta) -> bool {
    &&& d.unit.package < p.size()
    &&& forall|x: Atom| d.holds(x) ==> #[trigger] derivable(p, base, x)
    &&& table_closed(&p.package(d.unit).table, d.requests.to_set())
}

pub proof fn lemma_brought_push(log: Seq<Delta>, d: Delta)
    ensures
        brought(log).subset_of(brought(log.push(d))),
        forall|x: Atom| d.holds(x) ==> #[trigger] brought(log.push(d)).contains(x),
        forall|x: Atom| #[trigger]
            brought(log.push(d)).contains(x) ==> brought(log).contains(x) || d.holds(x),
{
    let l2 = log.push(d);
    assert forall|x: Atom| brought(log).contains(x) implies brought(l2).contains(x) by {
        let i = choose|i: int| 0 <= i < log.len() && (#[trigger] log[i]).holds(x);
        assert(l2[i].holds(x));
    }
    assert forall|x: Atom| d.holds(x) implies #[trigger] brought(l2).contains(x) by {
        assert(l2[log.len() as int].holds(x));
    }
    assert forall|x: Atom| #[trigger] brought(l2).contains(x) implies brought(log).contains(x)
        || d.holds(x) by {
        let i = choose|i: int| 0 <= i < l2.len() && (#[trigger] l2[i]).holds(x);
        if i < log.len() {
            assert(log[i].holds(x));
        }
    }
}

pub proof fn lemma_backed_grows(p: Problem, a: Set<Atom>, b: Set<Atom>, c: Unit, f: Seq<char>)
    requires
        backed(p, a, c, f),
        a.subset_of(b),
    ensures
        backed(p, b, c, f),
{
    let (u, d, e) = choose|u: Unit, d: Seq<char>, e: int|
        #![trigger a.contains(Atom::Active(u, Request::Weak(d, f))), p.traversed(u, e)]
        a.contains(Atom::Active(u, Request::Weak(d, f))) && p.traversed(u, e) && p.edge(u, e).name@
            == d && p.child(u, e) == c;
    assert(b.contains(Atom::Active(u, Request::Weak(d, f))) && p.traversed(u, e));
}

/// A settled table with nothing queued is a sound state for any base
/// that holds the table.
pub proof fn lemma_start(p: Problem, base: Set<Atom>, atoms: Set<Atom>, pending: Set<(Unit, Seq<char>)>)
    requires
        p.wf(),
        settled(p, atoms, pending),
        atoms.subset_of(base),
    ensures
        inv(
            p,
            base,
            State { atoms, pending, log: Seq::empty(), queue: Seq::empty() },
            None,
        ),
{
    let st = State { atoms, pending, log: Seq::empty(), queue: Seq::empty() };
    assert(st.all() =~= atoms);
    assert forall|x: Atom| #[trigger] st.all().contains(x) implies derivable(p, base, x)
        && in_graph(p, x) by {
        assert(base.contains(x));
    }
}

/// Queueing a delta keeps the state sound.
pub proof fn lemma_queue(p: Problem, base: Set<Atom>, st: State, cur: Option<Delta>, d: Delta)
    requires
        inv(p, base, st, cur),
        queueable(p, base, d),
    ensures
        inv(p, base, st.with_delta(d), cur),
        st.all().subset_of(st.with_delta(d).all()),
        forall|x: Atom| d.holds(x) ==> #[trigger] st.with_delta(d).all().contains(x),
{
    let s2 = st.with_delta(d);
    lemma_brought_push(st.log, d);
    assert(st.all().subset_of(s2.all()));
    assert forall|x: Atom| #[trigger] s2.all().contains(x) implies derivable(p, base, x)
        && in_graph(p, x) by {
        if st.all().contains(x) {
        } else {
            assert(d.holds(x));
        }
    }
    lemma_closed_upto_grows(p, st.atoms, st.all(), s2.all());
    assert forall|i: int| 0 <= i < s2.log.len() implies taken_in(s2.atoms, #[trigger] s2.log[i])
        || s2.queue.contains(s2.log[i]) || cur == Some(s2.log[i]) by {
        if i < st.log.len() {
            assert(s2.log[i] == st.log[i]);
            if st.queue.contains(st.log[i]) {
                let k = choose|k: int| 0 <= k < st.queue.len() && st.queue[k] == st.log[i];
                assert(s2.queue[k] == st.log[i]);
            }
        } else {
            assert(s2.queue[st.queue.len() as int] == d);
        }
    }
    assert forall|i: int| 0 <= i < s2.log.len() implies table_closed(
        &p.package(s2.log[i].unit).table,
        (#[trigger] s2.log[i]).requests.to_set(),
    ) by {
        if i < st.log.len() {
            assert(s2.log[i] == st.log[i]);
        }
    }
    assert forall|k: int| 0 <= k < s2.queue.len() implies s2.log.contains(
        #[trigger] s2.queue[k],
    ) by {
        if k < st.queue.len() {
            assert(s2.queue[k] == st.queue[k]);
            let i = choose|i: int| 0 <= i < st.log.len() && st.log[i] == st.queue[k];
            assert(s2.log[i] == st.queue[k]);
        } else {
            assert(s2.log[st.log.len() as int] == d);
        }
    }
    if let Some(c) = cur {
        let i = choose|i: int| 0 <= i < st.log.len() && st.log[i] == c;
        assert(s2.log[i] == c);
    }
    assert forall|c: Unit, f: Seq<char>| #[trigger] s2.pending.contains((c, f)) implies backed(
        p,
        s2.all(),
        c,
        f,
    ) by {
        lemma_backed_grows(p, st.all(), s2.all(), c, f);
    }
}

/// Holding a feature ready for a unit keeps the state sound, provided a
/// weak request stands behind it.
pub proof fn lemma_hold_ready(
    p: Problem,
    base: Set<Atom>,
    st: State,
    cur: Option<Delta>,
    c: Unit,
    f: Seq<char>,
)
    requires
        inv(p, base, st, cur),
        backed(p, st.all(), c, f),
    ensures
        inv(p, base, st.with_pending(c, f), cur),
{
    let s2 = st.with_pending(c, f);
    assert(s2.all() == st.all());
}

/// Taking the last delta off the queue keeps the state sound.
pub proof fn lemma_take(p: Problem, base: Set<Atom>, st: State)
    requires
        inv(p, base, st, None),
        st.queue.len() > 0,
    ensures
        inv(p, base, st.without_last(), Some(st.queue.last())),
{
    let s2 = st.without_last();
    let d = st.queue.last();
    assert(s2.all() == st.all());
    assert forall|i: int| 0 <= i < s2.log.len() implies taken_in(s2.atoms, #[trigger] s2.log[i])
        || s2.queue.contains(s2.log[i]) || Some(d) == Some(s2.log[i]) by {
        if st.queue.contains(st.log[i]) {
            let k = choose|k: int| 0 <= k < st.queue.len() && st.queue[k] == st.log[i];
            if k < st.queue.len() - 1 {
                assert(s2.queue[k] == st.log[i]);
            }
        }
    }
    assert forall|k: int| 0 <= k < s2.queue.len() implies s2.log.contains(
        #[trigger] s2.queue[k],
    ) by {
        assert(s2.queue[k] == st.queue[k]);
    }
    assert(st.log.contains(st.queue[st.queue.len() - 1]));
}

/// Once all atoms of the current delta are in the table, the delta is
/// done with.
pub proof fn lemma_finish(p: Problem, base: Set<Atom>, st: State, d: Delta)
    requires
        inv(p, base, st, Some(d)),
        taken_in(st.atoms, d),
    ensures
        inv(p, base, st, None),
{
}

/// Marking a unit present keeps the state sound, once the edges that a
/// present unit follows have been queued together with the features held
/// ready for it.
pub proof fn lemma_mark_present(p: Problem, base: Set<Atom>, st: State, cur: Option<Delta>, u: Unit)
    requires
        inv(p, base, st, cur),
        st.all().contains(Atom::Present(u)),
        forall|e: int|
            #[trigger] p.traversed(u, e) && !p.edge(u, e).optional ==> edge_served(
                p,
                st.all(),
                u,
                e,
            ),
        forall|f: Seq<char>| #[trigger]
            st.pending.contains((u, f)) ==> st.all().contains(
                Atom::Active(u, Request::Plain(f)),
            ),
    ensures
        inv(p, base, st.with_atom(Atom::Present(u)), cur),
        st.with_atom(Atom::Present(u)).all() == st.all(),
{
    let x = Atom::Present(u);
    let s2 = st.with_atom(x);
    assert(s2.all() =~= st.all());
    assert(served(p, s2.all(), x));
    assert(weak_served(p, s2.atoms, s2.all())) by {
        assert forall|v: Unit, d: Seq<char>, f: Seq<char>, e: int|
            #![trigger s2.atoms.contains(Atom::Active(v, Request::Weak(d, f))), p.traversed(v, e)]
            s2.atoms.contains(Atom::Active(v, Request::Weak(d, f))) && p.traversed(v, e) && p.edge(
                v,
                e,
            ).name@ == d && s2.atoms.contains(Atom::Present(p.child(v, e))) implies s2.all().contains(
            Atom::Active(p.child(v, e), Request::Plain(f)),
        ) by {
            assert(st.atoms.contains(Atom::Active(v, Request::Weak(d, f))));
            if p.child(v, e) == u {
                assert(st.pending.contains((u, f)));
            } else {
                assert(st.atoms.contains(Atom::Present(p.child(v, e))));
            }
        }
    }
    assert forall|i: int| 0 <= i < s2.log.len() implies taken_in(s2.atoms, #[trigger] s2.log[i])
        || s2.queue.contains(s2.log[i]) || cur == Some(s2.log[i]) by {
        if taken_in(st.atoms, st.log[i]) {
            assert(taken_in(s2.atoms, s2.log[i]));
        }
    }
}

/// What the caller has seen to before a request is put in force: the
/// edges that the request follows are served, and a weak request has its
/// feature held ready, and queued where the unit is present already.
pub open spec fn prepared(p: Problem, st: State, u: Unit, r: Request) -> bool {
    match r {
        Request::Plain(f) => forall|e: int|
            #[trigger] p.traversed(u, e) && p.edge(u, e).name@ == f ==> edge_served(
                p,
                st.all(),
                u,
                e,
            ),
        Request::Strong(d, f) => forall|e: int|
            #[trigger] p.traversed(u, e) && p.edge(u, e).name@ == d ==> edge_served(
                p,
                st.all(),
                u,
                e,
            ) && st.all().contains(Atom::Active(p.child(u, e), Request::Plain(f))),
        Request::Weak(d, f) => forall|e: int|
            #[trigger] p.traversed(u, e) && p.edge(u, e).name@ == d ==> st.pending.contains(
                (p.child(u, e), f),
            ) && (st.atoms.contains(Atom::Present(p.child(u, e))) ==> st.all().contains(
                Atom::Active(p.child(u, e), Request::Plain(f)),
            )),
    }
}

/// Putting a request of the current delta in force keeps the state
/// sound, once what it brings about has been queued.
pub proof fn lemma_put_in_force(
    p: Problem,
    base: Set<Atom>,
    st: State,
    d: Delta,
    r: Request,
)
    requires
        inv(p, base, st, Some(d)),
        d.requests.contains(r),
        st.atoms.contains(Atom::Present(d.unit)),
        prepared(p, st, d.unit, r),
    ensures
        inv(p, base, st.with_atom(Atom::Active(d.unit, r)), Some(d)),
        st.with_atom(Atom::Active(d.unit, r)).all() == st.all(),
{
    let u = d.unit;
    let x = Atom::Active(u, r);
    let s2 = st.with_atom(x);
    let di = choose|i: int| 0 <= i < st.log.len() && st.log[i] == d;
    assert(st.log[di].holds(x));
    assert(brought(st.log).contains(x));
    assert(s2.all() =~= st.all());
    assert(served(p, s2.all(), x)) by {
        match r {
            Request::Plain(f) => {
                let table = &p.package(u).table;
                assert forall|i: int, j: int|
                    0 <= i < table.entries@.len() && 0 <= j < table.entries@[i].implies@.len()
                        && table.entries@[i].name@ == f implies s2.all().contains(
                    Atom::Active(u, (#[trigger] table.entries@[i].implies@[j])@),
                ) by {
                    let y = table.entries@[i].implies@[j]@;
                    assert(table_closed(table, st.log[di].requests.to_set()));
                    assert(d.requests.to_set().contains(Request::Plain(table.entries@[i].name@)));
                    assert(d.requests.to_set().contains(y));
                    assert(st.log[di].holds(Atom::Active(u, y)));
                    assert(brought(st.log).contains(Atom::Active(u, y)));
                }
            },
            Request::Strong(_, _) => {},
            Request::Weak(_, _) => {},
        }
    }
    assert(weak_served(p, s2.atoms, s2.all())) by {
        assert forall|v: Unit, dn: Seq<char>, f: Seq<char>, e: int|
            #![trigger s2.atoms.contains(Atom::Active(v, Request::Weak(dn, f))), p.traversed(v, e)]
            s2.atoms.contains(Atom::Active(v, Request::Weak(dn, f))) && p.traversed(v, e) && p.edge(
                v,
                e,
            ).name@ == dn && s2.atoms.contains(Atom::Present(p.child(v, e))) implies s2.all().contains(
            Atom::Active(p.child(v, e), Request::Plain(f)),
        ) by {
            assert(st.atoms.contains(Atom::Present(p.child(v, e))));
            if Atom::Active(v, Request::Weak(dn, f)) == x {
            } else {
                assert(st.atoms.contains(Atom::Active(v, Request::Weak(dn, f))));
            }
        }
    }
    assert(weak_recorded(p, s2.atoms, s2.pending)) by {
        assert forall|v: Unit, dn: Seq<char>, f: Seq<char>, e: int|
            #![trigger s2.atoms.contains(Atom::Active(v, Request::Weak(dn, f))), p.traversed(v, e)]
            s2.atoms.contains(Atom::Active(v, Request::Weak(dn, f))) && p.traversed(v, e) && p.edge(
                v,
                e,
            ).name@ == dn implies s2.pending.contains((p.child(v, e), f)) by {
            if Atom::Active(v, Request::Weak(dn, f)) == x {
            } else {
                assert(st.atoms.contains(Atom::Active(v, Request::Weak(dn, f))));
            }
        }
    }
    assert forall|y: Atom| #[trigger] s2.atoms.contains(y) implies served(p, s2.all(), y) by {
        if y != x {
            assert(st.atoms.contains(y));
        }
    }
    assert forall|i: int| 0 <= i < s2.log.len() implies taken_in(s2.atoms, #[trigger] s2.log[i])
        || s2.queue.contains(s2.log[i]) || Some(d) == Some(s2.log[i]) by {
        if taken_in(st.atoms, st.log[i]) {
            assert(taken_in(s2.atoms, s2.log[i]));
        }
    }
}

/// With nothing queued and nothing in hand, the table is the least
/// fixpoint over the base, and it is settled.
pub proof fn lemma_fixpoint(p: Problem, base: Set<Atom>, st: State)
    requires
        inv(p, base, st, None),
        st.queue.len() == 0,
        base.subset_of(st.all()),
    ensures
        st.atoms == least_closed(p, base),
        settled(p, st.atoms, st.pending),
{
    assert(st.all() =~= st.atoms) by {
        assert forall|x: Atom| brought(st.log).contains(x) implies st.atoms.contains(x) by {
            let i = choose|i: int| 0 <= i < st.log.len() && (#[trigger] st.log[i]).holds(x);
            assert(taken_in(st.atoms, st.log[i]));
        }
    }
    assert(closed(p, st.atoms));
    assert(st.atoms =~= least_closed(p, base)) by {
        assert forall|x: Atom| least_closed(p, base).contains(x) implies st.atoms.contains(x) by {
            assert(derivable(p, base, x));
        }
        assert forall|x: Atom| st.atoms.contains(x) implies least_closed(p, base).contains(x) by {
            assert(st.all().contains(x));
        }
    }
    assert forall|x: Atom| #[trigger] st.atoms.contains(x) implies in_graph(p, x) by {
        assert(st.all().contains(x));
    }
}

} // verus!

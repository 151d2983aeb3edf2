//! The activation table: for each unit that is built, the requests that
//! are in force in it.
//!
//! The table has a fixed place for each of the four units that a package
//! can have, so a unit is looked up by position. Next to the requests in
//! force, each place keeps the features that weak requests hold ready for
//! the unit until the unit is built.

use crate::context::lemma_unit_at_slot;
use crate::context::slot_index;
use crate::context::CompilationKind;
use crate::context::TestInclusion;
use crate::context::Unit;
use crate::graph::PackageGraph;
use crate::progress::settled;
use crate::request::requests_of;
use crate::request::FeatureRequest;
use crate::request::Request;
use crate::rules::closed;
use crate::rules::feature_map;
use crate::rules::Atom;
use crate::rules::Delta;
use crate::rules::Problem;
use crate::text::texts_of;
use crate::universe::joined;
use crate::universe::lemma_joined_contains;
use vstd::prelude::*;

verus! {

/// A unit together with requests that reach it.
pub struct WorkItem {
    pub unit: Unit,
    pub delta: Vec<FeatureRequest>,
}

impl View for WorkItem {
    type V = Delta;

    open spec fn view(&self) -> Delta {
        Delta { unit: self.unit, requests: requests_of(self.delta@) }
    }
}

/// The work items in mathematical form.
pub open spec fn deltas_of(items: Seq<WorkItem>) -> Seq<Delta> {
    Seq::new(items.len(), |k: int| items[k]@)
}

/// What the table keeps for one unit.
#[derive(Debug)]
struct UnitEntry {
    present: bool,
    /// The requests in force, each once.
    requests: Vec<FeatureRequest>,
    /// The features that weak requests hold ready for the unit.
    ready: Vec<String>,
}

/// The result of a resolution: for each unit that is built, the requests
/// in force in it. Its view maps each present unit to the names of its
/// active features.
#[derive(Debug)]
pub struct ActivationTable {
    packages: usize,
    /// Four entries to a package, at the positions of its units.
    entries: Vec<UnitEntry>,
}

impl View for ActivationTable {
    type V = Map<Unit, Set<Seq<char>>>;

    open spec fn view(&self) -> Map<Unit, Set<Seq<char>>> {
        feature_map(self.atoms())
    }
}

proof fn lemma_pushed_contains<A>(v: Seq<A>, x: A, y: A)
    ensures
        v.push(x).contains(y) <==> (v.contains(y) || y == x),
{
    if v.contains(y) {
        let i = choose|i: int| 0 <= i < v.len() && v[i] == y;
        assert(v.push(x)[i] == y);
    }
    if y == x {
        assert(v.push(x)[v.len() as int] == y);
    }
    if v.push(x).contains(y) {
        let i = choose|i: int| 0 <= i < v.push(x).len() && v.push(x)[i] == y;
        if i < v.len() {
            assert(v[i] == y);
        }
    }
}

impl ActivationTable {
    /// The table has an entry for every unit of its packages.
    pub closed spec fn wf(&self) -> bool {
        self.entries@.len() == 4 * self.packages
    }

    /// The number of packages that the table was made for.
    pub closed spec fn size(&self) -> int {
        self.packages as int
    }

    /// The atoms of the table: the units that are present and the requests
    /// that are in force.
    pub closed spec fn atoms(&self) -> Set<Atom> {
        Set::new(
            |x: Atom|
                match x {
                    Atom::Present(u) => u.package < self.packages
                        && self.entries@[slot_index(u)].present,
                    Atom::Active(u, r) => u.package < self.packages && requests_of(
                        self.entries@[slot_index(u)].requests@,
                    ).contains(r),
                },
        )
    }

    /// The features held ready for units by weak requests.
    pub closed spec fn ready(&self) -> Set<(Unit, Seq<char>)> {
        Set::new(
            |c: (Unit, Seq<char>)|
                c.0.package < self.packages && texts_of(
                    self.entries@[slot_index(c.0)].ready@,
                ).contains(c.1),
        )
    }

    /// The table is made for the graph of `p` and is a fixpoint of
    /// propagation for `p`.
    pub open spec fn settled_for(&self, p: Problem) -> bool {
        &&& self.wf()
        &&& self.size() == p.size()
        &&& settled(p, self.atoms(), self.ready())
    }

    /// A table without any unit, for a graph of `graph.packages.len()`
    /// packages.
    pub fn empty(graph: &PackageGraph) -> (table: ActivationTable)
        ensures
            table.wf(),
            table.size() == graph.packages@.len(),
            table.atoms() == Set::<Atom>::empty(),
            forall|p: Problem| p.size() == graph.packages@.len() ==> #[trigger] table.settled_for(p),
    {
        let n = graph.packages.len();
        let mut entries: Vec<UnitEntry> = Vec::new();
        let mut k: usize = 0;
        while k < n
            invariant
                k <= n,
                entries@.len() == 4 * k,
                forall|s: int|
                    0 <= s < entries@.len() ==> !(#[trigger] entries@[s]).present
                        && entries@[s].requests@.len() == 0 && entries@[s].ready@.len() == 0,
            decreases n - k,
        {
            entries.push(UnitEntry { present: false, requests: Vec::new(), ready: Vec::new() });
            entries.push(UnitEntry { present: false, requests: Vec::new(), ready: Vec::new() });
            entries.push(UnitEntry { present: false, requests: Vec::new(), ready: Vec::new() });
            entries.push(UnitEntry { present: false, requests: Vec::new(), ready: Vec::new() });
            k += 1;
        }
        let table = ActivationTable { packages: n, entries };
        proof {
            assert forall|x: Atom| !table.atoms().contains(x) by {
                match x {
                    Atom::Present(u) => {
                        lemma_unit_at_slot(u);
                    },
                    Atom::Active(u, r) => {
                        lemma_unit_at_slot(u);
                    },
                }
            }
            assert(table.atoms() =~= Set::<Atom>::empty());
            assert forall|c: (Unit, Seq<char>)| !table.ready().contains(c) by {
                lemma_unit_at_slot(c.0);
            }
            assert(table.ready() =~= Set::<(Unit, Seq<char>)>::empty());
        }
        table
    }

    fn slot(&self, unit: Unit) -> (s: usize)
        requires
            self.wf(),
            unit.package < self.packages,
        ensures
            s == slot_index(unit),
            s < self.entries@.len(),
    {
        let kind: usize = match unit.kind {
            CompilationKind::Host => 2,
            CompilationKind::Target => 0,
        };
        let tests: usize = match unit.tests {
            TestInclusion::IncludesTests => 1,
            TestInclusion::Normal => 0,
        };
        let total = self.entries.len();
        assert(4 * unit.package + 4 <= total);
        4 * unit.package + kind + tests
    }

    /// Whether the unit is built.
    pub fn is_present(&self, unit: Unit) -> (r: bool)
        requires
            self.wf(),
        ensures
            r == self.atoms().contains(Atom::Present(unit)),
            r == self@.dom().contains(unit),
    {
        if unit.package >= self.packages {
            return false;
        }
        let s = self.slot(unit);
        self.entries[s].present
    }

    /// The units that are built, in the order of their positions: by
    /// package, within a package those for the target before those for
    /// the host, and those without tests before those with.
    pub fn units(&self) -> (units: Vec<Unit>)
        requires
            self.wf(),
        ensures
            forall|u: Unit| units@.contains(u) <==> self.atoms().contains(Atom::Present(u)),
            forall|i: int, j: int|
                0 <= i < j < units@.len() ==> slot_index(#[trigger] units@[i]) < slot_index(
                    #[trigger] units@[j],
                ),
            units@.no_duplicates(),
    {
        let mut units: Vec<Unit> = Vec::new();
        let mut s: usize = 0;
        while s < self.entries.len()
            invariant
                s <= self.entries.len(),
                self.wf(),
                forall|k: int| 0 <= k < units@.len() ==> slot_index(#[trigger] units@[k]) < s,
                forall|i: int, j: int|
                    0 <= i < j < units@.len() ==> slot_index(#[trigger] units@[i]) < slot_index(
                        #[trigger] units@[j],
                    ),
                forall|k: int|
                    0 <= k < units@.len() ==> self.atoms().contains(
                        Atom::Present(#[trigger] units@[k]),
                    ),
                forall|u: Unit|
                    slot_index(u) < s && self.atoms().contains(Atom::Present(u))
                        ==> #[trigger] units@.contains(u),
                units@.no_duplicates(),
            decreases self.entries.len() - s,
        {
            if self.entries[s].present {
                let unit = Unit {
                    package: s / 4,
                    kind: if s % 4 >= 2 {
                        CompilationKind::Host
                    } else {
                        CompilationKind::Target
                    },
                    tests: if s % 2 == 1 {
                        TestInclusion::IncludesTests
                    } else {
                        TestInclusion::Normal
                    },
                };
                assert(slot_index(unit) == s);
                let ghost before = units@;
                units.push(unit);
                proof {
                    assert forall|u: Unit|
                        slot_index(u) < s + 1 && self.atoms().contains(
                            Atom::Present(u),
                        ) implies #[trigger] units@.contains(u) by {
                        lemma_unit_at_slot(u);
                        lemma_pushed_contains(before, unit, u);
                        if slot_index(u) == s {
                            assert(u == unit);
                        } else {
                            assert(before.contains(u));
                        }
                    }
                }
            } else {
                assert forall|u: Unit|
                    slot_index(u) < s + 1 && self.atoms().contains(
                        Atom::Present(u),
                    ) implies #[trigger] units@.contains(u) by {
                    if slot_index(u) == s {
                        assert(!self.entries@[slot_index(u)].present);
                    }
                }
            }
            s += 1;
        }
        proof {
            assert forall|u: Unit| units@.contains(u) <==> self.atoms().contains(
                Atom::Present(u),
            ) by {
                lemma_unit_at_slot(u);
            }
        }
        units
    }

    /// Whether the request is in force in the unit.
    pub fn has_request(&self, unit: Unit, request: &FeatureRequest) -> (r: bool)
        requires
            self.wf(),
        ensures
            r == self.atoms().contains(Atom::Active(unit, request@)),
    {
        if unit.package >= self.packages {
            return false;
        }
        let s = self.slot(unit);
        request.is_in(&self.entries[s].requests)
    }

    /// Whether the feature is active in the unit.
    pub fn has_feature(&self, unit: Unit, name: &String) -> (r: bool)
        requires
            self.wf(),
        ensures
            r == self.atoms().contains(Atom::Active(unit, Request::Plain(name@))),
            self@.dom().contains(unit) ==> r == self@[unit].contains(name@),
    {
        let request = FeatureRequest::plain(name);
        self.has_request(unit, &request)
    }

    /// The names of the features that are active in the unit, each once.
    pub fn features(&self, unit: Unit) -> (names: Vec<String>)
        requires
            self.wf(),
        ensures
            forall|f: Seq<char>|
                texts_of(names@).contains(f) <==> self.atoms().contains(
                    Atom::Active(unit, Request::Plain(f)),
                ),
            texts_of(names@).no_duplicates(),
    {
        let mut names: Vec<String> = Vec::new();
        if unit.package >= self.packages {
            return names;
        }
        let s = self.slot(unit);
        let requests = &self.entries[s].requests;
        let mut k: usize = 0;
        while k < requests.len()
            invariant
                k <= requests.len(),
                texts_of(names@).no_duplicates(),
                forall|m: int|
                    0 <= m < names@.len() ==> requests_of(requests@).contains(
                        Request::Plain(#[trigger] texts_of(names@)[m]),
                    ),
                forall|m: int|
                    0 <= m < k ==> ((#[trigger] requests@[m])@ == Request::Plain(
                        requests@[m]@.feature(),
                    ) ==> texts_of(names@).contains(requests@[m]@.feature())),
            decreases requests.len() - k,
        {
            match &requests[k] {
                FeatureRequest::Plain { feature } => {
                    let ghost before = texts_of(names@);
                    let mut found = false;
                    let mut m: usize = 0;
                    while m < names.len()
                        invariant
                            m <= names.len(),
                            !found ==> forall|q: int| 0 <= q < m ==> (#[trigger] names@[q])@ != feature@,
                            found ==> texts_of(names@).contains(feature@),
                        decreases names.len() - m,
                    {
                        if names[m] == *feature {
                            assert(texts_of(names@)[m as int] == feature@);
                            found = true;
                        }
                        m += 1;
                    }
                    assert(requests_of(requests@)[k as int] == Request::Plain(feature@));
                    if !found {
                        names.push(feature.clone());
                        proof {
                            let now = texts_of(names@);
                            assert(now =~= before.push(feature@));
                            assert(!before.contains(feature@)) by {
                                if before.contains(feature@) {
                                    let q = choose|q: int| 0 <= q < before.len() && before[q] == feature@;
                                    assert(names@[q]@ == feature@);
                                }
                            }
                            assert forall|q: int|
                                0 <= q < k + 1 && (#[trigger] requests@[q])@ == Request::Plain(
                                    requests@[q]@.feature(),
                                ) implies now.contains(requests@[q]@.feature()) by {
                                lemma_pushed_contains(before, feature@, requests@[q]@.feature());
                            }
                        }
                    }
                },
                _ => {},
            }
            k += 1;
        }
        proof {
            assert forall|f: Seq<char>|
                texts_of(names@).contains(f) <==> self.atoms().contains(
                    Atom::Active(unit, Request::Plain(f)),
                ) by {
                if self.atoms().contains(Atom::Active(unit, Request::Plain(f))) {
                    let m = choose|m: int|
                        0 <= m < requests@.len() && requests_of(requests@)[m] == Request::Plain(f);
                    assert(requests@[m]@ == Request::Plain(requests@[m]@.feature()));
                }
            }
        }
        names
    }

    /// The features held ready for one unit, in the order in which they
    /// were recorded.
    pub closed spec fn ready_list(&self, unit: Unit) -> Seq<Seq<char>> {
        texts_of(self.entries@[slot_index(unit)].ready@)
    }

    pub proof fn lemma_ready_list(&self, unit: Unit)
        requires
            unit.package < self.size(),
        ensures
            forall|f: Seq<char>|
                self.ready().contains((unit, f)) <==> #[trigger] self.ready_list(unit).contains(f),
    {
    }

    /// Every request that is in force in some unit.
    pub closed spec fn mentioned(&self) -> Seq<Request> {
        joined(
            Seq::new(self.entries@.len(), |s: int| requests_of(self.entries@[s].requests@)),
            self.entries@.len() as int,
        )
    }

    pub proof fn lemma_mentioned(&self, unit: Unit, request: Request)
        requires
            self.wf(),
            self.atoms().contains(Atom::Active(unit, request)),
        ensures
            self.mentioned().contains(request),
    {
        let parts = Seq::new(
            self.entries@.len(),
            |s: int| requests_of(self.entries@[s].requests@),
        );
        let s = slot_index(unit);
        let j = choose|j: int| 0 <= j < parts[s].len() && parts[s][j] == request;
        lemma_joined_contains(parts, self.entries@.len() as int, s, j);
    }

    pub(crate) fn ready_count(&self, unit: Unit) -> (n: usize)
        requires
            self.wf(),
            unit.package < self.size(),
        ensures
            n == self.ready_list(unit).len(),
    {
        let s = self.slot(unit);
        self.entries[s].ready.len()
    }

    pub(crate) fn ready_name(&self, unit: Unit, k: usize) -> (name: String)
        requires
            self.wf(),
            unit.package < self.size(),
            k < self.ready_list(unit).len(),
        ensures
            name@ == self.ready_list(unit)[k as int],
    {
        let s = self.slot(unit);
        self.entries[s].ready[k].clone()
    }

    pub(crate) fn set_present(&mut self, unit: Unit)
        requires
            old(self).wf(),
            unit.package < old(self).size(),
        ensures
            final(self).wf(),
            final(self).size() == old(self).size(),
            final(self).atoms() == old(self).atoms().insert(Atom::Present(unit)),
            final(self).ready() == old(self).ready(),
    {
        let s = self.slot(unit);
        self.entries[s].present = true;
        proof {
            assert(self.atoms() =~= old(self).atoms().insert(Atom::Present(unit)));
            assert(self.ready() =~= old(self).ready());
        }
    }

    pub(crate) fn insert(&mut self, unit: Unit, request: FeatureRequest)
        requires
            old(self).wf(),
            unit.package < old(self).size(),
        ensures
            final(self).wf(),
            final(self).size() == old(self).size(),
            final(self).atoms() == old(self).atoms().insert(Atom::Active(unit, request@)),
            final(self).ready() == old(self).ready(),
    {
        let s = self.slot(unit);
        let ghost before = requests_of(self.entries@[s as int].requests@);
        self.entries[s].requests.push(request);
        proof {
            let now = requests_of(self.entries@[s as int].requests@);
            assert(now =~= before.push(request@));
            assert forall|x: Atom|
                self.atoms().contains(x) <==> old(self).atoms().insert(
                    Atom::Active(unit, request@),
                ).contains(x) by {
                match x {
                    Atom::Present(u) => {},
                    Atom::Active(u, r) => {
                        if u == unit {
                            lemma_pushed_contains(before, request@, r);
                        }
                    },
                }
            }
            assert(self.atoms() =~= old(self).atoms().insert(Atom::Active(unit, request@)));
            assert(self.ready() =~= old(self).ready());
        }
    }

    pub(crate) fn hold_ready(&mut self, unit: Unit, name: String)
        requires
            old(self).wf(),
            unit.package < old(self).size(),
        ensures
            final(self).wf(),
            final(self).size() == old(self).size(),
            final(self).atoms() == old(self).atoms(),
            final(self).ready() == old(self).ready().insert((unit, name@)),
    {
        let s = self.slot(unit);
        let ghost before = texts_of(self.entries@[s as int].ready@);
        let mut k: usize = 0;
        while k < self.entries[s].ready.len()
            invariant
                k <= self.entries@[s as int].ready@.len(),
                s < self.entries@.len(),
                s == slot_index(unit),
                unit.package < self.size(),
                self.wf(),
                *self == *old(self),
                before == texts_of(self.entries@[s as int].ready@),
                forall|m: int| 0 <= m < k ==> before[m] != name@,
            decreases self.entries@[s as int].ready@.len() - k,
        {
            if self.entries[s].ready[k] == name {
                proof {
                    assert(before[k as int] == name@);
                    assert(self.ready().contains((unit, name@)));
                    assert(self.ready() =~= old(self).ready().insert((unit, name@)));
                }
                return ;
            }
            k += 1;
        }
        self.entries[s].ready.push(name);
        proof {
            let now = texts_of(self.entries@[s as int].ready@);
            assert(now =~= before.push(name@));
            assert forall|c: (Unit, Seq<char>)|
                self.ready().contains(c) <==> old(self).ready().insert((unit, name@)).contains(
                    c,
                ) by {
                if c.0 == unit {
                    lemma_pushed_contains(before, name@, c.1);
                }
            }
            assert(self.ready() =~= old(self).ready().insert((unit, name@)));
            assert(self.atoms() =~= old(self).atoms());
        }
    }
}

} // verus!

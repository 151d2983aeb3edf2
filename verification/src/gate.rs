//! The required-features gate: whether a declared artifact can be built
//! with the features that a resolution activated.
//!
//! Nothing here writes: a finished table is read, nothing is propagated and no
//! activation is changed.

use crate::activation::ActivationTable;
use crate::context::child_unit;
use crate::context::child_unit_of;
use crate::context::ResolverBehaviorFlags;
use crate::context::Unit;
use crate::graph::PackageGraph;
use crate::request::requests_of;
use crate::request::FeatureRequest;
use crate::request::Request;
use crate::text::insert_ordered;
use crate::text::ordered;
use crate::text::texts_of;
use vstd::prelude::*;
use vstd::string::*;

verus! {

/// A binary, example or test that a package declares, together with the
/// context in which it is compiled and the features that it requires.
pub struct Artifact {
    pub name: String,
    /// The owning package in the artifact's compilation context.
    pub unit: Unit,
    pub required_features: Vec<FeatureRequest>,
}

/// What keeps an artifact from being built: the artifact, its package, and every
/// required expression that is not met, in dictionary order.
#[derive(Debug)]
pub struct MissingFeatures {
    pub artifact: String,
    pub package: String,
    pub missing: Vec<String>,
}

/// Whether a required expression is met for the unit `u`.
///
/// - `feat`: the unit is present and the feature is active in it.
/// - `dep/feat`: for some dependency of that name, whether it takes part
///   in the resolution or not, the unit that its edge leads to is present
///   and has the feature active.
/// - `dep?/feat`: for every dependency of that name, the unit that its
///   edge leads to has the feature active if it is present at all.
pub open spec fn requirement_met(
    graph: &PackageGraph,
    flags: ResolverBehaviorFlags,
    table: Map<Unit, Set<Seq<char>>>,
    u: Unit,
    r: Request,
) -> bool {
    let deps = graph.packages@[u.package as int].deps@;
    match r {
        Request::Plain(f) => table.dom().contains(u) && table[u].contains(f),
        Request::Strong(d, f) => exists|e: int|
            0 <= e < deps.len() && (#[trigger] deps[e]).name@ == d && table.dom().contains(
                child_unit_of(flags, u, &deps[e]),
            ) && table[child_unit_of(flags, u, &deps[e])].contains(f),
        Request::Weak(d, f) => forall|e: int|
            0 <= e < deps.len() && (#[trigger] deps[e]).name@ == d && table.dom().contains(
                child_unit_of(flags, u, &deps[e]),
            ) ==> table[child_unit_of(flags, u, &deps[e])].contains(f),
    }
}

/// The written forms of those among the first `n` required expressions
/// that are not met, in the order of the declaration.
pub open spec fn missing_upto(
    graph: &PackageGraph,
    flags: ResolverBehaviorFlags,
    table: Map<Unit, Set<Seq<char>>>,
    u: Unit,
    required: Seq<Request>,
    n: int,
) -> Seq<Seq<char>>
    decreases n,
{
    if n <= 0 {
        Seq::empty()
    } else {
        let before = missing_upto(graph, flags, table, u, required, n - 1);
        if requirement_met(graph, flags, table, u, required[n - 1]) {
            before
        } else {
            before.push(required[n - 1].expr())
        }
    }
}

/// Whether a requirement is met by the table.
pub fn meets(
    graph: &PackageGraph,
    flags: &ResolverBehaviorFlags,
    table: &ActivationTable,
    unit: Unit,
    request: &FeatureRequest,
) -> (r: bool)
    requires
        table.wf(),
        unit.package < graph.packages@.len(),
    ensures
        r == requirement_met(graph, *flags, table@, unit, request@),
{
    let deps = &graph.packages[unit.package].deps;
    match request {
        FeatureRequest::Plain { feature } => table.is_present(unit) && table.has_feature(
            unit,
            feature,
        ),
        FeatureRequest::Strong { dep, feature } => {
            let mut e: usize = 0;
            while e < deps.len()
                invariant
                    e <= deps.len(),
                    table.wf(),
                    unit.package < graph.packages@.len(),
                    request@ == Request::Strong(dep@, feature@),
                    deps == &graph.packages@[unit.package as int].deps,
                    forall|k: int|
                        0 <= k < e ==> !((#[trigger] deps@[k]).name@ == dep@
                            && table@.dom().contains(child_unit_of(*flags, unit, &deps@[k]))
                            && table@[child_unit_of(*flags, unit, &deps@[k])].contains(feature@)),
                decreases deps.len() - e,
            {
                if deps[e].name == *dep {
                    let child = child_unit(flags, unit, &deps[e]);
                    if table.is_present(child) && table.has_feature(child, feature) {
                        assert(deps@[e as int].name@ == dep@);
                        return true;
                    }
                }
                e += 1;
            }
            false
        },
        FeatureRequest::Weak { dep, feature } => {
            let mut e: usize = 0;
            while e < deps.len()
                invariant
                    e <= deps.len(),
                    table.wf(),
                    unit.package < graph.packages@.len(),
                    request@ == Request::Weak(dep@, feature@),
                    deps == &graph.packages@[unit.package as int].deps,
                    forall|k: int|
                        0 <= k < e && (#[trigger] deps@[k]).name@ == dep@ && table@.dom().contains(
                            child_unit_of(*flags, unit, &deps@[k]),
                        ) ==> table@[child_unit_of(*flags, unit, &deps@[k])].contains(feature@),
                decreases deps.len() - e,
            {
                if deps[e].name == *dep {
                    let child = child_unit(flags, unit, &deps[e]);
                    if table.is_present(child) && !table.has_feature(child, feature) {
                        assert(deps@[e as int].name@ == dep@);
                        return false;
                    }
                }
                e += 1;
            }
            true
        },
    }
}

/// Decides whether an artifact can be built. All its required expressions must be met by the
/// table; if some are not, all of them are reported, in dictionary
/// order, and not only the first.
pub fn is_runnable(
    graph: &PackageGraph,
    flags: &ResolverBehaviorFlags,
    table: &ActivationTable,
    artifact: &Artifact,
) -> (r: Result<(), MissingFeatures>)
    requires
        table.wf(),
        artifact.unit.package < graph.packages@.len(),
    ensures
        r is Ok <==> forall|j: int|
            0 <= j < artifact.required_features@.len() ==> requirement_met(
                graph,
                *flags,
                table@,
                artifact.unit,
                (#[trigger] artifact.required_features@[j])@,
            ),
        match r {
            Ok(_) => true,
            Err(m) => {
                &&& m.artifact@ == artifact.name@
                &&& m.package@ == graph.packages@[artifact.unit.package as int].id.name@
                &&& ordered(texts_of(m.missing@))
                &&& texts_of(m.missing@).to_multiset() == missing_upto(
                    graph,
                    *flags,
                    table@,
                    artifact.unit,
                    requests_of(artifact.required_features@),
                    artifact.required_features@.len() as int,
                ).to_multiset()
            },
        },
{
    let required = &artifact.required_features;
    let ghost reqs = requests_of(required@);
    let mut missing: Vec<String> = Vec::new();
    let mut j: usize = 0;
    assert(texts_of(missing@) =~= Seq::<Seq<char>>::empty());
    while j < required.len()
        invariant
            j <= required.len(),
            table.wf(),
            artifact.unit.package < graph.packages@.len(),
            required == &artifact.required_features,
            reqs == requests_of(required@),
            ordered(texts_of(missing@)),
            texts_of(missing@).to_multiset() == missing_upto(
                graph,
                *flags,
                table@,
                artifact.unit,
                reqs,
                j as int,
            ).to_multiset(),
            missing@.len() == missing_upto(graph, *flags, table@, artifact.unit, reqs, j as int).len(),
            missing@.len() == 0 <==> forall|k: int|
                0 <= k < j ==> requirement_met(
                    graph,
                    *flags,
                    table@,
                    artifact.unit,
                    (#[trigger] required@[k])@,
                ),
        decreases required.len() - j,
    {
        assert(reqs[j as int] == required@[j as int]@);
        if !meets(graph, flags, table, artifact.unit, &required[j]) {
            let ghost before = missing_upto(graph, *flags, table@, artifact.unit, reqs, j as int);
            insert_ordered(&mut missing, required[j].to_expr());
            proof {
                vstd::seq_lib::to_multiset_build(before, reqs[j as int].expr());
            }
        }
        j += 1;
    }
    if missing.len() == 0 {
        Ok(())
    } else {
        Err(
            MissingFeatures {
                artifact: artifact.name.clone(),
                package: graph.packages[artifact.unit.package].id.name.clone(),
                missing,
            },
        )
    }
}

/// The first `n` names, each between backquotes, with a comma and a
/// space between them.
pub open spec fn quoted_list(names: Seq<Seq<char>>, n: int) -> Seq<char>
    decreases n,
{
    if n <= 0 {
        Seq::empty()
    } else if n == 1 {
        "`"@ + names[0] + "`"@
    } else {
        quoted_list(names, n - 1) + ", "@ + "`"@ + names[n - 1] + "`"@
    }
}

/// The first `n` names with a space between them.
pub open spec fn spaced_list(names: Seq<Seq<char>>, n: int) -> Seq<char>
    decreases n,
{
    if n <= 0 {
        Seq::empty()
    } else if n == 1 {
        names[0]
    } else {
        spaced_list(names, n - 1) + " "@ + names[n - 1]
    }
}

/// The text of the diagnostic: what the artifact requires, and how to
/// ask for it.
pub open spec fn diagnostic(artifact: Seq<char>, package: Seq<char>, missing: Seq<Seq<char>>) -> Seq<
    char,
> {
    "target `"@ + artifact + "` in package `"@ + package + "` requires the features: "@
        + quoted_list(missing, missing.len() as int)
        + "\nConsider enabling them by passing, e.g., `--features=\""@ + spaced_list(
        missing,
        missing.len() as int,
    ) + "\"`"@
}

impl MissingFeatures {
    /// The diagnostic for the failure.
    pub fn message(&self) -> (text: String)
        ensures
            text@ == diagnostic(self.artifact@, self.package@, texts_of(self.missing@)),
    {
        let ghost names = texts_of(self.missing@);
        let mut quoted = String::new();
        let mut spaced = String::new();
        let mut k: usize = 0;
        while k < self.missing.len()
            invariant
                k <= self.missing.len(),
                names == texts_of(self.missing@),
                quoted@ == quoted_list(names, k as int),
                spaced@ == spaced_list(names, k as int),
            decreases self.missing.len() - k,
        {
            let ghost q0 = quoted@;
            let ghost s0 = spaced@;
            if k > 0 {
                quoted.append(", ");
                spaced.append(" ");
            }
            quoted.append("`");
            quoted.append(self.missing[k].as_str());
            quoted.append("`");
            spaced.append(self.missing[k].as_str());
            proof {
                assert(names[k as int] == self.missing@[k as int]@);
                if k == 0 {
                    assert(q0 =~= Seq::<char>::empty());
                    assert(s0 =~= Seq::<char>::empty());
                    assert(quoted@ =~= "`"@ + names[0] + "`"@);
                    assert(spaced@ =~= names[0]);
                } else {
                    assert(quoted@ =~= q0 + ", "@ + "`"@ + names[k as int] + "`"@);
                    assert(spaced@ =~= s0 + " "@ + names[k as int]);
                }
            }
            k += 1;
        }
        let mut text = String::new();
        text.append("target `");
        text.append(self.artifact.as_str());
        text.append("` in package `");
        text.append(self.package.as_str());
        text.append("` requires the features: ");
        text.append(quoted.as_str());
        text.append("\nConsider enabling them by passing, e.g., `--features=\"");
        text.append(spaced.as_str());
        text.append("\"`");
        proof {
            assert(text@ =~= diagnostic(self.artifact@, self.package@, names));
        }
        text
    }
}

} // verus!

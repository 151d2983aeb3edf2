//! The resolved package graph and the feature tables of its packages.

use crate::platform::Platform;
use crate::request::FeatureRequest;
use vstd::prelude::*;

verus! {

/// What identifies a package: its name, its version and where it comes
/// from.
#[derive(Debug)]
pub struct PackageId {
    pub name: String,
    pub version: String,
    pub source: String,
}

impl PackageId {
    /// Whether two identities are the same.
    pub fn same(&self, other: &PackageId) -> (r: bool)
        ensures
            r == (self.name@ == other.name@ && self.version@ == other.version@ && self.source@
                == other.source@),
    {
        self.name == other.name && self.version == other.version && self.source == other.source
    }
}

/// The role of a dependency for the package that declares it.
#[derive(Clone, Copy, Debug, PartialEq, Eq, Structural)]
pub enum DepKind {
    Normal,
    Build,
    Dev,
}

/// A dependency of one package on another.
pub struct DependencyEdge {
    /// The name by which the declaring package's features refer to the
    /// dependency.
    pub name: String,
    /// The position of the target package in the graph.
    pub target: usize,
    pub kind: DepKind,
    /// The platforms on which the dependency exists; `None` for all.
    pub platform: Option<Platform>,
    pub optional: bool,
    pub default_features: bool,
    /// The features that the edge asks of its target.
    pub features: Vec<FeatureRequest>,
    /// Whether the target is a procedural macro, which runs on the host.
    pub proc_macro: bool,
}

/// One declared feature with the requests that it implies, in the order
/// of the declaration.
pub struct FeatureDecl {
    pub name: String,
    pub implies: Vec<FeatureRequest>,
}

/// The features that a package declares.
pub struct FeatureTable {
    pub entries: Vec<FeatureDecl>,
}

impl FeatureTable {
    /// Whether the table declares a feature called `name`.
    pub open spec fn declares(&self, name: Seq<char>) -> bool {
        exists|i: int| 0 <= i < self.entries@.len() && (#[trigger] self.entries@[i]).name@ == name
    }

    pub fn has_feature(&self, name: &String) -> (r: bool)
        ensures
            r == self.declares(name@),
    {
        let mut i: usize = 0;
        while i < self.entries.len()
            invariant
                i <= self.entries.len(),
                forall|j: int| 0 <= j < i ==> (#[trigger] self.entries@[j]).name@ != name@,
            decreases self.entries.len() - i,
        {
            if self.entries[i].name == *name {
                return true;
            }
            i += 1;
        }
        false
    }
}

/// A package of the graph.
pub struct Package {
    pub id: PackageId,
    pub table: FeatureTable,
    pub deps: Vec<DependencyEdge>,
}

impl Package {
    /// Whether the package has an optional dependency called `name`.
    pub open spec fn has_optional_dep(&self, name: Seq<char>) -> bool {
        exists|e: int|
            0 <= e < self.deps@.len() && (#[trigger] self.deps@[e]).optional && self.deps@[e].name@
                == name
    }

    /// Whether the package has a dependency called `name`.
    pub open spec fn has_dep(&self, name: Seq<char>) -> bool {
        exists|e: int| 0 <= e < self.deps@.len() && (#[trigger] self.deps@[e]).name@ == name
    }

    /// Whether `name` can be switched on for the package: it is a declared
    /// feature or the name of an optional dependency.
    pub open spec fn knows(&self, name: Seq<char>) -> bool {
        self.table.declares(name) || self.has_optional_dep(name)
    }

    pub fn optional_dep_named(&self, name: &String) -> (r: bool)
        ensures
            r == self.has_optional_dep(name@),
    {
        let mut e: usize = 0;
        while e < self.deps.len()
            invariant
                e <= self.deps.len(),
                forall|j: int|
                    0 <= j < e ==> !((#[trigger] self.deps@[j]).optional && self.deps@[j].name@
                        == name@),
            decreases self.deps.len() - e,
        {
            if self.deps[e].optional && self.deps[e].name == *name {
                return true;
            }
            e += 1;
        }
        false
    }

    pub fn dep_named(&self, name: &String) -> (r: bool)
        ensures
            r == self.has_dep(name@),
    {
        let mut e: usize = 0;
        while e < self.deps.len()
            invariant
                e <= self.deps.len(),
                forall|j: int| 0 <= j < e ==> (#[trigger] self.deps@[j]).name@ != name@,
            decreases self.deps.len() - e,
        {
            if self.deps[e].name == *name {
                return true;
            }
            e += 1;
        }
        false
    }

    pub fn knows_name(&self, name: &String) -> (r: bool)
        ensures
            r == self.knows(name@),
    {
        self.table.has_feature(name) || self.optional_dep_named(name)
    }
}

/// The packages of one resolution and the edges between them. An edge
/// names its target by the target's position in `packages`.
pub struct PackageGraph {
    pub packages: Vec<Package>,
}

impl PackageGraph {
    /// Every edge leads to a package of the graph.
    pub open spec fn wf(&self) -> bool {
        forall|p: int, e: int|
            0 <= p < self.packages@.len() && 0 <= e < self.packages@[p].deps@.len() ==> (
            #[trigger] self.packages@[p].deps@[e]).target < self.packages@.len()
    }

    /// Checks that every edge leads to a package of the graph.
    pub fn is_well_formed(&self) -> (r: bool)
        ensures
            r == self.wf(),
    {
        let n = self.packages.len();
        let mut p: usize = 0;
        while p < n
            invariant
                p <= n,
                n == self.packages@.len(),
                forall|q: int, e: int|
                    0 <= q < p && 0 <= e < self.packages@[q].deps@.len() ==> (
                    #[trigger] self.packages@[q].deps@[e]).target < n,
            decreases n - p,
        {
            let deps = &self.packages[p].deps;
            let mut e: usize = 0;
            while e < deps.len()
                invariant
                    e <= deps.len(),
                    p < n,
                    n == self.packages@.len(),
                    *deps == self.packages@[p as int].deps,
                    forall|j: int| 0 <= j < e ==> (#[trigger] deps@[j]).target < n,
                decreases deps.len() - e,
            {
                if deps[e].target >= n {
                    assert(self.packages@[p as int].deps@[e as int].target >= n);
                    return false;
                }
                e += 1;
            }
            p += 1;
        }
        true
    }

    /// The position of the package with the given identity, if the graph
    /// holds one; the first such position.
    pub fn find(&self, id: &PackageId) -> (r: Option<usize>)
        ensures
            match r {
                Some(p) => p < self.packages@.len() && self.packages@[p as int].id.name@ == id.name@
                    && self.packages@[p as int].id.version@ == id.version@
                    && self.packages@[p as int].id.source@ == id.source@ && forall|q: int|
                    0 <= q < p ==> !(#[trigger] self.packages@[q].id.name@ == id.name@
                        && self.packages@[q].id.version@ == id.version@
                        && self.packages@[q].id.source@ == id.source@),
                None => forall|q: int|
                    0 <= q < self.packages@.len() ==> !(#[trigger] self.packages@[q].id.name@
                        == id.name@ && self.packages@[q].id.version@ == id.version@
                        && self.packages@[q].id.source@ == id.source@),
            },
    {
        let mut p: usize = 0;
        while p < self.packages.len()
            invariant
                p <= self.packages.len(),
                forall|q: int|
                    0 <= q < p ==> !(#[trigger] self.packages@[q].id.name@ == id.name@
                        && self.packages@[q].id.version@ == id.version@
                        && self.packages@[q].id.source@ == id.source@),
            decreases self.packages.len() - p,
        {
            if self.packages[p].id.same(id) {
                return Some(p);
            }
            p += 1;
        }
        None
    }
}

/// The features asked of one root package.
pub struct RootRequest {
    /// The position of the root package in the graph.
    pub package: usize,
    /// The requests named explicitly.
    pub features: Vec<FeatureRequest>,
    /// Whether the package's `default` feature is asked for.
    pub default_features: bool,
    /// Whether every feature and every optional dependency of the package
    /// is asked for.
    pub all_features: bool,
}

/// Whether features were requested of the package directly.
pub open spec fn is_requested(roots: Seq<RootRequest>, package: usize) -> bool {
    exists|i: int| 0 <= i < roots.len() && (#[trigger] roots[i]).package == package
}

pub fn requested_directly(roots: &Vec<RootRequest>, package: usize) -> (r: bool)
    ensures
        r == is_requested(roots@, package),
{
    let mut i: usize = 0;
    while i < roots.len()
        invariant
            i <= roots.len(),
            forall|j: int| 0 <= j < i ==> (#[trigger] roots@[j]).package != package,
        decreases roots.len() - i,
    {
        if roots[i].package == package {
            return true;
        }
        i += 1;
    }
    false
}

} // verus!

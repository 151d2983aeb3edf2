//! Platform restrictions of dependency edges, and the targets that they are
//! evaluated against.

use vstd::prelude::*;

verus! {

/// One configuration fact of a target: a bare name such as `unix`, or a
/// key with a value such as `target_os = "linux"`.
pub enum Cfg {
    Name(String),
    KeyPair(String, String),
}

/// Mathematical form of a [`Cfg`].
pub enum CfgFact {
    Name(Seq<char>),
    KeyPair(Seq<char>, Seq<char>),
}

impl View for Cfg {
    type V = CfgFact;

    open spec fn view(&self) -> CfgFact {
        match self {
            Cfg::Name(n) => CfgFact::Name(n@),
            Cfg::KeyPair(k, v) => CfgFact::KeyPair(k@, v@),
        }
    }
}

impl Cfg {
    /// Whether two facts are the same fact.
    pub fn same(&self, other: &Cfg) -> (r: bool)
        ensures
            r == (self@ == other@),
    {
        match self {
            Cfg::Name(n) => match other {
                Cfg::Name(m) => *n == *m,
                Cfg::KeyPair(_, _) => false,
            },
            Cfg::KeyPair(k, v) => match other {
                Cfg::Name(_) => false,
                Cfg::KeyPair(k2, v2) => *k == *k2 && *v == *v2,
            },
        }
    }
}

/// A predicate over the configuration facts of a target.
pub enum CfgExpr {
    Not(Box<CfgExpr>),
    All(Vec<CfgExpr>),
    Any(Vec<CfgExpr>),
    Value(Cfg),
}

/// The restriction that a dependency edge may carry: a target named
/// outright, or a predicate over its configuration.
pub enum Platform {
    Name(String),
    Cfg(CfgExpr),
}

/// A compilation target: its name and the configuration facts that hold
/// for it.
pub struct TargetInfo {
    pub name: String,
    pub cfgs: Vec<Cfg>,
}

impl TargetInfo {
    /// Whether `fact` is among the target's configuration facts.
    pub open spec fn has(&self, fact: CfgFact) -> bool {
        exists|i: int| 0 <= i < self.cfgs@.len() && (#[trigger] self.cfgs@[i])@ == fact
    }

    pub fn has_cfg(&self, cfg: &Cfg) -> (r: bool)
        ensures
            r == self.has(cfg@),
    {
        let mut i: usize = 0;
        while i < self.cfgs.len()
            invariant
                i <= self.cfgs.len(),
                forall|j: int| 0 <= j < i ==> (#[trigger] self.cfgs@[j])@ != cfg@,
            decreases self.cfgs.len() - i,
        {
            if self.cfgs[i].same(cfg) {
                return true;
            }
            i += 1;
        }
        false
    }
}

impl CfgExpr {
    /// Whether the predicate holds for `target`.
    pub open spec fn holds(&self, target: &TargetInfo) -> bool
        decreases self,
    {
        match self {
            CfgExpr::Not(e) => !e.holds(target),
            CfgExpr::All(es) => forall|i: int|
                0 <= i < es@.len() ==> (#[trigger] es@[i]).holds(target),
            CfgExpr::Any(es) => exists|i: int|
                0 <= i < es@.len() && (#[trigger] es@[i]).holds(target),
            CfgExpr::Value(c) => target.has(c@),
        }
    }

    #[verifier::loop_isolation(false)]
    pub fn matches(&self, target: &TargetInfo) -> (r: bool)
        ensures
            r == self.holds(target),
        decreases self,
    {
        broadcast use vstd::std_specs::vec::axiom_vec_index_decreases;

        match self {
            CfgExpr::Not(e) => !e.matches(target),
            CfgExpr::All(es) => {
                let mut i: usize = 0;
                while i < es.len()
                    invariant
                        i <= es.len(),
                        forall|j: int| 0 <= j < i ==> (#[trigger] es@[j]).holds(target),
                    decreases es.len() - i,
                {
                    if !es[i].matches(target) {
                        assert(!es@[i as int].holds(target));
                        return false;
                    }
                    i += 1;
                }
                true
            },
            CfgExpr::Any(es) => {
                let mut i: usize = 0;
                while i < es.len()
                    invariant
                        i <= es.len(),
                        forall|j: int| 0 <= j < i ==> !(#[trigger] es@[j]).holds(target),
                    decreases es.len() - i,
                {
                    if es[i].matches(target) {
                        assert(es@[i as int].holds(target));
                        return true;
                    }
                    i += 1;
                }
                false
            },
            CfgExpr::Value(c) => target.has_cfg(c),
        }
    }
}

impl Platform {
    /// Whether the restriction admits `target`.
    pub open spec fn admits(&self, target: &TargetInfo) -> bool {
        match self {
            Platform::Name(n) => n@ == target.name@,
            Platform::Cfg(e) => e.holds(target),
        }
    }

    pub fn matches(&self, target: &TargetInfo) -> (r: bool)
        ensures
            r == self.admits(target),
    {
        match self {
            Platform::Name(n) => *n == target.name,
            Platform::Cfg(e) => e.matches(target),
        }
    }
}

} // verus!

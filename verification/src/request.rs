//! Feature requests: a feature name together with the way it is asked for.

use vstd::prelude::*;
use vstd::string::*;

verus! {

/// Mathematical form of a [`FeatureRequest`]: the names as sequences of
/// characters.
pub enum Request {
    /// `feat`: a feature of the package itself.
    Plain(Seq<char>),
    /// `dep/feat`: enables the dependency `dep` and the feature on it.
    Strong(Seq<char>, Seq<char>),
    /// `dep?/feat`: the feature on `dep`, should `dep` be built at all.
    Weak(Seq<char>, Seq<char>),
}

impl Request {
    /// The feature that the request names, without the dependency.
    pub open spec fn feature(self) -> Seq<char> {
        match self {
            Request::Plain(f) => f,
            Request::Strong(_, f) => f,
            Request::Weak(_, f) => f,
        }
    }

    /// The written form: `feat`, `dep/feat` or `dep?/feat`.
    pub open spec fn expr(self) -> Seq<char> {
        match self {
            Request::Plain(f) => f,
            Request::Strong(d, f) => d + seq!['/'] + f,
            Request::Weak(d, f) => d + seq!['?', '/'] + f,
        }
    }
}

/// Whether `s` holds a `/`.
pub open spec fn has_slash(s: Seq<char>) -> bool {
    exists|k: int| 0 <= k < s.len() && s[k] == '/'
}

/// Whether the first `/` of `s` stands at `i`.
pub open spec fn first_slash_at(s: Seq<char>, i: int) -> bool {
    0 <= i < s.len() && s[i] == '/' && forall|k: int| 0 <= k < i ==> s[k] != '/'
}

/// The request that a text stands for whose first `/` is at `i`: what
/// follows the `/` names the feature, what precedes it the dependency,
/// and a `?` right before the `/` makes the request a weak one.
pub open spec fn split_at_slash(s: Seq<char>, i: int) -> Request {
    let f = s.subrange(i + 1, s.len() as int);
    if i > 0 && s[i - 1] == '?' {
        Request::Weak(s.subrange(0, i - 1), f)
    } else {
        Request::Strong(s.subrange(0, i), f)
    }
}

/// Whether the text `s` stands for the request `r`. A text without a `/`
/// is a plain request; any other is split at its first `/`.
pub open spec fn reads_as(s: Seq<char>, r: Request) -> bool {
    &&& !has_slash(s) ==> r == Request::Plain(s)
    &&& forall|i: int| first_slash_at(s, i) ==> r == split_at_slash(s, i)
}

/// Whether the names of a request can be written down without being
/// mistaken: no name of a dependency and no plain feature holds a `/`,
/// and the dependency of a strong request does not end in `?`.
pub open spec fn plainly_named(r: Request) -> bool {
    match r {
        Request::Plain(f) => !has_slash(f),
        Request::Strong(d, _) => !has_slash(d) && !(d.len() > 0 && d.last() == '?'),
        Request::Weak(d, _) => !has_slash(d),
    }
}

/// The written form of a request reads back as the request.
pub proof fn law_written_form_reads_back(r: Request)
    requires
        plainly_named(r),
    ensures
        reads_as(r.expr(), r),
{
    let s = r.expr();
    match r {
        Request::Plain(f) => {
            assert forall|i: int| first_slash_at(s, i) implies r == split_at_slash(s, i) by {
                assert(s[i] == '/');
            }
        },
        Request::Strong(d, f) => {
            let at = d.len() as int;
            assert(s[at] == '/');
            assert(has_slash(s));
            assert forall|i: int| first_slash_at(s, i) implies r == split_at_slash(s, i) by {
                if i < at {
                    assert(d[i] == s[i]);
                }
                assert(i == at);
                assert(s.subrange(0, at) =~= d);
                assert(s.subrange(at + 1, s.len() as int) =~= f);
                if at > 0 {
                    assert(s[at - 1] == d.last());
                }
            }
        },
        Request::Weak(d, f) => {
            let at = d.len() as int + 1;
            assert(s[at] == '/');
            assert(s[at - 1] == '?');
            assert(has_slash(s));
            assert forall|i: int| first_slash_at(s, i) implies r == split_at_slash(s, i) by {
                if i < at - 1 {
                    assert(d[i] == s[i]);
                }
                assert(i == at);
                assert(s.subrange(0, at - 1) =~= d);
                assert(s.subrange(at + 1, s.len() as int) =~= f);
            }
        },
    }
}

/// A request for a feature.
#[derive(Debug)]
pub enum FeatureRequest {
    /// A feature of the package that receives the request.
    Plain { feature: String },
    /// A feature of a dependency; the dependency is enabled by the request.
    Strong { dep: String, feature: String },
    /// A feature of a dependency, in force only once the dependency is
    /// built for another reason.
    Weak { dep: String, feature: String },
}

impl View for FeatureRequest {
    type V = Request;

    open spec fn view(&self) -> Request {
        match self {
            FeatureRequest::Plain { feature } => Request::Plain(feature@),
            FeatureRequest::Strong { dep, feature } => Request::Strong(dep@, feature@),
            FeatureRequest::Weak { dep, feature } => Request::Weak(dep@, feature@),
        }
    }
}

impl Clone for FeatureRequest {
    fn clone(&self) -> (r: FeatureRequest)
        ensures
            r@ == self@,
    {
        match self {
            FeatureRequest::Plain { feature } => FeatureRequest::Plain { feature: feature.clone() },
            FeatureRequest::Strong { dep, feature } => FeatureRequest::Strong {
                dep: dep.clone(),
                feature: feature.clone(),
            },
            FeatureRequest::Weak { dep, feature } => FeatureRequest::Weak {
                dep: dep.clone(),
                feature: feature.clone(),
            },
        }
    }
}

/// The requests of `v` in mathematical form.
pub open spec fn requests_of(v: Seq<FeatureRequest>) -> Seq<Request> {
    Seq::new(v.len(), |i: int| v[i]@)
}

impl FeatureRequest {
    /// A plain request for `name`.
    pub fn plain(name: &String) -> (r: FeatureRequest)
        ensures
            r@ == Request::Plain(name@),
    {
        FeatureRequest::Plain { feature: name.clone() }
    }

    /// Whether two requests ask for the same thing in the same way.
    pub fn same(&self, other: &FeatureRequest) -> (r: bool)
        ensures
            r == (self@ == other@),
    {
        match self {
            FeatureRequest::Plain { feature } => match other {
                FeatureRequest::Plain { feature: f2 } => *feature == *f2,
                _ => false,
            },
            FeatureRequest::Strong { dep, feature } => match other {
                FeatureRequest::Strong { dep: d2, feature: f2 } => *dep == *d2 && *feature == *f2,
                _ => false,
            },
            FeatureRequest::Weak { dep, feature } => match other {
                FeatureRequest::Weak { dep: d2, feature: f2 } => *dep == *d2 && *feature == *f2,
                _ => false,
            },
        }
    }

    /// The written form of the request, as it appears in a manifest or on
    /// a command line.
    pub fn to_expr(&self) -> (s: String)
        ensures
            s@ == self@.expr(),
    {
        proof {
            reveal_strlit("/");
            reveal_strlit("?/");
        }
        match self {
            FeatureRequest::Plain { feature } => feature.clone(),
            FeatureRequest::Strong { dep, feature } => {
                let mut s = dep.clone();
                s.append("/");
                s.append(feature.as_str());
                assert("/"@ =~= seq!['/']);
                s
            },
            FeatureRequest::Weak { dep, feature } => {
                let mut s = dep.clone();
                s.append("?/");
                s.append(feature.as_str());
                assert("?/"@ =~= seq!['?', '/']);
                s
            },
        }
    }

    /// Reads a request from its written form: `feat`, `dep/feat` or
    /// `dep?/feat`.
    pub fn parse(s: &str) -> (r: FeatureRequest)
        ensures
            reads_as(s@, r@),
    {
        let n = s.unicode_len();
        let mut i: usize = 0;
        while i < n && s.get_char(i) != '/'
            invariant
                i <= n,
                n == s@.len(),
                forall|k: int| 0 <= k < i ==> s@[k] != '/',
            decreases n - i,
        {
            i += 1;
        }
        if i == n {
            return FeatureRequest::Plain { feature: String::from_str(s) };
        }
        assert(first_slash_at(s@, i as int));
        let feature = String::from_str(s.substring_char(i + 1, n));
        if i > 0 && s.get_char(i - 1) == '?' {
            FeatureRequest::Weak { dep: String::from_str(s.substring_char(0, i - 1)), feature }
        } else {
            FeatureRequest::Strong { dep: String::from_str(s.substring_char(0, i)), feature }
        }
    }

    /// Whether `v` holds a request equal to `r`.
    pub fn is_in(&self, v: &Vec<FeatureRequest>) -> (found: bool)
        ensures
            found == requests_of(v@).contains(self@),
    {
        let mut i: usize = 0;
        while i < v.len()
            invariant
                i <= v.len(),
                forall|j: int| 0 <= j < i ==> (#[trigger] v@[j])@ != self@,
            decreases v.len() - i,
        {
            if v[i].same(self) {
                assert(requests_of(v@)[i as int] == self@);
                return true;
            }
            i += 1;
        }
        false
    }
}

/// A copy of a list of requests.
pub fn clone_requests(v: &Vec<FeatureRequest>) -> (out: Vec<FeatureRequest>)
    ensures
        requests_of(out@) == requests_of(v@),
{
    let mut out: Vec<FeatureRequest> = Vec::new();
    let mut i: usize = 0;
    while i < v.len()
        invariant
            i <= v.len(),
            out@.len() == i,
            forall|j: int| 0 <= j < i ==> (#[trigger] out@[j])@ == v@[j]@,
        decreases v.len() - i,
    {
        out.push(v[i].clone());
        i += 1;
    }
    assert(requests_of(out@) =~= requests_of(v@));
    out
}

} // verus!

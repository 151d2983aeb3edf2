//! The feature table resolver: what a set of requests amounts to inside
//! one package, once every feature has brought in what it implies.

use crate::graph::FeatureTable;
use crate::graph::Package;
use crate::request::requests_of;
use crate::request::FeatureRequest;
use crate::request::Request;
use vstd::prelude::*;
use vstd::string::*;

verus! {

/// The name of the feature that stands for a package's default selection.
pub open spec fn default_feature() -> Seq<char> {
    "default"@
}

/// A set of requests is closed for a table when, with every plain request
/// for a declared feature, it holds all that the feature implies.
pub open spec fn table_closed(table: &FeatureTable, c: Set<Request>) -> bool {
    forall|i: int, j: int|
        0 <= i < table.entries@.len() && 0 <= j < table.entries@[i].implies@.len() && c.contains(
            Request::Plain(table.entries@[i].name@),
        ) ==> c.contains((#[trigger] table.entries@[i].implies@[j])@)
}

/// The requests that an expansion starts from: those named explicitly;
/// `default` where it is asked for and declared; and, where everything is
/// asked for, each declared feature and each optional dependency.
pub open spec fn start_requests(
    package: &Package,
    requested: Seq<Request>,
    default_features: bool,
    all_features: bool,
) -> Set<Request> {
    Set::new(
        |r: Request|
            requested.contains(r) || (default_features && package.table.declares(default_feature())
                && r == Request::Plain(default_feature())) || (all_features && r
                == Request::Plain(r.feature()) && package.knows(r.feature())),
    )
}

/// The least set that holds `start` and is closed for `table`: a request
/// belongs to it when it belongs to every such set.
pub open spec fn closure(table: &FeatureTable, start: Set<Request>) -> Set<Request> {
    Set::new(
        |r: Request|
            forall|c: Set<Request>|
                start.subset_of(c) && table_closed(table, c) ==> #[trigger] c.contains(r),
    )
}

/// What the requests made of a package expand to.
pub open spec fn expansion(
    package: &Package,
    requested: Seq<Request>,
    default_features: bool,
    all_features: bool,
) -> Set<Request> {
    closure(&package.table, start_requests(package, requested, default_features, all_features))
}

/// Everything that the first `n` declarations of a table imply, in order.
pub open spec fn implied_upto(table: &FeatureTable, n: int) -> Seq<Request>
    decreases n,
{
    if n <= 0 {
        Seq::empty()
    } else {
        implied_upto(table, n - 1) + requests_of(table.entries@[n - 1].implies@)
    }
}

/// Everything that any declaration of a table implies.
pub open spec fn implied_all(table: &FeatureTable) -> Seq<Request> {
    implied_upto(table, table.entries@.len() as int)
}

pub proof fn lemma_implied_upto_contains(table: &FeatureTable, n: int, i: int, j: int)
    requires
        0 <= i < n <= table.entries@.len(),
        0 <= j < table.entries@[i].implies@.len(),
    ensures
        implied_upto(table, n).contains(table.entries@[i].implies@[j]@),
    decreases n,
{
    let last = requests_of(table.entries@[n - 1].implies@);
    let before = implied_upto(table, n - 1);
    if i == n - 1 {
        assert((before + last)[before.len() + j] == last[j]);
    } else {
        lemma_implied_upto_contains(table, n - 1, i, j);
        let k = choose|k: int|
            0 <= k < before.len() && before[k] == table.entries@[i].implies@[j]@;
        assert((before + last)[k] == before[k]);
    }
}

/// The closure holds what it starts from.
pub proof fn lemma_closure_holds_start(table: &FeatureTable, start: Set<Request>, r: Request)
    requires
        start.contains(r),
    ensures
        closure(table, start).contains(r),
{
}

/// The closure is closed.
pub proof fn lemma_closure_closed(table: &FeatureTable, start: Set<Request>)
    ensures
        table_closed(table, closure(table, start)),
{
    let cl = closure(table, start);
    assert forall|i: int, j: int|
        0 <= i < table.entries@.len() && 0 <= j < table.entries@[i].implies@.len() && cl.contains(
            Request::Plain(table.entries@[i].name@),
        ) implies cl.contains((#[trigger] table.entries@[i].implies@[j])@) by {
        assert forall|c: Set<Request>|
            start.subset_of(c) && table_closed(table, c) implies #[trigger] c.contains(
            table.entries@[i].implies@[j]@,
        ) by {
            assert(c.contains(Request::Plain(table.entries@[i].name@)));
        }
    }
}

/// The closure lies in every closed set that holds the start.
pub proof fn lemma_closure_least(table: &FeatureTable, start: Set<Request>, c: Set<Request>)
    requires
        start.subset_of(c),
        table_closed(table, c),
    ensures
        closure(table, start).subset_of(c),
{
}

/// Expansion is monotone: from more requests, no fewer follow.
pub proof fn law_closure_monotone(table: &FeatureTable, small: Set<Request>, large: Set<Request>)
    requires
        small.subset_of(large),
    ensures
        closure(table, small).subset_of(closure(table, large)),
{
    lemma_closure_closed(table, large);
    assert(small.subset_of(closure(table, large)));
    lemma_closure_least(table, small, closure(table, large));
}

/// Expansion is idempotent: expanding what was expanded adds nothing.
pub proof fn law_closure_idempotent(table: &FeatureTable, start: Set<Request>)
    ensures
        closure(table, closure(table, start)) == closure(table, start),
{
    let once = closure(table, start);
    lemma_closure_closed(table, start);
    lemma_closure_least(table, once, once);
    assert(once.subset_of(closure(table, once)));
    assert(closure(table, once) =~= once);
}

/// A sequence without repetition is no longer than a finite set that
/// holds all its elements.
pub proof fn lemma_distinct_bounded<A>(s: Seq<A>, u: Set<A>)
    requires
        s.no_duplicates(),
        u.finite(),
        forall|k: int| 0 <= k < s.len() ==> u.contains(#[trigger] s[k]),
    ensures
        s.len() <= u.len(),
{
    s.unique_seq_to_set();
    assert(s.to_set().subset_of(u)) by {
        assert forall|a: A| s.to_set().contains(a) implies u.contains(a) by {
            let k = choose|k: int| 0 <= k < s.len() && s[k] == a;
            assert(u.contains(s[k]));
        }
    }
    vstd::set_lib::lemma_len_subset(s.to_set(), u);
}

/// Appends `r` to `out` unless `out` holds it already; says whether it
/// was appended.
pub fn push_new(out: &mut Vec<FeatureRequest>, r: &FeatureRequest) -> (pushed: bool)
    ensures
        pushed == !requests_of(old(out)@).contains(r@),
        pushed ==> requests_of(final(out)@) == requests_of(old(out)@).push(r@),
        !pushed ==> final(out)@ == old(out)@,
{
    if r.is_in(out) {
        false
    } else {
        out.push(r.clone());
        assert(requests_of(out@) =~= requests_of(old(out)@).push(r@));
        true
    }
}

/// The feature table resolver. Starting from the requests made of
/// `package`, it adds what each requested feature implies, and what those
/// imply, until nothing is missing. Requests on dependencies are recorded
/// as they are; they open no table but the package's own.
pub fn expand(
    package: &Package,
    requested: &Vec<FeatureRequest>,
    default_features: bool,
    all_features: bool,
) -> (out: Vec<FeatureRequest>)
    ensures
        requests_of(out@).to_set() == expansion(
            package,
            requests_of(requested@),
            default_features,
            all_features,
        ),
        requests_of(out@).no_duplicates(),
{
    let ghost start = start_requests(
        package,
        requests_of(requested@),
        default_features,
        all_features,
    );
    let table = &package.table;
    let mut out: Vec<FeatureRequest> = Vec::new();
    let mut k: usize = 0;
    while k < requested.len()
        invariant
            k <= requested.len(),
            requests_of(out@).no_duplicates(),
            forall|m: int|
                0 <= m < out@.len() ==> requests_of(requested@).contains(
                    #[trigger] requests_of(out@)[m],
                ),
            forall|m: int|
                0 <= m < k ==> requests_of(out@).contains(#[trigger] requests_of(requested@)[m]),
        decreases requested.len() - k,
    {
        let ghost before = requests_of(out@);
        let pushed = push_new(&mut out, &requested[k]);
        proof {
            let now = requests_of(out@);
            assert(requests_of(requested@)[k as int] == requested@[k as int]@);
            assert forall|m: int| 0 <= m < k + 1 implies now.contains(
                #[trigger] requests_of(requested@)[m],
            ) by {
                let x = requests_of(requested@)[m];
                if m < k {
                    let w = choose|w: int| 0 <= w < before.len() && before[w] == x;
                    assert(now[w] == x);
                } else if pushed {
                    assert(now[before.len() as int] == x);
                } else {
                    assert(before.contains(x));
                }
            }
        }
        k += 1;
    }
    let default_name = String::from_str("default");
    if default_features && table.has_feature(&default_name) {
        let ghost before = requests_of(out@);
        let pushed = push_new(&mut out, &FeatureRequest::plain(&default_name));
        proof {
            let now = requests_of(out@);
            assert forall|m: int| 0 <= m < before.len() implies now.contains(
                #[trigger] before[m],
            ) by {
                assert(now[m] == before[m]);
            }
            if pushed {
                assert(now[before.len() as int] == Request::Plain(default_feature()));
            }
            assert forall|m: int| 0 <= m < now.len() implies start.contains(#[trigger] now[m]) by {
                if m < before.len() {
                    assert(now[m] == before[m]);
                }
            }
        }
    }
    assert(forall|m: int| 0 <= m < out@.len() ==> start.contains(#[trigger] requests_of(out@)[m]));
    if all_features {
        let mut d: usize = 0;
        while d < table.entries.len()
            invariant
                d <= table.entries.len(),
                table == &package.table,
                all_features,
                start == start_requests(
                    package,
                    requests_of(requested@),
                    default_features,
                    all_features,
                ),
                requests_of(out@).no_duplicates(),
                forall|m: int| 0 <= m < out@.len() ==> start.contains(#[trigger] requests_of(out@)[m]),
                forall|r: Request|
                    requests_of(requested@).contains(r) ==> #[trigger] requests_of(out@).contains(
                        r,
                    ),
                default_features && table.declares(default_feature()) ==> requests_of(
                    out@,
                ).contains(Request::Plain(default_feature())),
                forall|m: int|
                    0 <= m < d ==> requests_of(out@).contains(
                        Request::Plain((#[trigger] table.entries@[m]).name@),
                    ),
            decreases table.entries.len() - d,
        {
            let ghost before = requests_of(out@);
            let pushed = push_new(&mut out, &FeatureRequest::plain(&table.entries[d].name));
            proof {
                lemma_grown(before, requests_of(out@), Request::Plain(table.entries@[d as int].name@));
                let x = Request::Plain(table.entries@[d as int].name@);
                assert(x.feature() == table.entries@[d as int].name@);
                assert(package.table.declares(x.feature()));
            }
            d += 1;
        }
        let mut e: usize = 0;
        while e < package.deps.len()
            invariant
                e <= package.deps.len(),
                table == &package.table,
                all_features,
                start == start_requests(
                    package,
                    requests_of(requested@),
                    default_features,
                    all_features,
                ),
                requests_of(out@).no_duplicates(),
                forall|m: int| 0 <= m < out@.len() ==> start.contains(#[trigger] requests_of(out@)[m]),
                forall|r: Request|
                    requests_of(requested@).contains(r) ==> #[trigger] requests_of(out@).contains(
                        r,
                    ),
                default_features && table.declares(default_feature()) ==> requests_of(
                    out@,
                ).contains(Request::Plain(default_feature())),
                forall|m: int|
                    0 <= m < table.entries@.len() ==> requests_of(out@).contains(
                        Request::Plain((#[trigger] table.entries@[m]).name@),
                    ),
                forall|m: int|
                    0 <= m < e && (#[trigger] package.deps@[m]).optional ==> requests_of(
                        out@,
                    ).contains(Request::Plain(package.deps@[m].name@)),
            decreases package.deps.len() - e,
        {
            if package.deps[e].optional {
                let ghost before = requests_of(out@);
                let pushed = push_new(&mut out, &FeatureRequest::plain(&package.deps[e].name));
                proof {
                    lemma_grown(
                        before,
                        requests_of(out@),
                        Request::Plain(package.deps@[e as int].name@),
                    );
                    let x = Request::Plain(package.deps@[e as int].name@);
                    assert(x.feature() == package.deps@[e as int].name@);
                    assert(package.has_optional_dep(x.feature()));
                }
            }
            e += 1;
        }
    }
    proof {
        assert forall|r: Request| start.contains(r) implies requests_of(out@).contains(r) by {
            if requests_of(requested@).contains(r) {
            } else if default_features && package.table.declares(default_feature()) && r
                == Request::Plain(default_feature()) {
            } else {
                assert(all_features && r == Request::Plain(r.feature()) && package.knows(
                    r.feature(),
                ));
                if package.table.declares(r.feature()) {
                    let m = choose|m: int|
                        0 <= m < table.entries@.len() && (#[trigger] table.entries@[m]).name@
                            == r.feature();
                    assert(requests_of(out@).contains(Request::Plain(table.entries@[m].name@)));
                } else {
                    let m = choose|m: int|
                        0 <= m < package.deps@.len() && (#[trigger] package.deps@[m]).optional
                            && package.deps@[m].name@ == r.feature();
                    assert(requests_of(out@).contains(Request::Plain(package.deps@[m].name@)));
                }
            }
        }
    }
    close_under(table, &mut out, Ghost(start));
    out
}

/// If `now` is `before`, or `before` with `x` appended, then `now` holds
/// `x` given that one of the two holds it, and all that `before` held.
proof fn lemma_grown(before: Seq<Request>, now: Seq<Request>, x: Request)
    requires
        now == before || now == before.push(x),
        now == before ==> before.contains(x),
        before.no_duplicates(),
        now == before.push(x) ==> !before.contains(x),
    ensures
        now.contains(x),
        now.no_duplicates(),
        forall|r: Request| before.contains(r) ==> #[trigger] now.contains(r),
        forall|m: int| 0 <= m < before.len() ==> now[m] == before[m],
        forall|m: int| 0 <= m < now.len() ==> before.contains(#[trigger] now[m]) || now[m] == x,
{
    if now == before {
    } else {
        assert(now[before.len() as int] == x);
        assert forall|r: Request| before.contains(r) implies #[trigger] now.contains(r) by {
            let w = choose|w: int| 0 <= w < before.len() && before[w] == r;
            assert(now[w] == r);
        }
        assert forall|m: int| 0 <= m < now.len() implies before.contains(#[trigger] now[m])
            || now[m] == x by {
            if m < before.len() {
                assert(before[m] == now[m]);
            }
        }
    }
}

/// Extends `out`, which holds `start` and nothing outside its closure,
/// to the whole closure.
fn close_under(table: &FeatureTable, out: &mut Vec<FeatureRequest>, Ghost(start): Ghost<Set<Request>>)
    requires
        requests_of(old(out)@).no_duplicates(),
        forall|m: int| 0 <= m < old(out)@.len() ==> start.contains(#[trigger] requests_of(old(out)@)[m]),
        forall|r: Request| start.contains(r) ==> #[trigger] requests_of(old(out)@).contains(r),
    ensures
        requests_of(final(out)@).to_set() == closure(table, start),
        requests_of(final(out)@).no_duplicates(),
{
    let ghost universe = requests_of(out@).to_set().union(implied_all(table).to_set());
    let ghost cl = closure(table, start);
    proof {
        assert forall|m: int| 0 <= m < out@.len() implies cl.contains(
            #[trigger] requests_of(out@)[m],
        ) by {
            lemma_closure_holds_start(table, start, requests_of(out@)[m]);
        }
    }
    let mut i: usize = 0;
    while i < out.len()
        invariant
            i <= out.len(),
            universe.finite(),
            cl == closure(table, start),
            requests_of(out@).no_duplicates(),
            forall|m: int| 0 <= m < out@.len() ==> universe.contains(#[trigger] requests_of(out@)[m]),
            forall|m: int| 0 <= m < out@.len() ==> cl.contains(#[trigger] requests_of(out@)[m]),
            forall|r: Request| start.contains(r) ==> #[trigger] requests_of(out@).contains(r),
            forall|r: Request| implied_all(table).contains(r) ==> #[trigger] universe.contains(r),
            forall|m: int, d: int, j: int|
                0 <= m < i && 0 <= d < table.entries@.len() && 0 <= j
                    < table.entries@[d].implies@.len() && #[trigger] requests_of(out@)[m]
                    == Request::Plain(table.entries@[d].name@) ==> requests_of(out@).contains(
                    (#[trigger] table.entries@[d].implies@[j])@,
                ),
        decreases universe.len() - i,
    {
        proof {
            lemma_distinct_bounded(requests_of(out@), universe);
        }
        let name = match &out[i] {
            FeatureRequest::Plain { feature } => Some(feature.clone()),
            _ => None,
        };
        if let Some(name) = name {
            assert(requests_of(out@)[i as int] == Request::Plain(name@));
            let mut d: usize = 0;
            while d < table.entries.len()
                invariant
                    d <= table.entries.len(),
                    i < out.len(),
                    universe.finite(),
                    cl == closure(table, start),
                    requests_of(out@)[i as int] == Request::Plain(name@),
                    requests_of(out@).no_duplicates(),
                    forall|m: int|
                        0 <= m < out@.len() ==> universe.contains(#[trigger] requests_of(out@)[m]),
                    forall|m: int|
                        0 <= m < out@.len() ==> cl.contains(#[trigger] requests_of(out@)[m]),
                    forall|r: Request|
                        start.contains(r) ==> #[trigger] requests_of(out@).contains(r),
                    forall|r: Request|
                        implied_all(table).contains(r) ==> #[trigger] universe.contains(r),
                    forall|m: int, d: int, j: int|
                        0 <= m < i && 0 <= d < table.entries@.len() && 0 <= j
                            < table.entries@[d].implies@.len() && #[trigger] requests_of(out@)[m]
                            == Request::Plain(table.entries@[d].name@) ==> requests_of(
                            out@,
                        ).contains((#[trigger] table.entries@[d].implies@[j])@),
                    forall|d2: int, j: int|
                        0 <= d2 < d && 0 <= j < table.entries@[d2].implies@.len()
                            && table.entries@[d2].name@ == name@ ==> requests_of(out@).contains(
                            (#[trigger] table.entries@[d2].implies@[j])@,
                        ),
                decreases table.entries.len() - d,
            {
                if table.entries[d].name == name {
                    let implies = &table.entries[d].implies;
                    let mut j: usize = 0;
                    while j < implies.len()
                        invariant
                            j <= implies.len(),
                            d < table.entries.len(),
                            implies == &table.entries@[d as int].implies,
                            table.entries@[d as int].name@ == name@,
                            i < out.len(),
                            universe.finite(),
                            cl == closure(table, start),
                            requests_of(out@)[i as int] == Request::Plain(name@),
                            requests_of(out@).no_duplicates(),
                            forall|m: int|
                                0 <= m < out@.len() ==> universe.contains(
                                    #[trigger] requests_of(out@)[m],
                                ),
                            forall|m: int|
                                0 <= m < out@.len() ==> cl.contains(#[trigger] requests_of(out@)[m]),
                            forall|r: Request|
                                start.contains(r) ==> #[trigger] requests_of(out@).contains(r),
                            forall|r: Request|
                                implied_all(table).contains(r) ==> #[trigger] universe.contains(r),
                            forall|m: int, d: int, j: int|
                                0 <= m < i && 0 <= d < table.entries@.len() && 0 <= j
                                    < table.entries@[d].implies@.len() && #[trigger] requests_of(
                                    out@,
                                )[m] == Request::Plain(table.entries@[d].name@) ==> requests_of(
                                    out@,
                                ).contains((#[trigger] table.entries@[d].implies@[j])@),
                            forall|d2: int, j: int|
                                0 <= d2 < d && 0 <= j < table.entries@[d2].implies@.len()
                                    && table.entries@[d2].name@ == name@ ==> requests_of(
                                    out@,
                                ).contains((#[trigger] table.entries@[d2].implies@[j])@),
                            forall|j2: int|
                                0 <= j2 < j ==> requests_of(out@).contains(
                                    (#[trigger] implies@[j2])@,
                                ),
                        decreases implies.len() - j,
                    {
                        let ghost before = requests_of(out@);
                        let ghost x = implies@[j as int]@;
                        let pushed = push_new(out, &implies[j]);
                        proof {
                            lemma_grown(before, requests_of(out@), x);
                            lemma_implied_upto_contains(
                                table,
                                table.entries@.len() as int,
                                d as int,
                                j as int,
                            );
                            assert(universe.contains(x));
                            assert(cl.contains(x)) by {
                                lemma_closure_closed(table, start);
                                assert(cl.contains(before[i as int]));
                            }
                        }
                        j += 1;
                    }
                }
                d += 1;
            }
        }
        i += 1;
    }
    proof {
        let done = requests_of(out@).to_set();
        assert(start.subset_of(done));
        assert(table_closed(table, done)) by {
            assert forall|d: int, j: int|
                0 <= d < table.entries@.len() && 0 <= j < table.entries@[d].implies@.len()
                    && done.contains(Request::Plain(table.entries@[d].name@)) implies done.contains(
                (#[trigger] table.entries@[d].implies@[j])@,
            ) by {
                let m = choose|m: int|
                    0 <= m < out@.len() && requests_of(out@)[m] == Request::Plain(
                        table.entries@[d].name@,
                    );
                assert(requests_of(out@).contains(table.entries@[d].implies@[j]@));
            }
        }
        lemma_closure_least(table, start, done);
        assert(done =~= cl);
    }
}

} // verus!

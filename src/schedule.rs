//! The seed grid, its expansion into leaves, and the searches still owed.
use vstd::prelude::*;
use crate::facet::{Course, Distance, Gender, Stroke, TimeType, Zone};
use crate::identity::{identity, identity_of};
use crate::partition::{atomize, covered_by};
use crate::query::{
    Axes, Coordinate, FIRST_DAY, LAST_DAY, TopTimesRequest, covers, disjoint, in_scope, is_leaf,
    forest_of, keeps_fields, leaves_of, lemma_forest_of_append, pairwise_disjoint, wf, within,
};
use crate::store::{RecordView, RequestDb, after_success, is_complete};

verus! {

broadcast use vstd::multiset::group_multiset_axioms, vstd::seq_lib::group_to_multiset_ensures;

/// The search for all results of one gender on one day: every other facet
/// is a wildcard and the age range is open from 0.
pub open spec fn root_request(gender: Gender, day: int, max_results: u32) -> TopTimesRequest {
    TopTimesRequest {
        gender,
        distance: Distance::All,
        stroke: Stroke::All,
        course: Course::All,
        from_date: day as i32,
        to_date: day as i32,
        start_age: Some(0),
        end_age: None,
        zone: Zone::All,
        time_type: TimeType::Individual,
        members_only: false,
        best_only: false,
        max_results,
    }
}

/// One root search per day from `from_date` to `to_date` and per gender,
/// male before female.
pub open spec fn seed_grid(from_date: int, to_date: int, max_results: u32) -> Seq<TopTimesRequest> {
    Seq::new(
        (2 * (to_date - from_date + 1)) as nat,
        |i: int| root_request(if i % 2 == 0 { Gender::Male } else { Gender::Female }, from_date + i / 2, max_results),
    )
}

/// A search that has no success recorded under its identity.
pub open spec fn is_pending(m: Map<Seq<char>, RecordView>, q: TopTimesRequest) -> bool {
    !is_complete(m, identity_of(q))
}

/// The searches of `requests`, in order, that have no success recorded in `m`.
pub open spec fn pending_of(requests: Seq<TopTimesRequest>, m: Map<Seq<char>, RecordView>) -> Seq<TopTimesRequest> {
    requests.filter(|q: TopTimesRequest| is_pending(m, q))
}

/// Whether `req` still has to be fetched: no success is recorded under its
/// identity.
pub fn should_fetch(db: &RequestDb, req: &TopTimesRequest) -> (r: bool)
    requires
        db.wf(),
        wf(*req),
    ensures
        r == !is_complete(db@, identity_of(*req)),
{
    let id = identity(req);
    !db.check_request_success(id.as_str())
}

/// Builds the seed grid over the days `from_date..=to_date`.
pub fn seed_requests(from_date: i32, to_date: i32, max_results: u32) -> (r: Vec<TopTimesRequest>)
    requires
        FIRST_DAY <= from_date <= to_date <= LAST_DAY,
    ensures
        r@ == seed_grid(from_date as int, to_date as int, max_results),
{
    let mut r: Vec<TopTimesRequest> = Vec::new();
    let mut d: i32 = from_date;
    while d <= to_date
        invariant
            from_date <= d <= to_date + 1,
            to_date <= LAST_DAY,
            r@.len() == 2 * (d - from_date),
            forall|k: int| 0 <= k < r@.len() ==> #[trigger] r@[k] == seed_grid(from_date as int, to_date as int, max_results)[k],
        decreases to_date + 1 - d,
    {
        let base = TopTimesRequest {
            gender: Gender::Male,
            distance: Distance::All,
            stroke: Stroke::All,
            course: Course::All,
            from_date: d,
            to_date: d,
            start_age: Some(0),
            end_age: None,
            zone: Zone::All,
            time_type: TimeType::Individual,
            members_only: false,
            best_only: false,
            max_results,
        };
        let ghost n = r@.len() as int;
        r.push(base);
        r.push(TopTimesRequest { gender: Gender::Female, ..base });
        proof {
            assert forall|k: int| 0 <= k < r@.len() implies #[trigger] r@[k] == seed_grid(from_date as int, to_date as int, max_results)[k] by {
                if k == n {
                    assert(k / 2 == d - from_date);
                } else if k == n + 1 {
                    assert(k / 2 == d - from_date);
                }
            }
        }
        d = d + 1;
    }
    assert(r@ =~= seed_grid(from_date as int, to_date as int, max_results));
    r
}

/// No two searches of the seed grid match a common coordinate.
pub proof fn lemma_seed_grid_disjoint(from_date: int, to_date: int, max_results: u32)
    requires
        FIRST_DAY <= from_date <= to_date <= LAST_DAY,
    ensures
        pairwise_disjoint(seed_grid(from_date, to_date, max_results)),
{
    let s = seed_grid(from_date, to_date, max_results);
    assert forall|i: int, j: int| 0 <= i < s.len() && 0 <= j < s.len() && i != j implies disjoint(#[trigger] s[i], #[trigger] s[j]) by {
        assert forall|p: Coordinate| !(#[trigger] covers(s[i], p) && #[trigger] covers(s[j], p)) by {
            if i / 2 == j / 2 {
                assert(i % 2 != j % 2);
            } else {
                assert(s[i].from_date != s[j].from_date);
            }
        }
    }
}


/// Some search among the first `n` of `seeds` contains `q`, and `q` keeps
/// its gender, kind of swim, flags and result cap.
pub open spec fn within_some(q: TopTimesRequest, seeds: Seq<TopTimesRequest>, n: int) -> bool {
    exists|j: int| 0 <= j < n && within(q, #[trigger] seeds[j]) && keeps_fields(q, seeds[j])
}

proof fn lemma_disjoint_parts(a: TopTimesRequest, x: TopTimesRequest, b: TopTimesRequest, y: TopTimesRequest)
    requires
        within(a, x),
        within(b, y),
        disjoint(x, y),
    ensures
        disjoint(a, b),
{
    assert forall|p: Coordinate| !(#[trigger] covers(a, p) && #[trigger] covers(b, p)) by {
        if covers(a, p) && covers(b, p) {
            assert(covers(x, p));
            assert(covers(y, p));
        }
    }
}

/// Expands each seed into its leaves, seed after seed. Where the seeds are
/// disjoint, so are the leaves, and together they match every in-scope
/// coordinate that some seed matches.
pub fn expand(seeds: &Vec<TopTimesRequest>, axes: &Axes) -> (r: Vec<TopTimesRequest>)
    requires
        forall|k: int| 0 <= k < seeds@.len() ==> wf(#[trigger] seeds@[k]),
        pairwise_disjoint(seeds@),
    ensures
        forall|k: int| 0 <= k < r@.len() ==> wf(#[trigger] r@[k]) && is_leaf(r@[k], *axes) && within_some(r@[k], seeds@, seeds@.len() as int),
        pairwise_disjoint(r@),
        forall|p: Coordinate| in_scope(p) && covered_by(seeds@, p) ==> #[trigger] covered_by(r@, p),
        r@.to_multiset() == forest_of(seeds@, *axes).to_multiset(),
{
    let mut out: Vec<TopTimesRequest> = Vec::new();
    let mut i: usize = 0;
    proof {
        assert(seeds@.subrange(0, 0) =~= Seq::<TopTimesRequest>::empty());
        assert(out@ =~= forest_of(seeds@.subrange(0, 0), *axes));
    }
    while i < seeds.len()
        invariant
            i <= seeds@.len(),
            forall|k: int| 0 <= k < seeds@.len() ==> wf(#[trigger] seeds@[k]),
            pairwise_disjoint(seeds@),
            forall|k: int| 0 <= k < out@.len() ==> wf(#[trigger] out@[k]) && is_leaf(out@[k], *axes) && within_some(out@[k], seeds@, i as int),
            pairwise_disjoint(out@),
            forall|p: Coordinate, j: int| 0 <= j < i && in_scope(p) && #[trigger] covers(seeds@[j], p) ==> covered_by(out@, p),
            out@.to_multiset() == forest_of(seeds@.subrange(0, i as int), *axes).to_multiset(),
        decreases seeds@.len() - i,
    {
        let mut leaves = atomize(seeds[i], axes);
        let ghost old_out = out@;
        let ghost lv = leaves@;
        out.append(&mut leaves);
        proof {
            let n = old_out.len() as int;
            assert(out@ == old_out + lv);
            let prefix = seeds@.subrange(0, i as int);
            assert(seeds@.subrange(0, i + 1).drop_last() =~= prefix);
            assert(seeds@.subrange(0, i + 1).last() == seeds@[i as int]);
            assert(forest_of(seeds@.subrange(0, i + 1), *axes) == forest_of(prefix, *axes) + leaves_of(seeds@[i as int], *axes));
            vstd::seq_lib::lemma_multiset_commutative(forest_of(prefix, *axes), leaves_of(seeds@[i as int], *axes));
            vstd::seq_lib::lemma_multiset_commutative(old_out, lv);
            assert forall|k: int| 0 <= k < out@.len() implies wf(#[trigger] out@[k]) && is_leaf(out@[k], *axes) && within_some(out@[k], seeds@, i + 1) by {
                if k >= n {
                    assert(out@[k] == lv[k - n]);
                    assert(within(out@[k], seeds@[i as int]) && keeps_fields(out@[k], seeds@[i as int]));
                } else {
                    assert(out@[k] == old_out[k]);
                    let j = choose|j: int| 0 <= j < i && within(old_out[k], #[trigger] seeds@[j]) && keeps_fields(old_out[k], seeds@[j]);
                    assert(within(out@[k], seeds@[j]) && keeps_fields(out@[k], seeds@[j]));
                }
            }
            assert forall|a: int, b: int| 0 <= a < out@.len() && 0 <= b < out@.len() && a != b implies disjoint(#[trigger] out@[a], #[trigger] out@[b]) by {
                if a >= n && b >= n {
                    assert(out@[a] == lv[a - n]);
                    assert(out@[b] == lv[b - n]);
                } else if a < n && b < n {
                    assert(out@[a] == old_out[a]);
                    assert(out@[b] == old_out[b]);
                } else if a < n {
                    assert(out@[a] == old_out[a]);
                    assert(out@[b] == lv[b - n]);
                    let j = choose|j: int| 0 <= j < i && within(old_out[a], #[trigger] seeds@[j]) && keeps_fields(old_out[a], seeds@[j]);
                    assert(disjoint(seeds@[j], seeds@[i as int]));
                    lemma_disjoint_parts(out@[a], seeds@[j], out@[b], seeds@[i as int]);
                } else {
                    assert(out@[b] == old_out[b]);
                    assert(out@[a] == lv[a - n]);
                    let j = choose|j: int| 0 <= j < i && within(old_out[b], #[trigger] seeds@[j]) && keeps_fields(old_out[b], seeds@[j]);
                    assert(disjoint(seeds@[i as int], seeds@[j]));
                    lemma_disjoint_parts(out@[a], seeds@[i as int], out@[b], seeds@[j]);
                }
            }
            assert forall|p: Coordinate, j: int| 0 <= j < i + 1 && in_scope(p) && #[trigger] covers(seeds@[j], p) implies covered_by(out@, p) by {
                if j < i {
                    assert(covered_by(old_out, p));
                    let k = choose|k: int| 0 <= k < old_out.len() && covers(#[trigger] old_out[k], p);
                    assert(out@[k] == old_out[k]);
                } else {
                    assert(covered_by(lv, p));
                    let k = choose|k: int| 0 <= k < lv.len() && covers(#[trigger] lv[k], p);
                    assert(out@[n + k] == lv[k]);
                }
            }
        }
        i += 1;
    }
    proof {
        assert(seeds@.subrange(0, seeds@.len() as int) =~= seeds@);
        assert forall|p: Coordinate| in_scope(p) && covered_by(seeds@, p) implies #[trigger] covered_by(out@, p) by {
            let j = choose|j: int| 0 <= j < seeds@.len() && covers(#[trigger] seeds@[j], p);
        }
    }
    out
}

/// Keeps, in order, the requests that have no success recorded in `db`.
pub fn pending_requests(requests: &Vec<TopTimesRequest>, db: &RequestDb) -> (r: Vec<TopTimesRequest>)
    requires
        db.wf(),
        forall|k: int| 0 <= k < requests@.len() ==> wf(#[trigger] requests@[k]),
    ensures
        r@ == pending_of(requests@, db@),
{
    let mut r: Vec<TopTimesRequest> = Vec::new();
    let mut i: usize = 0;
    while i < requests.len()
        invariant
            i <= requests@.len(),
            db.wf(),
            forall|k: int| 0 <= k < requests@.len() ==> wf(#[trigger] requests@[k]),
            r@ == pending_of(requests@.subrange(0, i as int), db@),
        decreases requests@.len() - i,
    {
        let q = requests[i];
        let id = identity(&q);
        let key = id.as_str();
        let done = db.check_request_success(key);
        let ghost before = r@;
        if !done {
            r.push(q);
        }
        proof {
            let pred = |q: TopTimesRequest| is_pending(db@, q);
            reveal(Seq::filter);
            let next = requests@.subrange(0, i + 1);
            assert(next.drop_last() =~= requests@.subrange(0, i as int));
            assert(next.last() == q);
            assert(next.filter(pred) == (if pred(q) { before.push(q) } else { before }));
        }
        i += 1;
    }
    assert(requests@.subrange(0, requests@.len() as int) =~= requests@);
    assert(r@ == pending_of(requests@, db@));
    r
}

proof fn lemma_filter_from(s: Seq<TopTimesRequest>, pred: spec_fn(TopTimesRequest) -> bool, k: int)
    requires
        0 <= k < s.filter(pred).len(),
    ensures
        exists|j: int| 0 <= j < s.len() && s[j] == s.filter(pred)[k],
    decreases s.len(),
{
    reveal(Seq::filter);
    if s.len() > 0 {
        let rest = s.drop_last();
        let f = rest.filter(pred);
        if k < f.len() {
            lemma_filter_from(rest, pred, k);
            let j = choose|j: int| 0 <= j < rest.len() && rest[j] == f[k];
            assert(s[j] == s.filter(pred)[k]);
        } else {
            assert(s[s.len() - 1] == s.filter(pred)[k]);
        }
    }
}

proof fn lemma_filter_disjoint(s: Seq<TopTimesRequest>, pred: spec_fn(TopTimesRequest) -> bool)
    requires
        pairwise_disjoint(s),
    ensures
        pairwise_disjoint(s.filter(pred)),
    decreases s.len(),
{
    reveal(Seq::filter);
    if s.len() > 0 {
        let rest = s.drop_last();
        assert(pairwise_disjoint(rest)) by {
            assert forall|i: int, j: int| 0 <= i < rest.len() && 0 <= j < rest.len() && i != j implies disjoint(#[trigger] rest[i], #[trigger] rest[j]) by {
                assert(rest[i] == s[i] && rest[j] == s[j]);
            }
        }
        lemma_filter_disjoint(rest, pred);
        let f = rest.filter(pred);
        let x = s.last();
        if pred(x) {
            let g = f.push(x);
            assert(s.filter(pred) == g);
            assert forall|a: int, b: int| 0 <= a < g.len() && 0 <= b < g.len() && a != b implies disjoint(#[trigger] g[a], #[trigger] g[b]) by {
                if a == f.len() {
                    lemma_filter_from(rest, pred, b);
                    let j = choose|j: int| 0 <= j < rest.len() && rest[j] == f[b];
                    assert(disjoint(s[s.len() - 1], s[j]));
                } else if b == f.len() {
                    lemma_filter_from(rest, pred, a);
                    let j = choose|j: int| 0 <= j < rest.len() && rest[j] == f[a];
                    assert(disjoint(s[j], s[s.len() - 1]));
                } else {
                    assert(g[a] == f[a] && g[b] == f[b]);
                }
            }
        }
    }
}

/// Once a success is recorded for an identity, no search with that identity
/// is still owed, whatever list of searches is filtered.
pub proof fn lemma_resume_skips_complete(
    requests: Seq<TopTimesRequest>,
    m: Map<Seq<char>, RecordView>,
    id: Seq<char>,
    num_results: u32,
    duration_ms: u64,
)
    ensures
        forall|k: int| 0 <= k < pending_of(requests, after_success(m, id, num_results, duration_ms)).len()
            ==> identity_of(#[trigger] pending_of(requests, after_success(m, id, num_results, duration_ms))[k]) != id,
{
    let pred = |q: TopTimesRequest| is_pending(after_success(m, id, num_results, duration_ms), q);
    let f = requests.filter(pred);
    assert forall|k: int| 0 <= k < f.len() implies identity_of(#[trigger] f[k]) != id by {
        requests.lemma_filter_pred(pred, k);
    }
}

/// The leaves still owed for the days `from_date..=to_date`: the seed grid,
/// expanded along `axes`, without the searches that `db` has completed. No
/// two of them match a common coordinate, and every in-scope coordinate of
/// the grid is matched by one of them or by a leaf already completed.
pub fn plan_requests(from_date: i32, to_date: i32, max_results: u32, axes: &Axes, db: &RequestDb) -> (r: Vec<TopTimesRequest>)
    requires
        FIRST_DAY <= from_date <= to_date <= LAST_DAY,
        db.wf(),
    ensures
        forall|k: int| 0 <= k < r@.len() ==> {
            &&& wf(#[trigger] r@[k])
            &&& is_leaf(r@[k], *axes)
            &&& is_pending(db@, r@[k])
            &&& within_some(r@[k], seed_grid(from_date as int, to_date as int, max_results), 2 * (to_date - from_date + 1))
            &&& r@[k].max_results == max_results
            &&& r@[k].time_type == TimeType::Individual
            &&& !r@[k].members_only
            &&& !r@[k].best_only
            &&& (r@[k].gender == Gender::Male || r@[k].gender == Gender::Female)
        },
        exists|leaves: Seq<TopTimesRequest>| leaves.to_multiset() == forest_of(seed_grid(from_date as int, to_date as int, max_results), *axes).to_multiset() && r@ == #[trigger] pending_of(leaves, db@),
        pairwise_disjoint(r@),
        forall|p: Coordinate| in_scope(p) && #[trigger] covered_by(seed_grid(from_date as int, to_date as int, max_results), p) ==> {
            ||| covered_by(r@, p)
            ||| exists|q: TopTimesRequest| #[trigger] covers(q, p) && is_leaf(q, *axes) && !is_pending(db@, q)
        },
{
    let seeds = seed_requests(from_date, to_date, max_results);
    proof {
        lemma_seed_grid_disjoint(from_date as int, to_date as int, max_results);
        assert forall|k: int| 0 <= k < seeds@.len() implies wf(#[trigger] seeds@[k]) by {
        }
    }
    let leaves = expand(&seeds, axes);
    let r = pending_requests(&leaves, db);
    proof {
        let pred = |q: TopTimesRequest| is_pending(db@, q);
        lemma_filter_disjoint(leaves@, pred);
        assert(r@ == pending_of(leaves@, db@));
        assert forall|k: int| 0 <= k < r@.len() implies {
            &&& wf(#[trigger] r@[k])
            &&& is_leaf(r@[k], *axes)
            &&& is_pending(db@, r@[k])
            &&& within_some(r@[k], seed_grid(from_date as int, to_date as int, max_results), 2 * (to_date - from_date + 1))
            &&& r@[k].max_results == max_results
            &&& r@[k].time_type == TimeType::Individual
            &&& !r@[k].members_only
            &&& !r@[k].best_only
            &&& (r@[k].gender == Gender::Male || r@[k].gender == Gender::Female)
        } by {
            leaves@.lemma_filter_pred(pred, k);
            lemma_filter_from(leaves@, pred, k);
            let j = choose|j: int| 0 <= j < leaves@.len() && leaves@[j] == r@[k];
            assert(wf(leaves@[j]));
            let g = seed_grid(from_date as int, to_date as int, max_results);
            let m = choose|m: int| 0 <= m < seeds@.len() && within(leaves@[j], #[trigger] seeds@[m]) && keeps_fields(leaves@[j], seeds@[m]);
            assert(keeps_fields(r@[k], g[m]));
        }
        assert forall|p: Coordinate| in_scope(p) && #[trigger] covered_by(seeds@, p) implies {
            ||| covered_by(r@, p)
            ||| exists|q: TopTimesRequest| #[trigger] covers(q, p) && is_leaf(q, *axes) && !is_pending(db@, q)
        } by {
            assert(covered_by(leaves@, p));
            let j = choose|j: int| 0 <= j < leaves@.len() && covers(#[trigger] leaves@[j], p);
            let q = leaves@[j];
            if is_pending(db@, q) {
                leaves@.lemma_filter_contains(pred, j);
                let k = choose|k: int| 0 <= k < r@.len() && r@[k] == q;
                assert(covers(r@[k], p));
            } else {
                assert(covers(q, p) && is_leaf(q, *axes) && !is_pending(db@, q));
            }
        }
    }
    r
}

} // verus!

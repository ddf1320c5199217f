//! Dividing a search into children, and into leaves.
use vstd::prelude::*;
use vstd::multiset::Multiset;
use crate::facet::{Course, Distance, Stroke, Zone, event_distances, event_distance_list};
use crate::query::{
    AGE_SENTINEL, Axes, Coordinate, TopTimesRequest, children, covers, disjoint, in_scope, is_leaf,
    lemma_children_bound, lemma_children_cover, lemma_children_disjoint, lemma_children_shrink,
    lemma_leaf_bound_positive, lemma_total_bound_append, leaf_bound, measure, total_bound,
    ages_ordered, forest_of, keeps_fields, leaves_of, lemma_children_keep, lemma_forest_of_append,
    lemma_leaves_of_unfold, lemma_witness, witness,
    pairwise_disjoint, wf, within, with_distance,
};

verus! {

broadcast use vstd::multiset::group_multiset_axioms, vstd::seq_lib::group_to_multiset_ensures;

/// Divides `q` by the first rule that applies: one child per course, per
/// individual stroke, per distance that exists for its stroke and course,
/// the two halves of its date range or of its age range, or one per zone.
/// An empty result means that `q` is a leaf.
pub fn divide(q: &TopTimesRequest, axes: &Axes) -> (r: Vec<TopTimesRequest>)
    requires
        wf(*q),
    ensures
        r@ == children(*q, *axes),
{
    let q = *q;
    if axes.course && q.course == Course::All {
        let r = vec![
            TopTimesRequest { course: Course::SCY, ..q },
            TopTimesRequest { course: Course::SCM, ..q },
            TopTimesRequest { course: Course::LCM, ..q },
        ];
        assert(r@ =~= children(q, *axes));
        return r;
    }
    if axes.stroke && q.stroke == Stroke::All {
        let r = vec![
            TopTimesRequest { stroke: Stroke::Freestyle, ..q },
            TopTimesRequest { stroke: Stroke::Backstroke, ..q },
            TopTimesRequest { stroke: Stroke::Breaststroke, ..q },
            TopTimesRequest { stroke: Stroke::Butterfly, ..q },
            TopTimesRequest { stroke: Stroke::IndividualMedley, ..q },
        ];
        assert(r@ =~= children(q, *axes));
        return r;
    }
    if axes.distance && q.distance == Distance::All {
        let ds = event_distance_list(q.stroke, q.course);
        let mut r: Vec<TopTimesRequest> = Vec::new();
        let mut i: usize = 0;
        while i < ds.len()
            invariant
                ds@ == event_distances(q.stroke, q.course),
                i <= ds@.len(),
                r@.len() == i,
                forall|k: int| 0 <= k < i ==> r@[k] == with_distance(q, ds@[k]),
            decreases ds.len() - i,
        {
            r.push(TopTimesRequest { distance: ds[i], ..q });
            i += 1;
        }
        assert(r@ =~= children(q, *axes));
        return r;
    }
    if axes.date && q.from_date != q.to_date {
        let mid: i32 = q.from_date + (q.to_date - q.from_date) / 2;
        let r = vec![TopTimesRequest { to_date: mid, ..q }, TopTimesRequest { from_date: mid + 1, ..q }];
        assert(r@ =~= children(q, *axes));
        return r;
    }
    let low: u8 = match q.start_age {
        Some(a) => a,
        None => 0,
    };
    let high: u8 = match q.end_age {
        Some(b) => b,
        None => AGE_SENTINEL,
    };
    if axes.age && low < high {
        let mid: u8 = low + (high - low) / 2;
        let r = vec![
            TopTimesRequest { start_age: Some(low), end_age: Some(mid), ..q },
            TopTimesRequest { start_age: Some(mid + 1), ..q },
        ];
        assert(r@ =~= children(q, *axes));
        return r;
    }
    if axes.zone && q.zone == Zone::All {
        let r = vec![
            TopTimesRequest { zone: Zone::Central, ..q },
            TopTimesRequest { zone: Zone::Eastern, ..q },
            TopTimesRequest { zone: Zone::Southern, ..q },
            TopTimesRequest { zone: Zone::Western, ..q },
        ];
        assert(r@ =~= children(q, *axes));
        return r;
    }
    let r: Vec<TopTimesRequest> = Vec::new();
    assert(r@ =~= children(q, *axes));
    r
}


/// No search of `a` shares a coordinate with a search of `b`.
pub open spec fn cross_disjoint(a: Seq<TopTimesRequest>, b: Seq<TopTimesRequest>) -> bool {
    forall|i: int, j: int| 0 <= i < a.len() && 0 <= j < b.len() ==> disjoint(#[trigger] a[i], #[trigger] b[j])
}

/// Some search of `s` matches `p`.
pub open spec fn covered_by(s: Seq<TopTimesRequest>, p: Coordinate) -> bool {
    exists|i: int| 0 <= i < s.len() && covers(#[trigger] s[i], p)
}

proof fn lemma_disjoint_within(a: TopTimesRequest, x: TopTimesRequest, c: TopTimesRequest)
    requires
        disjoint(a, x) || disjoint(x, a),
        within(c, x),
    ensures
        disjoint(a, c),
        disjoint(c, a),
{
    assert forall|p: Coordinate| !(#[trigger] covers(a, p) && #[trigger] covers(c, p)) by {
        if covers(c, p) {
            assert(covers(x, p));
        }
    }
}

proof fn lemma_within_trans(c: TopTimesRequest, x: TopTimesRequest, q: TopTimesRequest)
    requires
        within(c, x),
        within(x, q),
    ensures
        within(c, q),
{
    assert forall|p: Coordinate| #[trigger] covers(c, p) implies covers(q, p) by {
        assert(covers(x, p));
    }
}

/// Divides `req` again and again, breadth first, until only leaves are left.
/// The leaves lie within `req`, no two of them match a common coordinate,
/// and together they match every in-scope coordinate that `req` matches.
pub fn atomize(req: TopTimesRequest, axes: &Axes) -> (r: Vec<TopTimesRequest>)
    requires
        wf(req),
    ensures
        forall|k: int| 0 <= k < r@.len() ==> wf(#[trigger] r@[k]) && is_leaf(r@[k], *axes) && within(r@[k], req),
        pairwise_disjoint(r@),
        forall|p: Coordinate| in_scope(p) && covers(req, p) ==> #[trigger] covered_by(r@, p),
        r@.len() <= leaf_bound(req),
        r@.to_multiset() == leaves_of(req, *axes).to_multiset(),
        is_leaf(req, *axes) ==> r@ == seq![req],
        forall|k: int| 0 <= k < r@.len() ==> keeps_fields(#[trigger] r@[k], req),
        ages_ordered(req) ==> r@.no_duplicates(),
{
    let mut output: Vec<TopTimesRequest> = Vec::new();
    let mut current: Vec<TopTimesRequest> = vec![req];
    let ghost mut fuel: nat = measure(req) + 1;
    proof {
        assert forall|p: Coordinate| in_scope(p) && covers(req, p) implies covered_by(output@, p) || covered_by(current@, p) by {
            assert(covers(current@[0], p));
        }
        assert(pairwise_disjoint(current@));
        assert(current@.drop_last() =~= Seq::<TopTimesRequest>::empty());
        reveal_with_fuel(total_bound, 2);
        assert(total_bound(current@) == leaf_bound(req));
        reveal_with_fuel(forest_of, 2);
        assert(forest_of(current@, *axes) =~= leaves_of(req, *axes));
        assert(output@.to_multiset().add(forest_of(current@, *axes).to_multiset()) =~= leaves_of(req, *axes).to_multiset());
    }
    while current.len() > 0
        invariant
            forall|j: int| 0 <= j < current@.len() ==> wf(#[trigger] current@[j]) && within(current@[j], req) && measure(current@[j]) < fuel,
            forall|k: int| 0 <= k < output@.len() ==> wf(#[trigger] output@[k]) && is_leaf(output@[k], *axes) && within(output@[k], req),
            pairwise_disjoint(output@),
            pairwise_disjoint(current@),
            cross_disjoint(output@, current@),
            forall|p: Coordinate| in_scope(p) && covers(req, p) ==> covered_by(output@, p) || covered_by(current@, p),
            output@.len() + total_bound(current@) <= leaf_bound(req),
            output@.to_multiset().add(forest_of(current@, *axes).to_multiset()) == leaves_of(req, *axes).to_multiset(),
            forall|j: int| 0 <= j < current@.len() ==> keeps_fields(#[trigger] current@[j], req) && (ages_ordered(req) ==> ages_ordered(current@[j])),
            forall|k: int| 0 <= k < output@.len() ==> keeps_fields(#[trigger] output@[k], req) && (ages_ordered(req) ==> ages_ordered(output@[k])),
        decreases fuel,
    {
        let mut next: Vec<TopTimesRequest> = Vec::new();
        let mut i: usize = 0;
        while i < current.len()
            invariant
                i <= current@.len(),
                current@.len() > 0,
                forall|j: int| 0 <= j < current@.len() ==> wf(#[trigger] current@[j]) && within(current@[j], req) && measure(current@[j]) < fuel,
                forall|j: int| 0 <= j < next@.len() ==> wf(#[trigger] next@[j]) && within(next@[j], req) && measure(next@[j]) + 1 < fuel,
                forall|k: int| 0 <= k < output@.len() ==> wf(#[trigger] output@[k]) && is_leaf(output@[k], *axes) && within(output@[k], req),
                pairwise_disjoint(output@),
                pairwise_disjoint(current@),
                pairwise_disjoint(next@),
                forall|a: int, b: int| 0 <= a < output@.len() && i <= b < current@.len() ==> disjoint(#[trigger] output@[a], #[trigger] current@[b]),
                cross_disjoint(output@, next@),
                forall|a: int, b: int| i <= a < current@.len() && 0 <= b < next@.len() ==> disjoint(#[trigger] current@[a], #[trigger] next@[b]),
                forall|p: Coordinate| in_scope(p) && covers(req, p) ==> covered_by(output@, p) || covered_by(next@, p) || exists|j: int| i <= j < current@.len() && covers(#[trigger] current@[j], p),
                output@.len() + total_bound(next@) + total_bound(current@) - total_bound(current@.subrange(0, i as int)) <= leaf_bound(req),
                output@.to_multiset().add(forest_of(next@, *axes).to_multiset()).add(forest_of(current@, *axes).to_multiset())
                    == leaves_of(req, *axes).to_multiset().add(forest_of(current@.subrange(0, i as int), *axes).to_multiset()),
                forall|j: int| 0 <= j < current@.len() ==> keeps_fields(#[trigger] current@[j], req) && (ages_ordered(req) ==> ages_ordered(current@[j])),
                forall|j: int| 0 <= j < next@.len() ==> keeps_fields(#[trigger] next@[j], req) && (ages_ordered(req) ==> ages_ordered(next@[j])),
                forall|k: int| 0 <= k < output@.len() ==> keeps_fields(#[trigger] output@[k], req) && (ages_ordered(req) ==> ages_ordered(output@[k])),
            decreases current@.len() - i,
        {
            let x = current[i];
            let mut cs = divide(&x, axes);
            proof {
                lemma_children_shrink(x, *axes);
                lemma_children_disjoint(x, *axes);
                lemma_children_bound(x, *axes);
                lemma_leaf_bound_positive(x);
                assert(current@.subrange(0, i + 1).drop_last() =~= current@.subrange(0, i as int));
                assert(total_bound(current@.subrange(0, i + 1)) == total_bound(current@.subrange(0, i as int)) + leaf_bound(x));
                lemma_children_keep(x, *axes);
                lemma_leaves_of_unfold(x, *axes);
                assert(current@.subrange(0, i + 1).last() == x);
                assert(forest_of(current@.subrange(0, i + 1), *axes) == forest_of(current@.subrange(0, i as int), *axes) + leaves_of(x, *axes));
                vstd::seq_lib::lemma_multiset_commutative(forest_of(current@.subrange(0, i as int), *axes), leaves_of(x, *axes));
            }
            if cs.len() == 0 {
                let ghost old_output = output@;
                output.push(x);
                proof {
                    assert(output@ == old_output.push(x));
                    assert(leaves_of(x, *axes) == seq![x]);
                    vstd::seq_lib::lemma_multiset_commutative(old_output, seq![x]);
                    assert(old_output + seq![x] =~= output@);
                    lemma_multiset_shift(old_output.to_multiset(), forest_of(next@, *axes).to_multiset(), forest_of(current@, *axes).to_multiset(),
                        leaves_of(req, *axes).to_multiset(), forest_of(current@.subrange(0, i as int), *axes).to_multiset(), leaves_of(x, *axes).to_multiset());
                    assert forall|a: int, b: int| 0 <= a < output@.len() && 0 <= b < output@.len() && a != b implies disjoint(#[trigger] output@[a], #[trigger] output@[b]) by {
                        if a == old_output.len() {
                            assert(disjoint(old_output[b], current@[i as int]));
                            lemma_disjoint_within(old_output[b], x, x);
                        } else if b == old_output.len() {
                            assert(disjoint(old_output[a], current@[i as int]));
                        }
                    }
                    assert forall|a: int, b: int| 0 <= a < output@.len() && i + 1 <= b < current@.len() implies disjoint(#[trigger] output@[a], #[trigger] current@[b]) by {
                        if a == old_output.len() {
                            assert(disjoint(current@[i as int], current@[b]));
                        }
                    }
                    assert forall|a: int, b: int| 0 <= a < output@.len() && 0 <= b < next@.len() implies disjoint(#[trigger] output@[a], #[trigger] next@[b]) by {
                        if a == old_output.len() {
                            assert(disjoint(current@[i as int], next@[b]));
                        }
                    }
                    assert forall|p: Coordinate| in_scope(p) && covers(req, p) implies covered_by(output@, p) || covered_by(next@, p) || exists|j: int| i + 1 <= j < current@.len() && covers(#[trigger] current@[j], p) by {
                        if covered_by(old_output, p) {
                            let k = choose|k: int| 0 <= k < old_output.len() && covers(#[trigger] old_output[k], p);
                            assert(covers(output@[k], p));
                        } else if !covered_by(next@, p) {
                            let j = choose|j: int| i <= j < current@.len() && covers(#[trigger] current@[j], p);
                            if j == i {
                                assert(covers(output@[old_output.len() as int], p));
                            }
                        }
                    }
                }
            } else {
                let ghost old_next = next@;
                let ghost cs0 = cs@;
                next.append(&mut cs);
                proof {
                    assert(next@ == old_next + cs0);
                    lemma_total_bound_append(old_next, cs0);
                    lemma_forest_of_append(old_next, cs0, *axes);
                    assert(forest_of(cs0, *axes) == leaves_of(x, *axes));
                    vstd::seq_lib::lemma_multiset_commutative(forest_of(old_next, *axes), forest_of(cs0, *axes));
                    lemma_multiset_grow_next(output@.to_multiset(), forest_of(old_next, *axes).to_multiset(), forest_of(current@, *axes).to_multiset(),
                        leaves_of(req, *axes).to_multiset(), forest_of(current@.subrange(0, i as int), *axes).to_multiset(), leaves_of(x, *axes).to_multiset());
                    assert forall|j: int| 0 <= j < next@.len() implies keeps_fields(#[trigger] next@[j], req) && (ages_ordered(req) ==> ages_ordered(next@[j])) by {
                        if j >= old_next.len() {
                            assert(next@[j] == cs0[j - old_next.len()]);
                        }
                    }
                    assert forall|j: int| 0 <= j < next@.len() implies wf(#[trigger] next@[j]) && within(next@[j], req) && measure(next@[j]) + 1 < fuel by {
                        if j >= old_next.len() {
                            assert(next@[j] == cs0[j - old_next.len()]);
                            lemma_within_trans(next@[j], x, req);
                        }
                    }
                    assert forall|a: int, b: int| 0 <= a < next@.len() && 0 <= b < next@.len() && a != b implies disjoint(#[trigger] next@[a], #[trigger] next@[b]) by {
                        let n = old_next.len() as int;
                        if a >= n && b >= n {
                            assert(next@[a] == cs0[a - n]);
                            assert(next@[b] == cs0[b - n]);
                        } else if a >= n {
                            assert(next@[a] == cs0[a - n]);
                            assert(disjoint(current@[i as int], old_next[b]));
                            lemma_disjoint_within(old_next[b], x, next@[a]);
                        } else if b >= n {
                            assert(next@[b] == cs0[b - n]);
                            assert(disjoint(current@[i as int], old_next[a]));
                            lemma_disjoint_within(old_next[a], x, next@[b]);
                        }
                    }
                    assert forall|a: int, b: int| 0 <= a < output@.len() && 0 <= b < next@.len() implies disjoint(#[trigger] output@[a], #[trigger] next@[b]) by {
                        let n = old_next.len() as int;
                        if b >= n {
                            assert(next@[b] == cs0[b - n]);
                            assert(disjoint(output@[a], current@[i as int]));
                            lemma_disjoint_within(output@[a], x, next@[b]);
                        }
                    }
                    assert forall|a: int, b: int| i + 1 <= a < current@.len() && 0 <= b < next@.len() implies disjoint(#[trigger] current@[a], #[trigger] next@[b]) by {
                        let n = old_next.len() as int;
                        if b >= n {
                            assert(next@[b] == cs0[b - n]);
                            assert(disjoint(current@[i as int], current@[a]));
                            lemma_disjoint_within(current@[a], x, next@[b]);
                        }
                    }
                    assert forall|p: Coordinate| in_scope(p) && covers(req, p) implies covered_by(output@, p) || covered_by(next@, p) || exists|j: int| i + 1 <= j < current@.len() && covers(#[trigger] current@[j], p) by {
                        if covered_by(old_next, p) {
                            let k = choose|k: int| 0 <= k < old_next.len() && covers(#[trigger] old_next[k], p);
                            assert(covers(next@[k], p));
                        } else if !covered_by(output@, p) {
                            let j = choose|j: int| i <= j < current@.len() && covers(#[trigger] current@[j], p);
                            if j == i {
                                lemma_children_cover(x, *axes, p);
                                let m = choose|m: int| 0 <= m < cs0.len() && covers(#[trigger] cs0[m], p);
                                assert(covers(next@[old_next.len() + m], p));
                            }
                        }
                    }
                }
            }
            i += 1;
        }
        proof {
            assert(current@.subrange(0, current@.len() as int) =~= current@);
            lemma_multiset_cancel(output@.to_multiset().add(forest_of(next@, *axes).to_multiset()), forest_of(current@, *axes).to_multiset(), leaves_of(req, *axes).to_multiset());
            assert forall|p: Coordinate| in_scope(p) && covers(req, p) implies covered_by(output@, p) || covered_by(next@, p) by {
            }
            let x = current@[0];
            assert(measure(x) < fuel);
            fuel = (fuel - 1) as nat;
        }
        current = next;
    }
    proof {
        assert forall|p: Coordinate| in_scope(p) && covers(req, p) implies #[trigger] covered_by(output@, p) by {
            if covered_by(current@, p) {
                let j = choose|j: int| 0 <= j < current@.len() && covers(#[trigger] current@[j], p);
            }
        }
        reveal_with_fuel(forest_of, 1);
        assert(output@.to_multiset() =~= leaves_of(req, *axes).to_multiset());
        if is_leaf(req, *axes) {
            lemma_leaves_of_unfold(req, *axes);
            lemma_single_multiset(output@, req);
        }
        if ages_ordered(req) {
            assert forall|a: int, b: int| 0 <= a < output@.len() && 0 <= b < output@.len() && a != b implies output@[a] != output@[b] by {
                lemma_witness(output@[a]);
                assert(disjoint(output@[a], output@[b]));
                assert(covers(output@[a], witness(output@[a])));
            }
        }
    }
    output
}

proof fn lemma_multiset_shift(
    a: Multiset<TopTimesRequest>,
    n: Multiset<TopTimesRequest>,
    c: Multiset<TopTimesRequest>,
    t: Multiset<TopTimesRequest>,
    p: Multiset<TopTimesRequest>,
    d: Multiset<TopTimesRequest>,
)
    requires
        a.add(n).add(c) == t.add(p),
    ensures
        a.add(d).add(n).add(c) == t.add(p.add(d)),
{
    assert forall|v: TopTimesRequest| #[trigger] a.add(d).add(n).add(c).count(v) == t.add(p.add(d)).count(v) by {
        assert(a.add(n).add(c).count(v) == t.add(p).count(v));
        assert(a.add(n).add(c).count(v) == a.add(n).count(v) + c.count(v));
        assert(a.add(n).count(v) == a.count(v) + n.count(v));
        assert(t.add(p).count(v) == t.count(v) + p.count(v));
        assert(a.add(d).add(n).add(c).count(v) == a.add(d).add(n).count(v) + c.count(v));
        assert(a.add(d).add(n).count(v) == a.add(d).count(v) + n.count(v));
        assert(a.add(d).count(v) == a.count(v) + d.count(v));
        assert(t.add(p.add(d)).count(v) == t.count(v) + p.add(d).count(v));
        assert(p.add(d).count(v) == p.count(v) + d.count(v));
    }
    assert(a.add(d).add(n).add(c) =~= t.add(p.add(d)));
}

proof fn lemma_multiset_grow_next(
    a: Multiset<TopTimesRequest>,
    n: Multiset<TopTimesRequest>,
    c: Multiset<TopTimesRequest>,
    t: Multiset<TopTimesRequest>,
    p: Multiset<TopTimesRequest>,
    d: Multiset<TopTimesRequest>,
)
    requires
        a.add(n).add(c) == t.add(p),
    ensures
        a.add(n.add(d)).add(c) == t.add(p.add(d)),
{
    assert forall|v: TopTimesRequest| #[trigger] a.add(n.add(d)).add(c).count(v) == t.add(p.add(d)).count(v) by {
        assert(a.add(n).add(c).count(v) == t.add(p).count(v));
        assert(a.add(n).add(c).count(v) == a.add(n).count(v) + c.count(v));
        assert(a.add(n).count(v) == a.count(v) + n.count(v));
        assert(t.add(p).count(v) == t.count(v) + p.count(v));
        assert(a.add(n.add(d)).add(c).count(v) == a.add(n.add(d)).count(v) + c.count(v));
        assert(a.add(n.add(d)).count(v) == a.count(v) + n.add(d).count(v));
        assert(n.add(d).count(v) == n.count(v) + d.count(v));
        assert(t.add(p.add(d)).count(v) == t.count(v) + p.add(d).count(v));
        assert(p.add(d).count(v) == p.count(v) + d.count(v));
    }
    assert(a.add(n.add(d)).add(c) =~= t.add(p.add(d)));
}

proof fn lemma_multiset_cancel(a: Multiset<TopTimesRequest>, c: Multiset<TopTimesRequest>, t: Multiset<TopTimesRequest>)
    requires
        a.add(c) == t.add(c),
    ensures
        a == t,
{
    assert forall|v: TopTimesRequest| #[trigger] a.count(v) == t.count(v) by {
        assert(a.add(c).count(v) == a.count(v) + c.count(v));
        assert(a.add(c).count(v) == t.add(c).count(v));
    }
    assert(a =~= t);
}

proof fn lemma_single_multiset(s: Seq<TopTimesRequest>, x: TopTimesRequest)
    requires
        s.to_multiset() == seq![x].to_multiset(),
    ensures
        s == seq![x],
{
    assert(seq![x] =~= Seq::<TopTimesRequest>::empty().push(x));
    assert(seq![x].to_multiset() =~= Multiset::<TopTimesRequest>::empty().insert(x));
    assert(seq![x].to_multiset().len() == 1);
    assert(s.len() == 1);
    assert(s.contains(s[0]));
    assert(s.to_multiset().count(s[0]) > 0);
    assert(s =~= seq![x]);
}

} // verus!

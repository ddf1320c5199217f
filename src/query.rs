//! A search over the remote database, the region of results it covers, and
//! the rule that divides one search into smaller ones.
use vstd::prelude::*;
use crate::facet::{Course, Distance, Gender, Stroke, TimeType, Zone, event_distances, valid_event};

verus! {

/// First day a search may name: 0001-01-01, as day 1 of the common era.
pub const FIRST_DAY: i32 = 1;

/// Last day a search may name: 9999-12-31, counted from 0001-01-01 as day 1.
pub const LAST_DAY: i32 = 3652059;

/// The upper age that an open age range stands for while it is bisected.
pub const AGE_SENTINEL: u8 = 51;

/// One search of the top-times database. Dates are day numbers of the
/// common era (0001-01-01 is day 1); both ends of the date range and of the
/// age range are inclusive, and an absent age bound leaves that end open.
#[derive(Clone, Copy, Debug, PartialEq, Eq, Structural)]
pub struct TopTimesRequest {
    pub gender: Gender,
    pub distance: Distance,
    pub stroke: Stroke,
    pub course: Course,
    pub from_date: i32,
    pub to_date: i32,
    pub start_age: Option<u8>,
    pub end_age: Option<u8>,
    pub zone: Zone,
    pub time_type: TimeType,
    pub members_only: bool,
    pub best_only: bool,
    pub max_results: u32,
}

impl TopTimesRequest {
    /// Whether the date range is ordered and lies within the supported calendar.
    pub fn is_well_formed(&self) -> (r: bool)
        ensures
            r == wf(*self),
    {
        FIRST_DAY <= self.from_date && self.from_date <= self.to_date && self.to_date <= LAST_DAY
    }
}

/// The facets along which a search may be divided.
#[derive(Clone, Copy, Debug, PartialEq, Eq, Structural)]
pub struct Axes {
    pub course: bool,
    pub stroke: bool,
    pub distance: bool,
    pub date: bool,
    pub age: bool,
    pub zone: bool,
}

/// One concrete combination of facet values that a result can carry.
#[derive(Clone, Copy, Debug, PartialEq, Eq, Structural)]
pub struct Coordinate {
    pub gender: Gender,
    pub course: Course,
    pub stroke: Stroke,
    pub distance: Distance,
    pub day: i32,
    pub age: u8,
    pub zone: Zone,
}

/// A search over a date range that lies within the supported calendar.
pub open spec fn wf(q: TopTimesRequest) -> bool {
    FIRST_DAY <= q.from_date <= q.to_date <= LAST_DAY
}

pub open spec fn age_low(q: TopTimesRequest) -> int {
    match q.start_age {
        Some(a) => a as int,
        None => 0,
    }
}

/// The upper age used to bisect: the bound itself, or the sentinel when open.
pub open spec fn age_high(q: TopTimesRequest) -> int {
    match q.end_age {
        Some(b) => b as int,
        None => AGE_SENTINEL as int,
    }
}

/// Whether `q` matches results at `p`: every wildcard matches anything, and
/// the date and age of `p` lie within the ranges of `q`.
pub open spec fn covers(q: TopTimesRequest, p: Coordinate) -> bool {
    &&& p.gender == q.gender
    &&& (q.course == Course::All || p.course == q.course)
    &&& (q.stroke == Stroke::All || p.stroke == q.stroke)
    &&& (q.distance == Distance::All || p.distance == q.distance)
    &&& (q.zone == Zone::All || p.zone == q.zone)
    &&& q.from_date <= p.day <= q.to_date
    &&& age_low(q) <= p.age
    &&& match q.end_age {
        Some(b) => p.age <= b,
        None => true,
    }
}

/// A coordinate that the mirror is meant to fetch: an event on the allow-list,
/// in a concrete zone.
pub open spec fn in_scope(p: Coordinate) -> bool {
    valid_event(p.distance, p.stroke, p.course) && p.zone != Zone::All
}

/// No coordinate is matched by both searches.
pub open spec fn disjoint(a: TopTimesRequest, b: TopTimesRequest) -> bool {
    forall|p: Coordinate| !(#[trigger] covers(a, p) && #[trigger] covers(b, p))
}

/// Every coordinate matched by `c` is matched by `q`.
pub open spec fn within(c: TopTimesRequest, q: TopTimesRequest) -> bool {
    forall|p: Coordinate| #[trigger] covers(c, p) ==> covers(q, p)
}

pub open spec fn pairwise_disjoint(s: Seq<TopTimesRequest>) -> bool {
    forall|i: int, j: int| 0 <= i < s.len() && 0 <= j < s.len() && i != j ==> disjoint(#[trigger] s[i], #[trigger] s[j])
}

pub open spec fn with_course(q: TopTimesRequest, c: Course) -> TopTimesRequest {
    TopTimesRequest { course: c, ..q }
}

pub open spec fn with_stroke(q: TopTimesRequest, s: Stroke) -> TopTimesRequest {
    TopTimesRequest { stroke: s, ..q }
}

pub open spec fn with_distance(q: TopTimesRequest, d: Distance) -> TopTimesRequest {
    TopTimesRequest { distance: d, ..q }
}

pub open spec fn with_zone(q: TopTimesRequest, z: Zone) -> TopTimesRequest {
    TopTimesRequest { zone: z, ..q }
}

pub open spec fn date_mid(q: TopTimesRequest) -> int {
    q.from_date + (q.to_date - q.from_date) / 2
}

pub open spec fn age_mid(q: TopTimesRequest) -> int {
    age_low(q) + (age_high(q) - age_low(q)) / 2
}

/// The first half of the date range: from its first day to its midpoint.
pub open spec fn date_left(q: TopTimesRequest) -> TopTimesRequest {
    TopTimesRequest { to_date: date_mid(q) as i32, ..q }
}

/// The second half of the date range: from the day after its midpoint.
pub open spec fn date_right(q: TopTimesRequest) -> TopTimesRequest {
    TopTimesRequest { from_date: (date_mid(q) + 1) as i32, ..q }
}

pub open spec fn age_left(q: TopTimesRequest) -> TopTimesRequest {
    TopTimesRequest { start_age: Some(age_low(q) as u8), end_age: Some(age_mid(q) as u8), ..q }
}

/// The upper half of the age range; an open upper end stays open.
pub open spec fn age_right(q: TopTimesRequest) -> TopTimesRequest {
    TopTimesRequest { start_age: Some((age_mid(q) + 1) as u8), ..q }
}

/// The children of one division step: the first rule that applies, in the
/// order course, stroke, distance, date, age, zone; empty for a leaf.
pub open spec fn children(q: TopTimesRequest, axes: Axes) -> Seq<TopTimesRequest> {
    if axes.course && q.course == Course::All {
        seq![with_course(q, Course::SCY), with_course(q, Course::SCM), with_course(q, Course::LCM)]
    } else if axes.stroke && q.stroke == Stroke::All {
        seq![
            with_stroke(q, Stroke::Freestyle),
            with_stroke(q, Stroke::Backstroke),
            with_stroke(q, Stroke::Breaststroke),
            with_stroke(q, Stroke::Butterfly),
            with_stroke(q, Stroke::IndividualMedley),
        ]
    } else if axes.distance && q.distance == Distance::All {
        event_distances(q.stroke, q.course).map_values(|d: Distance| with_distance(q, d))
    } else if axes.date && q.from_date != q.to_date {
        seq![date_left(q), date_right(q)]
    } else if axes.age && age_low(q) < age_high(q) {
        seq![age_left(q), age_right(q)]
    } else if axes.zone && q.zone == Zone::All {
        seq![
            with_zone(q, Zone::Central),
            with_zone(q, Zone::Eastern),
            with_zone(q, Zone::Southern),
            with_zone(q, Zone::Western),
        ]
    } else {
        seq![]
    }
}

/// A search that no rule divides any further.
pub open spec fn is_leaf(q: TopTimesRequest, axes: Axes) -> bool {
    children(q, axes).len() == 0
}

/// How far a search is from being a leaf: each division step lowers it.
pub open spec fn measure(q: TopTimesRequest) -> nat {
    ((if q.course == Course::All { 1int } else { 0 }) + (if q.stroke == Stroke::All {
        1int
    } else {
        0
    }) + (if q.distance == Distance::All { 1int } else { 0 }) + (if q.zone == Zone::All {
        1int
    } else {
        0
    }) + (q.to_date - q.from_date) + (if age_low(q) < age_high(q) {
        age_high(q) - age_low(q)
    } else {
        0
    })) as nat
}


proof fn lemma_event_distances_distinct(stroke: Stroke, course: Course)
    ensures
        event_distances(stroke, course).no_duplicates(),
{
    let ds = event_distances(stroke, course);
    assert forall|i: int, j: int| 0 <= i < ds.len() && 0 <= j < ds.len() && i != j implies ds[i] != ds[j] by {
    }
}

proof fn lemma_child_shrink(q: TopTimesRequest, axes: Axes, i: int)
    requires
        wf(q),
        0 <= i < children(q, axes).len(),
    ensures
        wf(children(q, axes)[i]),
        within(children(q, axes)[i], q),
        measure(children(q, axes)[i]) < measure(q),
{
    let c = children(q, axes)[i];
    if axes.course && q.course == Course::All {
        assert(c.course != Course::All);
    } else if axes.stroke && q.stroke == Stroke::All {
        assert(c.stroke != Stroke::All);
    } else if axes.distance && q.distance == Distance::All {
        let ds = event_distances(q.stroke, q.course);
        assert(c == with_distance(q, ds[i]));
        assert(c.distance != Distance::All);
    } else if axes.date && q.from_date != q.to_date {
        assert(c.from_date <= c.to_date);
        assert(c.to_date - c.from_date < q.to_date - q.from_date);
    } else if axes.age && age_low(q) < age_high(q) {
        assert(age_low(c) >= age_low(q));
        assert(age_high(c) <= age_high(q));
        assert forall|p: Coordinate| #[trigger] covers(c, p) implies covers(q, p) by {
            if i == 1 {
                match q.end_age {
                    Some(b) => {},
                    None => {},
                }
            }
        }
    } else {
        assert(c.zone != Zone::All);
    }
}

/// Each child of a well-formed search is well-formed, lies within it, and
/// is strictly closer to being a leaf.
pub proof fn lemma_children_shrink(q: TopTimesRequest, axes: Axes)
    requires
        wf(q),
    ensures
        forall|i: int| 0 <= i < children(q, axes).len() ==> {
            &&& wf(#[trigger] children(q, axes)[i])
            &&& within(children(q, axes)[i], q)
            &&& measure(children(q, axes)[i]) < measure(q)
        },
{
    assert forall|i: int| 0 <= i < children(q, axes).len() implies {
        &&& wf(#[trigger] children(q, axes)[i])
        &&& within(children(q, axes)[i], q)
        &&& measure(children(q, axes)[i]) < measure(q)
    } by {
        lemma_child_shrink(q, axes, i);
    }
}

/// Siblings never match a common coordinate.
pub proof fn lemma_children_disjoint(q: TopTimesRequest, axes: Axes)
    requires
        wf(q),
    ensures
        pairwise_disjoint(children(q, axes)),
{
    let ch = children(q, axes);
    assert forall|i: int, j: int| 0 <= i < ch.len() && 0 <= j < ch.len() && i != j implies disjoint(#[trigger] ch[i], #[trigger] ch[j]) by {
        if axes.course && q.course == Course::All {
        } else if axes.stroke && q.stroke == Stroke::All {
        } else if axes.distance && q.distance == Distance::All {
            lemma_event_distances_distinct(q.stroke, q.course);
        } else {
        }
    }
}

/// Every in-scope coordinate that a divided search matches is matched by
/// one of its children.
pub proof fn lemma_children_cover(q: TopTimesRequest, axes: Axes, p: Coordinate)
    requires
        wf(q),
        in_scope(p),
        covers(q, p),
        children(q, axes).len() > 0,
    ensures
        exists|i: int| 0 <= i < children(q, axes).len() && covers(#[trigger] children(q, axes)[i], p),
{
    let ch = children(q, axes);
    if axes.course && q.course == Course::All {
        if p.course == Course::SCY {
            assert(covers(ch[0], p));
        } else if p.course == Course::SCM {
            assert(covers(ch[1], p));
        } else {
            assert(covers(ch[2], p));
        }
    } else if axes.stroke && q.stroke == Stroke::All {
        if p.stroke == Stroke::Freestyle {
            assert(covers(ch[0], p));
        } else if p.stroke == Stroke::Backstroke {
            assert(covers(ch[1], p));
        } else if p.stroke == Stroke::Breaststroke {
            assert(covers(ch[2], p));
        } else if p.stroke == Stroke::Butterfly {
            assert(covers(ch[3], p));
        } else {
            assert(covers(ch[4], p));
        }
    } else if axes.distance && q.distance == Distance::All {
        let ds = event_distances(q.stroke, q.course);
        let k = choose|k: int| 0 <= k < ds.len() && ds[k] == p.distance;
        assert(covers(ch[k], p));
    } else if axes.date && q.from_date != q.to_date {
        if p.day <= date_mid(q) {
            assert(covers(ch[0], p));
        } else {
            assert(covers(ch[1], p));
        }
    } else if axes.age && age_low(q) < age_high(q) {
        if p.age <= age_mid(q) {
            assert(covers(ch[0], p));
        } else {
            assert(covers(ch[1], p));
        }
    } else {
        if p.zone == Zone::Central {
            assert(covers(ch[0], p));
        } else if p.zone == Zone::Eastern {
            assert(covers(ch[1], p));
        } else if p.zone == Zone::Southern {
            assert(covers(ch[2], p));
        } else {
            assert(covers(ch[3], p));
        }
    }
}


pub open spec fn course_card(q: TopTimesRequest) -> int {
    if q.course == Course::All { 3 } else { 1 }
}

pub open spec fn stroke_card(q: TopTimesRequest) -> int {
    if q.stroke == Stroke::All { 5 } else { 1 }
}

pub open spec fn distance_card(q: TopTimesRequest) -> int {
    if q.distance == Distance::All { 6 } else { 1 }
}

pub open spec fn zone_card(q: TopTimesRequest) -> int {
    if q.zone == Zone::All { 4 } else { 1 }
}

pub open spec fn day_count(q: TopTimesRequest) -> int {
    q.to_date - q.from_date + 1
}

pub open spec fn age_count(q: TopTimesRequest) -> int {
    if age_low(q) < age_high(q) { age_high(q) - age_low(q) + 1 } else { 1 }
}

/// How many values of each facet a search leaves open, multiplied together:
/// 3 courses, 5 individual strokes, at most 6 distances of one stroke and
/// course, the days of its range, the ages it bisects and 4 zones.
pub open spec fn leaf_bound(q: TopTimesRequest) -> int {
    course_card(q) * stroke_card(q) * distance_card(q) * day_count(q) * age_count(q) * zone_card(q)
}

/// The sum of `leaf_bound` over `s`.
pub open spec fn total_bound(s: Seq<TopTimesRequest>) -> int
    decreases s.len(),
{
    if s.len() == 0 {
        0
    } else {
        total_bound(s.drop_last()) + leaf_bound(s.last())
    }
}

pub proof fn lemma_total_bound_append(a: Seq<TopTimesRequest>, b: Seq<TopTimesRequest>)
    ensures
        total_bound(a + b) == total_bound(a) + total_bound(b),
    decreases b.len(),
{
    if b.len() > 0 {
        assert((a + b).drop_last() =~= a + b.drop_last());
        lemma_total_bound_append(a, b.drop_last());
    } else {
        assert(a + b =~= a);
    }
}

proof fn lemma_total_bound_uniform(s: Seq<TopTimesRequest>, v: int)
    requires
        forall|i: int| 0 <= i < s.len() ==> leaf_bound(#[trigger] s[i]) == v,
    ensures
        total_bound(s) == s.len() * v,
    decreases s.len(),
{
    if s.len() > 0 {
        lemma_total_bound_uniform(s.drop_last(), v);
        assert(total_bound(s) == (s.len() - 1) * v + v);
        assert((s.len() - 1) * v + v == s.len() * v) by (nonlinear_arith);
    }
}

proof fn lemma_total_bound_pair(a: TopTimesRequest, b: TopTimesRequest)
    ensures
        total_bound(seq![a, b]) == leaf_bound(a) + leaf_bound(b),
{
    reveal_with_fuel(total_bound, 3);
    assert(seq![a, b].drop_last() =~= seq![a]);
    assert(seq![a].drop_last() =~= Seq::<TopTimesRequest>::empty());
}

pub proof fn lemma_leaf_bound_positive(q: TopTimesRequest)
    requires
        wf(q),
    ensures
        leaf_bound(q) >= 1,
{
    let (c, s, d, days, ages, z) = (course_card(q), stroke_card(q), distance_card(q), day_count(q), age_count(q), zone_card(q));
    assert(c * s * d * days * ages * z >= 1) by (nonlinear_arith)
        requires
            c >= 1,
            s >= 1,
            d >= 1,
            days >= 1,
            ages >= 1,
            z >= 1,
    ;
}

/// Where every child changes one factor of `q` from `from` to 1, and there
/// are at most `from` of them, the children's bounds add up to at most that of `q`.
proof fn lemma_bound_one_factor(q: TopTimesRequest, ch: Seq<TopTimesRequest>, other: int, from: int)
    requires
        wf(q),
        other >= 0,
        leaf_bound(q) == from * other,
        ch.len() <= from,
        forall|i: int| 0 <= i < ch.len() ==> leaf_bound(#[trigger] ch[i]) == other,
    ensures
        total_bound(ch) <= leaf_bound(q),
{
    lemma_total_bound_uniform(ch, other);
    assert(ch.len() * other <= from * other) by (nonlinear_arith)
        requires
            ch.len() <= from,
            other >= 0,
    ;
}

proof fn lemma_product_nonneg(a: int, b: int, c: int, d: int, e: int)
    requires
        a >= 1,
        b >= 1,
        c >= 1,
        d >= 1,
        e >= 1,
    ensures
        a * b * c * d * e >= 1,
{
    assert(a * b * c * d * e >= 1) by (nonlinear_arith)
        requires
            a >= 1,
            b >= 1,
            c >= 1,
            d >= 1,
            e >= 1,
    ;
}

/// The children of a search leave, together, no more open combinations
/// than the search itself.
pub proof fn lemma_children_bound(q: TopTimesRequest, axes: Axes)
    requires
        wf(q),
    ensures
        total_bound(children(q, axes)) <= leaf_bound(q),
{
    let ch = children(q, axes);
    let (c, s, d, days, ages, z) = (course_card(q), stroke_card(q), distance_card(q), day_count(q), age_count(q), zone_card(q));
    if axes.course && q.course == Course::All {
        let other = s * d * days * ages * z;
        lemma_product_nonneg(s, d, days, ages, z);
        assert(c * s * d * days * ages * z == 3 * other) by (nonlinear_arith)
            requires
                c == 3,
                other == s * d * days * ages * z,
        ;
        assert forall|i: int| 0 <= i < ch.len() implies leaf_bound(#[trigger] ch[i]) == other by {
            assert(1 * s * d * days * ages * z == other) by (nonlinear_arith)
                requires
                    other == s * d * days * ages * z,
            ;
        }
        lemma_bound_one_factor(q, ch, other, 3);
    } else if axes.stroke && q.stroke == Stroke::All {
        let other = c * d * days * ages * z;
        lemma_product_nonneg(c, d, days, ages, z);
        assert(c * s * d * days * ages * z == 5 * other) by (nonlinear_arith)
            requires
                s == 5,
                other == c * d * days * ages * z,
        ;
        assert forall|i: int| 0 <= i < ch.len() implies leaf_bound(#[trigger] ch[i]) == other by {
            assert(c * 1 * d * days * ages * z == other) by (nonlinear_arith)
                requires
                    other == c * d * days * ages * z,
            ;
        }
        lemma_bound_one_factor(q, ch, other, 5);
    } else if axes.distance && q.distance == Distance::All {
        let other = c * s * days * ages * z;
        lemma_product_nonneg(c, s, days, ages, z);
        assert(c * s * d * days * ages * z == 6 * other) by (nonlinear_arith)
            requires
                d == 6,
                other == c * s * days * ages * z,
        ;
        assert forall|i: int| 0 <= i < ch.len() implies leaf_bound(#[trigger] ch[i]) == other by {
            let ds = event_distances(q.stroke, q.course);
            assert(ch[i] == with_distance(q, ds[i]));
            assert(c * s * 1 * days * ages * z == other) by (nonlinear_arith)
                requires
                    other == c * s * days * ages * z,
            ;
        }
        lemma_bound_one_factor(q, ch, other, 6);
    } else if axes.date && q.from_date != q.to_date {
        let l = date_left(q);
        let r = date_right(q);
        let (dl, dr) = (day_count(l), day_count(r));
        assert(dl + dr == days);
        assert(c * s * d * dl * ages * z + c * s * d * dr * ages * z == c * s * d * days * ages * z) by (nonlinear_arith)
            requires
                dl + dr == days,
        ;
        lemma_total_bound_pair(l, r);
    } else if axes.age && age_low(q) < age_high(q) {
        let l = age_left(q);
        let r = age_right(q);
        let (al, ar) = (age_count(l), age_count(r));
        assert(al + ar == ages);
        assert(c * s * d * days * al * z + c * s * d * days * ar * z == c * s * d * days * ages * z) by (nonlinear_arith)
            requires
                al + ar == ages,
        ;
        lemma_total_bound_pair(l, r);
    } else if axes.zone && q.zone == Zone::All {
        let other = c * s * d * days * ages;
        lemma_product_nonneg(c, s, d, days, ages);
        assert(c * s * d * days * ages * z == 4 * other) by (nonlinear_arith)
            requires
                z == 4,
                other == c * s * d * days * ages,
        ;
        assert forall|i: int| 0 <= i < ch.len() implies leaf_bound(#[trigger] ch[i]) == other by {
            assert(c * s * d * days * ages * 1 == other);
        }
        lemma_bound_one_factor(q, ch, other, 4);
    } else {
        lemma_leaf_bound_positive(q);
    }
}


/// `c` has the gender, kind of swim, member and best-time flags and result
/// cap of `q`: the fields that division never changes.
pub open spec fn keeps_fields(c: TopTimesRequest, q: TopTimesRequest) -> bool {
    &&& c.gender == q.gender
    &&& c.time_type == q.time_type
    &&& c.members_only == q.members_only
    &&& c.best_only == q.best_only
    &&& c.max_results == q.max_results
}

/// The age range is not inverted: a closed range starts no later than it ends.
pub open spec fn ages_ordered(q: TopTimesRequest) -> bool {
    match q.end_age {
        Some(b) => age_low(q) <= b,
        None => true,
    }
}

/// A coordinate that a search with an ordered age range matches.
pub open spec fn witness(q: TopTimesRequest) -> Coordinate {
    Coordinate {
        gender: q.gender,
        course: if q.course == Course::All { Course::SCY } else { q.course },
        stroke: if q.stroke == Stroke::All { Stroke::Freestyle } else { q.stroke },
        distance: if q.distance == Distance::All { Distance::_50 } else { q.distance },
        day: q.from_date,
        age: age_low(q) as u8,
        zone: if q.zone == Zone::All { Zone::Central } else { q.zone },
    }
}

pub proof fn lemma_witness(q: TopTimesRequest)
    requires
        wf(q),
        ages_ordered(q),
    ensures
        covers(q, witness(q)),
{
}

/// Children keep the fields that division never changes, and an ordered
/// age range stays ordered.
pub proof fn lemma_children_keep(q: TopTimesRequest, axes: Axes)
    requires
        wf(q),
    ensures
        forall|i: int| 0 <= i < children(q, axes).len() ==> {
            &&& keeps_fields(#[trigger] children(q, axes)[i], q)
            &&& (ages_ordered(q) ==> ages_ordered(children(q, axes)[i]))
        },
{
    assert forall|i: int| 0 <= i < children(q, axes).len() implies {
        &&& keeps_fields(#[trigger] children(q, axes)[i], q)
        &&& (ages_ordered(q) ==> ages_ordered(children(q, axes)[i]))
    } by {
        if axes.distance && q.distance == Distance::All && !(axes.course && q.course == Course::All) && !(axes.stroke && q.stroke == Stroke::All) {
            let ds = event_distances(q.stroke, q.course);
            assert(children(q, axes)[i] == with_distance(q, ds[i]));
        }
    }
}

/// The leaves that repeated division reaches from `q`, depth first, with
/// `fuel` levels of division allowed.
pub open spec fn leaves_fuel(q: TopTimesRequest, axes: Axes, fuel: nat) -> Seq<TopTimesRequest>
    decreases fuel, 0int,
{
    if fuel == 0 || is_leaf(q, axes) {
        seq![q]
    } else {
        forest_fuel(children(q, axes), axes, (fuel - 1) as nat)
    }
}

/// The leaves reached from each search of `qs` in turn, with `fuel` levels
/// of division allowed.
pub open spec fn forest_fuel(qs: Seq<TopTimesRequest>, axes: Axes, fuel: nat) -> Seq<TopTimesRequest>
    decreases fuel, qs.len() + 1,
{
    if qs.len() == 0 {
        seq![]
    } else {
        forest_fuel(qs.drop_last(), axes, fuel) + leaves_fuel(qs.last(), axes, fuel)
    }
}

/// The leaves of `q`: `q` itself where it is a leaf, and otherwise the
/// leaves of its children, one child after the other.
pub open spec fn leaves_of(q: TopTimesRequest, axes: Axes) -> Seq<TopTimesRequest> {
    leaves_fuel(q, axes, measure(q) + 1)
}

/// The leaves of each search of `qs`, one search after the other.
pub open spec fn forest_of(qs: Seq<TopTimesRequest>, axes: Axes) -> Seq<TopTimesRequest>
    decreases qs.len(),
{
    if qs.len() == 0 {
        seq![]
    } else {
        forest_of(qs.drop_last(), axes) + leaves_of(qs.last(), axes)
    }
}

proof fn lemma_leaves_fuel(q: TopTimesRequest, axes: Axes, f1: nat, f2: nat)
    requires
        wf(q),
        measure(q) < f1,
        measure(q) < f2,
    ensures
        leaves_fuel(q, axes, f1) == leaves_fuel(q, axes, f2),
    decreases f1, 0int,
{
    if !is_leaf(q, axes) {
        lemma_children_shrink(q, axes);
        lemma_forest_fuel(children(q, axes), axes, (f1 - 1) as nat, (f2 - 1) as nat);
    }
}

proof fn lemma_forest_fuel(qs: Seq<TopTimesRequest>, axes: Axes, f1: nat, f2: nat)
    requires
        forall|i: int| 0 <= i < qs.len() ==> wf(#[trigger] qs[i]) && measure(qs[i]) < f1 && measure(qs[i]) < f2,
    ensures
        forest_fuel(qs, axes, f1) == forest_fuel(qs, axes, f2),
    decreases f1, qs.len() + 1,
{
    if qs.len() > 0 {
        let rest = qs.drop_last();
        assert forall|i: int| 0 <= i < rest.len() implies wf(#[trigger] rest[i]) && measure(rest[i]) < f1 && measure(rest[i]) < f2 by {
            assert(rest[i] == qs[i]);
        }
        lemma_forest_fuel(rest, axes, f1, f2);
        lemma_leaves_fuel(qs.last(), axes, f1, f2);
    }
}

proof fn lemma_forest_fuel_of(qs: Seq<TopTimesRequest>, axes: Axes, fuel: nat)
    requires
        forall|i: int| 0 <= i < qs.len() ==> wf(#[trigger] qs[i]) && measure(qs[i]) < fuel,
    ensures
        forest_fuel(qs, axes, fuel) == forest_of(qs, axes),
    decreases qs.len(),
{
    if qs.len() > 0 {
        let rest = qs.drop_last();
        assert forall|i: int| 0 <= i < rest.len() implies wf(#[trigger] rest[i]) && measure(rest[i]) < fuel by {
            assert(rest[i] == qs[i]);
        }
        lemma_forest_fuel_of(rest, axes, fuel);
        let x = qs.last();
        lemma_leaves_fuel(x, axes, fuel, measure(x) + 1);
    }
}

/// The leaves of a leaf are itself; those of any other search are the
/// leaves of its children.
pub proof fn lemma_leaves_of_unfold(q: TopTimesRequest, axes: Axes)
    requires
        wf(q),
    ensures
        is_leaf(q, axes) ==> leaves_of(q, axes) == seq![q],
        !is_leaf(q, axes) ==> leaves_of(q, axes) == forest_of(children(q, axes), axes),
{
    if !is_leaf(q, axes) {
        lemma_children_shrink(q, axes);
        lemma_forest_fuel_of(children(q, axes), axes, measure(q));
    }
}

pub proof fn lemma_forest_of_append(a: Seq<TopTimesRequest>, b: Seq<TopTimesRequest>, axes: Axes)
    ensures
        forest_of(a + b, axes) == forest_of(a, axes) + forest_of(b, axes),
    decreases b.len(),
{
    if b.len() > 0 {
        assert((a + b).drop_last() =~= a + b.drop_last());
        assert((a + b).last() == b.last());
        lemma_forest_of_append(a, b.drop_last(), axes);
        assert(forest_of(a + b, axes) =~= forest_of(a, axes) + forest_of(b, axes));
    } else {
        assert(a + b =~= a);
        assert(forest_of(a, axes) + forest_of(b, axes) =~= forest_of(a, axes));
    }
}


/// The number of divide calls that repeated division makes from `q`: one for
/// `q`, and those of each child, with `fuel` levels of division allowed.
pub open spec fn steps_fuel(q: TopTimesRequest, axes: Axes, fuel: nat) -> int
    decreases fuel, 0int,
{
    if fuel == 0 || is_leaf(q, axes) {
        1
    } else {
        1 + forest_steps_fuel(children(q, axes), axes, (fuel - 1) as nat)
    }
}

pub open spec fn forest_steps_fuel(qs: Seq<TopTimesRequest>, axes: Axes, fuel: nat) -> int
    decreases fuel, qs.len() + 1,
{
    if qs.len() == 0 {
        0
    } else {
        forest_steps_fuel(qs.drop_last(), axes, fuel) + steps_fuel(qs.last(), axes, fuel)
    }
}

/// The number of divide calls that dividing `q` down to its leaves makes.
pub open spec fn division_steps(q: TopTimesRequest, axes: Axes) -> int {
    steps_fuel(q, axes, measure(q) + 1)
}

/// A search that is divided has at least two children.
proof fn lemma_divided_has_two(q: TopTimesRequest, axes: Axes)
    requires
        wf(q),
        !is_leaf(q, axes),
    ensures
        children(q, axes).len() >= 2,
{
    if axes.distance && q.distance == Distance::All && !(axes.course && q.course == Course::All) && !(axes.stroke && q.stroke == Stroke::All) {
        assert(event_distances(q.stroke, q.course).len() >= 2 || event_distances(q.stroke, q.course).len() == 0);
    }
}

proof fn lemma_steps_fuel(q: TopTimesRequest, axes: Axes, fuel: nat)
    requires
        wf(q),
    ensures
        steps_fuel(q, axes, fuel) <= 2 * leaf_bound(q) - 1,
    decreases fuel, 0int,
{
    lemma_leaf_bound_positive(q);
    if fuel > 0 && !is_leaf(q, axes) {
        let ch = children(q, axes);
        lemma_children_shrink(q, axes);
        lemma_children_bound(q, axes);
        lemma_divided_has_two(q, axes);
        lemma_forest_steps_fuel(ch, axes, (fuel - 1) as nat);
    }
}

proof fn lemma_forest_steps_fuel(qs: Seq<TopTimesRequest>, axes: Axes, fuel: nat)
    requires
        forall|i: int| 0 <= i < qs.len() ==> wf(#[trigger] qs[i]),
    ensures
        forest_steps_fuel(qs, axes, fuel) <= 2 * total_bound(qs) - qs.len(),
    decreases fuel, qs.len() + 1,
{
    if qs.len() > 0 {
        let rest = qs.drop_last();
        assert forall|i: int| 0 <= i < rest.len() implies wf(#[trigger] rest[i]) by {
            assert(rest[i] == qs[i]);
        }
        lemma_forest_steps_fuel(rest, axes, fuel);
        lemma_steps_fuel(qs.last(), axes, fuel);
    }
}

/// Dividing a search down to its leaves takes at most `2 * leaf_bound(q) - 1`
/// divide calls: every divided search has at least two children, and there
/// are at most `leaf_bound(q)` leaves.
pub proof fn lemma_division_steps_bound(q: TopTimesRequest, axes: Axes)
    requires
        wf(q),
    ensures
        1 <= division_steps(q, axes) <= 2 * leaf_bound(q) - 1,
{
    lemma_steps_fuel(q, axes, measure(q) + 1);
    lemma_steps_positive(q, axes, measure(q) + 1);
}

proof fn lemma_steps_positive(q: TopTimesRequest, axes: Axes, fuel: nat)
    ensures
        steps_fuel(q, axes, fuel) >= 1,
    decreases fuel, 0int,
{
    if fuel > 0 && !is_leaf(q, axes) {
        lemma_forest_steps_nonneg(children(q, axes), axes, (fuel - 1) as nat);
    }
}

proof fn lemma_forest_steps_nonneg(qs: Seq<TopTimesRequest>, axes: Axes, fuel: nat)
    ensures
        forest_steps_fuel(qs, axes, fuel) >= 0,
    decreases fuel, qs.len() + 1,
{
    if qs.len() > 0 {
        lemma_forest_steps_nonneg(qs.drop_last(), axes, fuel);
        lemma_steps_positive(qs.last(), axes, fuel);
    }
}

} // verus!

use chrono::{Datelike, NaiveDate};
use swimrs::facet::{Course, Distance, Gender, Stroke, SwimEvent, TimeType, Zone};
use swimrs::facet::{event_distance_list, is_valid_event};
use swimrs::partition::{atomize, divide};
use swimrs::query::{Axes, TopTimesRequest};

fn day(y: i32, m: u32, d: u32) -> i32 {
    NaiveDate::from_ymd_opt(y, m, d).unwrap().num_days_from_ce()
}

fn all_axes() -> Axes {
    Axes { course: true, stroke: true, distance: true, date: true, age: true, zone: true }
}

fn seed_axes() -> Axes {
    Axes { zone: false, ..all_axes() }
}

fn request(course: Course, stroke: Stroke, distance: Distance, from: i32, to: i32) -> TopTimesRequest {
    TopTimesRequest {
        gender: Gender::Male,
        distance,
        stroke,
        course,
        from_date: from,
        to_date: to,
        start_age: Some(0),
        end_age: None,
        zone: Zone::All,
        time_type: TimeType::Individual,
        members_only: false,
        best_only: false,
        max_results: 5000,
    }
}

#[test]
fn divide_root_splits_by_course() {
    let d = day(2021, 1, 1);
    let q = request(Course::All, Stroke::Freestyle, Distance::All, d, d);
    let children = divide(&q, &all_axes());
    assert_eq!(children.len(), 3);
    let courses: Vec<Course> = children.iter().map(|c| c.course).collect();
    assert_eq!(courses, vec![Course::SCY, Course::SCM, Course::LCM]);
    for c in &children {
        assert_eq!(c.stroke, Stroke::Freestyle);
        assert_eq!(c.distance, Distance::All);
        assert_eq!(c.from_date, d);
        assert_eq!(c.to_date, d);
        assert_eq!(c.start_age, Some(0));
        assert_eq!(c.end_age, None);
    }
}

#[test]
fn divide_two_day_range_into_single_days() {
    let d1 = day(2021, 1, 1);
    let d2 = day(2021, 1, 2);
    let q = request(Course::SCY, Stroke::Freestyle, Distance::_50, d1, d2);
    let children = divide(&q, &all_axes());
    assert_eq!(children.len(), 2);
    assert_eq!((children[0].from_date, children[0].to_date), (d1, d1));
    assert_eq!((children[1].from_date, children[1].to_date), (d2, d2));
}

#[test]
fn divide_date_range_at_midpoint() {
    let d1 = day(2021, 1, 1);
    let d4 = day(2021, 1, 4);
    let q = request(Course::SCY, Stroke::Freestyle, Distance::_50, d1, d4);
    let children = divide(&q, &all_axes());
    assert_eq!(children.len(), 2);
    assert_eq!((children[0].from_date, children[0].to_date), (d1, d1 + 1));
    assert_eq!((children[1].from_date, children[1].to_date), (d1 + 2, d4));
}

#[test]
fn divide_stroke_excludes_relays() {
    let d = day(2021, 1, 1);
    let q = request(Course::LCM, Stroke::All, Distance::All, d, d);
    let strokes: Vec<Stroke> = divide(&q, &all_axes()).iter().map(|c| c.stroke).collect();
    assert_eq!(
        strokes,
        vec![Stroke::Freestyle, Stroke::Backstroke, Stroke::Breaststroke, Stroke::Butterfly, Stroke::IndividualMedley]
    );
}

#[test]
fn divide_distance_prunes_invalid_events() {
    let d = day(2021, 1, 1);
    let q = request(Course::LCM, Stroke::IndividualMedley, Distance::All, d, d);
    let distances: Vec<Distance> = divide(&q, &all_axes()).iter().map(|c| c.distance).collect();
    assert_eq!(distances, vec![Distance::_200, Distance::_400]);
    let q = request(Course::SCY, Stroke::Freestyle, Distance::All, d, d);
    let distances: Vec<Distance> = divide(&q, &all_axes()).iter().map(|c| c.distance).collect();
    assert_eq!(
        distances,
        vec![Distance::_50, Distance::_100, Distance::_200, Distance::_500, Distance::_1000, Distance::_1650]
    );
}

#[test]
fn divide_relay_stroke_has_no_distances() {
    let d = day(2021, 1, 1);
    let q = request(Course::SCY, Stroke::MedleyRelay, Distance::All, d, d);
    assert!(divide(&q, &all_axes()).is_empty());
}

#[test]
fn divide_open_age_range_uses_sentinel() {
    let d = day(2021, 1, 1);
    let q = request(Course::SCY, Stroke::Freestyle, Distance::_50, d, d);
    let children = divide(&q, &all_axes());
    assert_eq!(children.len(), 2);
    assert_eq!((children[0].start_age, children[0].end_age), (Some(0), Some(25)));
    assert_eq!((children[1].start_age, children[1].end_age), (Some(26), None));
}

#[test]
fn divide_two_ages_into_single_years() {
    let d = day(2021, 1, 1);
    let q = TopTimesRequest { start_age: Some(12), end_age: Some(13), ..request(Course::SCY, Stroke::Freestyle, Distance::_50, d, d) };
    let children = divide(&q, &all_axes());
    assert_eq!((children[0].start_age, children[0].end_age), (Some(12), Some(12)));
    assert_eq!((children[1].start_age, children[1].end_age), (Some(13), Some(13)));
}

#[test]
fn divide_zone_only_when_enabled() {
    let d = day(2021, 1, 1);
    let q = TopTimesRequest { start_age: Some(12), end_age: Some(12), ..request(Course::SCY, Stroke::Freestyle, Distance::_50, d, d) };
    assert!(divide(&q, &seed_axes()).is_empty());
    let zones: Vec<Zone> = divide(&q, &all_axes()).iter().map(|c| c.zone).collect();
    assert_eq!(zones, vec![Zone::Central, Zone::Eastern, Zone::Southern, Zone::Western]);
    let leaf = TopTimesRequest { zone: Zone::Eastern, ..q };
    assert!(divide(&leaf, &all_axes()).is_empty());
}

#[test]
fn age_above_sentinel_is_not_split() {
    let d = day(2021, 1, 1);
    let q = TopTimesRequest { start_age: Some(60), end_age: None, ..request(Course::SCY, Stroke::Freestyle, Distance::_50, d, d) };
    assert!(divide(&q, &seed_axes()).is_empty());
}

#[test]
fn atomize_counts_leaves_of_one_course() {
    let d = day(2021, 1, 1);
    let q = TopTimesRequest { start_age: Some(10), end_age: Some(11), ..request(Course::SCY, Stroke::All, Distance::All, d, d) };
    let leaves = atomize(q, &seed_axes());
    // 18 short-course-yards events times 2 single ages.
    assert_eq!(leaves.len(), 36);
    for (i, a) in leaves.iter().enumerate() {
        assert!(divide(a, &seed_axes()).is_empty());
        for b in leaves.iter().skip(i + 1) {
            assert_ne!(a, b);
        }
    }
}

#[test]
fn atomize_leaf_is_itself() {
    let d = day(2021, 1, 1);
    let q = TopTimesRequest { start_age: Some(10), end_age: Some(10), ..request(Course::SCY, Stroke::Backstroke, Distance::_100, d, d) };
    assert_eq!(atomize(q, &seed_axes()), vec![q]);
}

#[test]
fn atomize_covers_every_day_once() {
    let d1 = day(2021, 3, 1);
    let q = TopTimesRequest { start_age: Some(9), end_age: Some(9), ..request(Course::LCM, Stroke::Butterfly, Distance::_200, d1, d1 + 6) };
    let leaves = atomize(q, &seed_axes());
    let mut days: Vec<i32> = leaves.iter().map(|l| {
        assert_eq!(l.from_date, l.to_date);
        l.from_date
    }).collect();
    days.sort();
    assert_eq!(days, (d1..=d1 + 6).collect::<Vec<i32>>());
}

#[test]
fn valid_event_table() {
    assert!(is_valid_event(&SwimEvent::new(Distance::_1650, Stroke::Freestyle, Course::SCY)));
    assert!(!is_valid_event(&SwimEvent::new(Distance::_1650, Stroke::Freestyle, Course::LCM)));
    assert!(!is_valid_event(&SwimEvent::new(Distance::_100, Stroke::IndividualMedley, Course::LCM)));
    assert!(!is_valid_event(&SwimEvent::new(Distance::_50, Stroke::FreestyleRelay, Course::SCY)));
    assert_eq!(event_distance_list(Stroke::Breaststroke, Course::SCM), vec![Distance::_50, Distance::_100, Distance::_200]);
    let mut count = 0;
    for s in [Stroke::Freestyle, Stroke::Backstroke, Stroke::Breaststroke, Stroke::Butterfly, Stroke::IndividualMedley] {
        for c in [Course::SCY, Course::SCM, Course::LCM] {
            count += event_distance_list(s, c).len();
        }
    }
    assert_eq!(count, 53);
}

#[test]
fn swim_event_new_keeps_fields() {
    let e = SwimEvent::new(Distance::_200, Stroke::Butterfly, Course::SCM);
    assert_eq!(e.distance, Distance::_200);
    assert_eq!(e.stroke, Stroke::Butterfly);
    assert_eq!(e.course, Course::SCM);
}

#[test]
fn atomize_freestyle_over_all_courses() {
    let d = day(2021, 1, 1);
    let q = TopTimesRequest { start_age: Some(10), end_age: Some(10), ..request(Course::All, Stroke::Freestyle, Distance::All, d, d) };
    let leaves = atomize(q, &seed_axes());
    assert_eq!(leaves.len(), 18);
    let mut events: Vec<(Course, Distance)> = leaves.iter().map(|l| (l.course, l.distance)).collect();
    events.sort_by_key(|(c, dist)| (c.code(), dist.code()));
    events.dedup();
    assert_eq!(events.len(), 18);
    for l in &leaves {
        assert_eq!(l.stroke, Stroke::Freestyle);
        assert_eq!((l.from_date, l.to_date), (d, d));
        assert_eq!((l.start_age, l.end_age), (Some(10), Some(10)));
        assert_eq!(l.max_results, q.max_results);
        assert_eq!(l.gender, q.gender);
        assert!(is_valid_event(&SwimEvent::new(l.distance, l.stroke, l.course)));
    }
}

#[test]
fn atomize_leaf_of_atomize_is_itself() {
    let d = day(2021, 5, 3);
    let q = TopTimesRequest { start_age: Some(20), end_age: Some(22), ..request(Course::SCM, Stroke::All, Distance::All, d, d + 1) };
    for leaf in atomize(q, &seed_axes()) {
        assert_eq!(atomize(leaf, &seed_axes()), vec![leaf]);
    }
}

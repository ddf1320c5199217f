use std::collections::HashSet;

use chrono::{Datelike, NaiveDate};
use swimrs::facet::{Course, Distance, Gender, Stroke, TimeType, Zone};
use swimrs::identity::{identities_match, identity};
use swimrs::query::{Axes, TopTimesRequest};
use swimrs::schedule::{pending_requests, plan_requests, seed_requests, should_fetch};
use swimrs::store::RequestDb;
use swimrs::worker::{Action, FetchOutcome, apply, decide, next_delay, pacing_delay};

fn day(y: i32, m: u32, d: u32) -> i32 {
    NaiveDate::from_ymd_opt(y, m, d).unwrap().num_days_from_ce()
}

fn leaf(d: i32) -> TopTimesRequest {
    TopTimesRequest {
        gender: Gender::Male,
        distance: Distance::_50,
        stroke: Stroke::Freestyle,
        course: Course::SCY,
        from_date: d,
        to_date: d,
        start_age: Some(12),
        end_age: Some(12),
        zone: Zone::All,
        time_type: TimeType::Individual,
        members_only: false,
        best_only: false,
        max_results: 5000,
    }
}

fn seed_axes() -> Axes {
    Axes { course: true, stroke: true, distance: true, date: true, age: true, zone: false }
}

#[test]
fn identity_text_of_leaf() {
    let q = TopTimesRequest { end_age: None, start_age: Some(23), ..leaf(day(2021, 1, 1)) };
    assert_eq!(identity(&q), "male_scy_fr_50_2021-01-01_2021-01-01_23_all_all");
    let q = TopTimesRequest {
        gender: Gender::Female,
        course: Course::LCM,
        stroke: Stroke::IndividualMedley,
        distance: Distance::_400,
        from_date: day(2008, 8, 9),
        to_date: day(2008, 8, 17),
        start_age: None,
        end_age: Some(7),
        zone: Zone::Western,
        ..leaf(1)
    };
    assert_eq!(identity(&q), "female_lcm_im_400_2008-08-09_2008-08-17_all_7_western");
}

#[test]
fn identity_pads_early_years() {
    let q = leaf(day(987, 3, 4));
    assert_eq!(identity(&q), "male_scy_fr_50_0987-03-04_0987-03-04_12_12_all");
}

#[test]
fn identity_distinct_for_ten_thousand_leaves() {
    let genders = [Gender::Male, Gender::Female, Gender::Mixed];
    let courses = [Course::SCY, Course::SCM, Course::LCM];
    let strokes = [Stroke::Freestyle, Stroke::Backstroke, Stroke::Breaststroke, Stroke::Butterfly, Stroke::IndividualMedley];
    let zones = [Zone::Central, Zone::Eastern, Zone::Southern, Zone::Western];
    let base = day(2020, 1, 1);
    let mut seen = HashSet::new();
    let mut n = 0;
    'outer: for g in genders {
        for c in courses {
            for s in strokes {
                for z in zones {
                    for offset in 0..10 {
                        for age in 0..6u8 {
                            let end = if age == 5 { None } else { Some(age) };
                            let q = TopTimesRequest {
                                gender: g,
                                course: c,
                                stroke: s,
                                zone: z,
                                from_date: base + offset * 37,
                                to_date: base + offset * 37,
                                start_age: Some(age * 10),
                                end_age: end,
                                ..leaf(base)
                            };
                            seen.insert(identity(&q));
                            n += 1;
                            if n == 10_000 {
                                break 'outer;
                            }
                        }
                    }
                }
            }
        }
    }
    assert_eq!(n, 10_000);
    assert_eq!(seen.len(), 10_000);
}

#[test]
fn store_success_and_error() {
    let mut db = RequestDb::new();
    assert!(!db.check_request_success("a"));
    assert!(db.upsert_request_error("a", "timeout", 10));
    assert!(!db.check_request_success("a"));
    assert!(!db.upsert_request_error("a", "timeout again", 11));
    db.upsert_request_success("a", 12, 20);
    assert!(db.check_request_success("a"));
    assert!(!db.upsert_request_error("a", "late error", 5));
    assert!(db.check_request_success("a"));
    assert!(!db.check_request_success("b"));
}

#[test]
fn store_error_then_success_and_success_then_error() {
    let mut first = RequestDb::new();
    first.upsert_request_error("x", "boom", 1);
    first.upsert_request_success("x", 3, 2);
    assert!(first.check_request_success("x"));
    let mut second = RequestDb::new();
    second.upsert_request_success("x", 3, 2);
    second.upsert_request_error("x", "boom", 1);
    assert!(second.check_request_success("x"));
}

#[test]
fn saturated_result_is_split_not_recorded() {
    let q = leaf(day(2021, 1, 1));
    let action = decide(&q, FetchOutcome::Found(5000), 980);
    let children = match &action {
        Action::Split(cs) => cs.clone(),
        _ => panic!("expected a split"),
    };
    assert_eq!(children.len(), 4);
    let mut db = RequestDb::new();
    let id = identity(&q);
    let requeued = apply(&mut db, &q, &id, action, 100);
    assert_eq!(requeued, children);
    assert!(!db.check_request_success(&id));
}

#[test]
fn saturated_atomic_leaf_is_flagged() {
    let q = TopTimesRequest { zone: Zone::Southern, ..leaf(day(2021, 1, 1)) };
    let action = decide(&q, FetchOutcome::Found(5000), 980);
    assert!(matches!(action, Action::CompleteFlagged(5000)));
    let mut db = RequestDb::new();
    let id = identity(&q);
    assert!(apply(&mut db, &q, &id, action, 100).is_empty());
    assert!(db.check_request_success(&id));
}

#[test]
fn threshold_decides_completion() {
    let q = leaf(day(2021, 1, 1));
    assert!(matches!(decide(&q, FetchOutcome::Found(4899), 980), Action::Complete(4899)));
    assert!(matches!(decide(&q, FetchOutcome::Found(4900), 980), Action::Split(_)));
    assert!(matches!(decide(&q, FetchOutcome::Found(0), 980), Action::Complete(0)));
}

#[test]
fn complete_result_is_recorded() {
    let q = leaf(day(2021, 1, 1));
    let mut db = RequestDb::new();
    let id = identity(&q);
    let action = decide(&q, FetchOutcome::Found(120), 980);
    assert!(apply(&mut db, &q, &id, action, 7).is_empty());
    assert!(db.check_request_success(&id));
}

#[test]
fn failure_is_requeued_and_recorded() {
    let q = leaf(day(2021, 1, 1));
    let mut db = RequestDb::new();
    let id = identity(&q);
    let action = decide(&q, FetchOutcome::Failed(String::from("status 503")), 980);
    assert!(matches!(&action, Action::Requeue(e) if e == "status 503"));
    assert_eq!(apply(&mut db, &q, &id, action, 7), vec![q]);
    assert!(!db.check_request_success(&id));
    assert!(!db.upsert_request_error(&id, "again", 1));
}

#[test]
fn pacing_waits_for_the_rest_of_the_budget() {
    assert_eq!(pacing_delay(7000, 2000), 5000);
    assert_eq!(pacing_delay(5000, 6000), 0);
    assert_eq!(pacing_delay(5000, 5000), 0);
    for _ in 0..100 {
        let d = next_delay(1000, 5000, 10000);
        assert!(d >= 4000 && d < 9000);
        assert_eq!(next_delay(20000, 5000, 10000), 0);
    }
}

#[test]
fn seed_grid_has_both_genders_per_day() {
    let d = day(2020, 1, 1);
    let seeds = seed_requests(d, d + 1, 5000);
    assert_eq!(seeds.len(), 4);
    let pairs: Vec<(Gender, i32)> = seeds.iter().map(|s| (s.gender, s.from_date)).collect();
    assert_eq!(pairs, vec![(Gender::Male, d), (Gender::Female, d), (Gender::Male, d + 1), (Gender::Female, d + 1)]);
    for s in &seeds {
        assert_eq!(s.course, Course::All);
        assert_eq!(s.start_age, Some(0));
        assert_eq!(s.end_age, None);
        assert_eq!(s.to_date, s.from_date);
    }
}

#[test]
fn resume_skips_completed_identity() {
    let d = day(2020, 1, 1);
    let mut db = RequestDb::new();
    let first = plan_requests(d, d, 5000, &seed_axes(), &db);
    assert!(!first.is_empty());
    let done = identity(&first[3]);
    db.upsert_request_success(&done, 17, 1);
    let again = plan_requests(d, d, 5000, &seed_axes(), &db);
    assert_eq!(again.len(), first.len() - 1);
    assert!(again.iter().all(|q| identity(q) != done));
    db.upsert_request_error(&identity(&first[4]), "boom", 1);
    assert_eq!(pending_requests(&first, &db).len(), first.len() - 1);
}

#[test]
fn identities_match_only_for_same_facets() {
    let a = leaf(day(2021, 1, 1));
    assert!(identities_match(&a, &a));
    let flags = TopTimesRequest { members_only: true, max_results: 10, ..a };
    assert!(identities_match(&a, &flags));
    let later = TopTimesRequest { from_date: a.from_date + 1, to_date: a.to_date + 1, ..a };
    assert!(!identities_match(&a, &later));
    let older = TopTimesRequest { start_age: Some(13), end_age: Some(13), ..a };
    assert!(!identities_match(&a, &older));
}

#[test]
fn should_fetch_until_success() {
    let q = leaf(day(2021, 1, 1));
    let mut db = RequestDb::new();
    assert!(should_fetch(&db, &q));
    db.upsert_request_error(&identity(&q), "boom", 1);
    assert!(should_fetch(&db, &q));
    db.upsert_request_success(&identity(&q), 3, 1);
    assert!(!should_fetch(&db, &q));
}

//! The identity of a search: a string that names it in the resume store and
//! in the output location.
use vstd::prelude::*;
use crate::calendar::{civil_date, civil_of};
use crate::facet::{Course, Distance, Gender, Stroke, Zone};
use crate::query::{FIRST_DAY, LAST_DAY, TopTimesRequest, wf};
use crate::text::{
    lemma_course_text_injective, lemma_decimal, lemma_decimal_injective, lemma_distance_text_injective,
    lemma_fixed, lemma_fixed_injective, lemma_gender_text_injective, lemma_stroke_text_injective,
    lemma_zone_text_injective, is_digit, pow10,
    age_text, all_text, course_text, decimal, digit_char, distance_text, fixed, gender_text,
    stroke_text, zone_text,
};

verus! {

/// `a` and `b` joined by the separator `_`.
pub open spec fn sep(a: Seq<char>, b: Seq<char>) -> Seq<char> {
    a + seq!['_'] + b
}

/// A calendar date as `YYYY-MM-DD`.
pub open spec fn date_text(d: (int, int, int)) -> Seq<char> {
    fixed(d.0 as nat, 4) + seq!['-'] + fixed(d.1 as nat, 2) + seq!['-'] + fixed(d.2 as nat, 2)
}

/// The identity of `q` with its dates given as calendar dates: gender,
/// course, stroke, distance, first day, last day, lower age, upper age and
/// zone, lower case, in that order, separated by `_`.
pub open spec fn identity_text(q: TopTimesRequest, from: (int, int, int), to: (int, int, int)) -> Seq<char> {
    sep(
        gender_text(q.gender),
        sep(
            course_text(q.course),
            sep(
                stroke_text(q.stroke),
                sep(
                    distance_text(q.distance),
                    sep(
                        date_text(from),
                        sep(
                            date_text(to),
                            sep(age_text(q.start_age), sep(age_text(q.end_age), zone_text(q.zone))),
                        ),
                    ),
                ),
            ),
        ),
    )
}

/// The identity of `q`.
pub open spec fn identity_of(q: TopTimesRequest) -> Seq<char> {
    identity_text(q, civil_of(q.from_date as int), civil_of(q.to_date as int))
}

fn push_str(s: &mut String, t: &str)
    ensures
        final(s)@ == old(s)@ + t@,
{
    s.append(t);
}

fn push_digit(s: &mut String, d: u32)
    requires
        d < 10,
    ensures
        final(s)@ == old(s)@.push(digit_char(d as int)),
{
    let t = match d {
        0 => {
            proof { reveal_strlit("0"); }
            "0"
        },
        1 => {
            proof { reveal_strlit("1"); }
            "1"
        },
        2 => {
            proof { reveal_strlit("2"); }
            "2"
        },
        3 => {
            proof { reveal_strlit("3"); }
            "3"
        },
        4 => {
            proof { reveal_strlit("4"); }
            "4"
        },
        5 => {
            proof { reveal_strlit("5"); }
            "5"
        },
        6 => {
            proof { reveal_strlit("6"); }
            "6"
        },
        7 => {
            proof { reveal_strlit("7"); }
            "7"
        },
        8 => {
            proof { reveal_strlit("8"); }
            "8"
        },
        _ => {
            proof { reveal_strlit("9"); }
            "9"
        },
    };
    assert(t@ =~= seq![digit_char(d as int)]);
    push_str(s, t);
    assert(final(s)@ =~= old(s)@.push(digit_char(d as int)));
}

fn push_decimal(s: &mut String, n: u32)
    ensures
        final(s)@ == old(s)@ + decimal(n as nat),
    decreases n,
{
    if n >= 10 {
        push_decimal(s, n / 10);
    }
    push_digit(s, n % 10);
    assert(final(s)@ =~= old(s)@ + decimal(n as nat));
}

fn push_fixed(s: &mut String, n: u32, w: u32)
    ensures
        final(s)@ == old(s)@ + fixed(n as nat, w as nat),
    decreases w,
{
    if w > 0 {
        push_fixed(s, n / 10, w - 1);
        push_digit(s, n % 10);
        assert(final(s)@ =~= old(s)@ + fixed(n as nat, w as nat));
    } else {
        assert(final(s)@ =~= old(s)@ + fixed(n as nat, w as nat));
    }
}

fn gender_str(v: Gender) -> (r: &'static str)
    ensures
        r@ == gender_text(v),
{
    let r = match v {
        Gender::Male => {
            proof {
                reveal_strlit("male");
            }
            "male"
        },
        Gender::Female => {
            proof {
                reveal_strlit("female");
            }
            "female"
        },
        Gender::Mixed => {
            proof {
                reveal_strlit("mixed");
            }
            "mixed"
        },
    };
    assert(r@ =~= gender_text(v));
    r
}

fn course_str(v: Course) -> (r: &'static str)
    ensures
        r@ == course_text(v),
{
    let r = match v {
        Course::All => {
            proof {
                reveal_strlit("all");
            }
            "all"
        },
        Course::SCY => {
            proof {
                reveal_strlit("scy");
            }
            "scy"
        },
        Course::SCM => {
            proof {
                reveal_strlit("scm");
            }
            "scm"
        },
        Course::LCM => {
            proof {
                reveal_strlit("lcm");
            }
            "lcm"
        },
    };
    assert(r@ =~= course_text(v));
    r
}

fn stroke_str(v: Stroke) -> (r: &'static str)
    ensures
        r@ == stroke_text(v),
{
    let r = match v {
        Stroke::All => {
            proof {
                reveal_strlit("all");
            }
            "all"
        },
        Stroke::Freestyle => {
            proof {
                reveal_strlit("fr");
            }
            "fr"
        },
        Stroke::Backstroke => {
            proof {
                reveal_strlit("bk");
            }
            "bk"
        },
        Stroke::Breaststroke => {
            proof {
                reveal_strlit("br");
            }
            "br"
        },
        Stroke::Butterfly => {
            proof {
                reveal_strlit("fl");
            }
            "fl"
        },
        Stroke::IndividualMedley => {
            proof {
                reveal_strlit("im");
            }
            "im"
        },
        Stroke::FreestyleRelay => {
            proof {
                reveal_strlit("fr-r");
            }
            "fr-r"
        },
        Stroke::MedleyRelay => {
            proof {
                reveal_strlit("med-r");
            }
            "med-r"
        },
    };
    assert(r@ =~= stroke_text(v));
    r
}

fn distance_str(v: Distance) -> (r: &'static str)
    ensures
        r@ == distance_text(v),
{
    let r = match v {
        Distance::All => {
            proof {
                reveal_strlit("all");
            }
            "all"
        },
        Distance::_50 => {
            proof {
                reveal_strlit("50");
            }
            "50"
        },
        Distance::_100 => {
            proof {
                reveal_strlit("100");
            }
            "100"
        },
        Distance::_200 => {
            proof {
                reveal_strlit("200");
            }
            "200"
        },
        Distance::_400 => {
            proof {
                reveal_strlit("400");
            }
            "400"
        },
        Distance::_500 => {
            proof {
                reveal_strlit("500");
            }
            "500"
        },
        Distance::_800 => {
            proof {
                reveal_strlit("800");
            }
            "800"
        },
        Distance::_1000 => {
            proof {
                reveal_strlit("1000");
            }
            "1000"
        },
        Distance::_1500 => {
            proof {
                reveal_strlit("1500");
            }
            "1500"
        },
        Distance::_1650 => {
            proof {
                reveal_strlit("1650");
            }
            "1650"
        },
    };
    assert(r@ =~= distance_text(v));
    r
}

fn zone_str(v: Zone) -> (r: &'static str)
    ensures
        r@ == zone_text(v),
{
    let r = match v {
        Zone::All => {
            proof {
                reveal_strlit("all");
            }
            "all"
        },
        Zone::Central => {
            proof {
                reveal_strlit("central");
            }
            "central"
        },
        Zone::Eastern => {
            proof {
                reveal_strlit("eastern");
            }
            "eastern"
        },
        Zone::Southern => {
            proof {
                reveal_strlit("southern");
            }
            "southern"
        },
        Zone::Western => {
            proof {
                reveal_strlit("western");
            }
            "western"
        },
    };
    assert(r@ =~= zone_text(v));
    r
}

/// `head` and `tail` joined by `_`.
fn join(head: String, tail: &str) -> (r: String)
    ensures
        r@ == sep(head@, tail@),
{
    let mut s = head;
    proof {
        reveal_strlit("_");
    }
    push_str(&mut s, "_");
    push_str(&mut s, tail);
    s
}

fn push_age(s: &mut String, a: Option<u8>)
    ensures
        final(s)@ == old(s)@ + age_text(a),
{
    match a {
        Some(n) => push_decimal(s, n as u32),
        None => {
            proof {
                reveal_strlit("all");
            }
            push_str(s, "all");
            assert("all"@ =~= all_text());
        },
    }
}

/// What a conversion of `day` tells about its calendar date: it fits
/// `YYYY-MM-DD`, and no other supported day has the same date.
pub open spec fn date_known(day: int) -> bool {
    &&& date_in_range(civil_of(day))
    &&& forall|other: int| FIRST_DAY <= other <= LAST_DAY && other != day ==> #[trigger] civil_of(other) != civil_of(day)
}

fn push_date(s: &mut String, day: i32)
    requires
        FIRST_DAY <= day <= LAST_DAY,
    ensures
        final(s)@ == old(s)@ + date_text(civil_of(day as int)),
        date_known(day as int),
{
    let d = civil_date(day);
    push_fixed(s, d.year as u32, 4);
    push_str(s, "-");
    push_fixed(s, d.month, 2);
    push_str(s, "-");
    push_fixed(s, d.day, 2);
    proof {
        reveal_strlit("-");
    }
    assert(final(s)@ =~= old(s)@ + date_text(civil_of(day as int)));
}

/// The identity of `req`: its gender, course, stroke, distance, first and
/// last day (as `YYYY-MM-DD`), lower and upper age (`all` when open) and
/// zone, in lower case, separated by `_`.
pub fn identity(req: &TopTimesRequest) -> (r: String)
    requires
        wf(*req),
    ensures
        r@ == identity_of(*req),
        date_known(req.from_date as int),
        date_known(req.to_date as int),
{
    let mut end_age = String::new();
    push_age(&mut end_age, req.end_age);
    let t = join(end_age, zone_str(req.zone));
    let mut start_age = String::new();
    push_age(&mut start_age, req.start_age);
    let t = join(start_age, t.as_str());
    let mut to = String::new();
    push_date(&mut to, req.to_date);
    let t = join(to, t.as_str());
    let mut from = String::new();
    push_date(&mut from, req.from_date);
    let t = join(from, t.as_str());
    let t = join(distance_str(req.distance).to_owned(), t.as_str());
    let t = join(stroke_str(req.stroke).to_owned(), t.as_str());
    let t = join(course_str(req.course).to_owned(), t.as_str());
    let s = join(gender_str(req.gender).to_owned(), t.as_str());
    assert(s@ =~= identity_of(*req));
    s
}


/// Splits two texts made of a head, the character `c` and a tail, where
/// neither head holds `c`.
proof fn lemma_split(a1: Seq<char>, b1: Seq<char>, a2: Seq<char>, b2: Seq<char>, c: char)
    requires
        a1 + seq![c] + b1 == a2 + seq![c] + b2,
        forall|i: int| 0 <= i < a1.len() ==> a1[i] != c,
        forall|i: int| 0 <= i < a2.len() ==> a2[i] != c,
    ensures
        a1 == a2,
        b1 == b2,
{
    let s = a1 + seq![c] + b1;
    let t = a2 + seq![c] + b2;
    if a1.len() < a2.len() {
        assert(s[a1.len() as int] == c);
        assert(t[a1.len() as int] == a2[a1.len() as int]);
    } else if a2.len() < a1.len() {
        assert(t[a2.len() as int] == c);
        assert(s[a2.len() as int] == a1[a2.len() as int]);
    }
    assert(a1 =~= s.subrange(0, a1.len() as int));
    assert(a2 =~= t.subrange(0, a2.len() as int));
    assert(b1 =~= s.subrange(a1.len() as int + 1, s.len() as int));
    assert(b2 =~= t.subrange(a2.len() as int + 1, t.len() as int));
}

/// A character that can stand in the text of a facet value.
pub open spec fn plain_char(ch: char) -> bool {
    ('a' <= ch <= 'z') || ('0' <= ch <= '9') || ch == '-'
}

pub open spec fn plain(t: Seq<char>) -> bool {
    forall|i: int| 0 <= i < t.len() ==> plain_char(#[trigger] t[i])
}

proof fn lemma_facet_texts_plain(g: Gender, c: Course, s: Stroke, d: Distance, z: Zone)
    ensures
        plain(gender_text(g)),
        plain(course_text(c)),
        plain(stroke_text(s)),
        plain(distance_text(d)),
        plain(zone_text(z)),
{
    assert(plain(gender_text(g))) by {
        match g {
            Gender::Male => {},
            Gender::Female => {},
            Gender::Mixed => {},
        }
    }
    assert(plain(course_text(c))) by {
        match c {
            Course::All => {},
            Course::SCY => {},
            Course::SCM => {},
            Course::LCM => {},
        }
    }
    assert(plain(stroke_text(s))) by {
        match s {
            Stroke::All => {},
            Stroke::Freestyle => {},
            Stroke::Backstroke => {},
            Stroke::Breaststroke => {},
            Stroke::Butterfly => {},
            Stroke::IndividualMedley => {},
            Stroke::FreestyleRelay => {},
            Stroke::MedleyRelay => {},
        }
    }
    assert(plain(distance_text(d))) by {
        match d {
            Distance::All => {},
            Distance::_50 => {},
            Distance::_100 => {},
            Distance::_200 => {},
            Distance::_400 => {},
            Distance::_500 => {},
            Distance::_800 => {},
            Distance::_1000 => {},
            Distance::_1500 => {},
            Distance::_1650 => {},
        }
    }
    assert(plain(zone_text(z))) by {
        match z {
            Zone::All => {},
            Zone::Central => {},
            Zone::Eastern => {},
            Zone::Southern => {},
            Zone::Western => {},
        }
    }
}

proof fn lemma_age_text(a: Option<u8>, b: Option<u8>)
    ensures
        plain(age_text(a)),
        age_text(a) == age_text(b) ==> a == b,
{
    match a {
        Some(n) => {
            lemma_decimal(n as nat);
            assert(plain(age_text(a)));
        },
        None => {
            assert(plain(age_text(a)));
        },
    }
    if age_text(a) == age_text(b) {
        match (a, b) {
            (Some(x), Some(y)) => {
                lemma_decimal_injective(x as nat, y as nat);
            },
            (Some(x), None) => {
                lemma_decimal(x as nat);
                assert(is_digit(age_text(a)[0]));
            },
            (None, Some(y)) => {
                lemma_decimal(y as nat);
                assert(is_digit(age_text(b)[0]));
            },
            (None, None) => {},
        }
    }
}

/// Year, month and day that `YYYY-MM-DD` can show.
pub open spec fn date_in_range(d: (int, int, int)) -> bool {
    0 <= d.0 < 10000 && 0 <= d.1 < 100 && 0 <= d.2 < 100
}

proof fn lemma_date_text(a: (int, int, int), b: (int, int, int))
    requires
        date_in_range(a),
        date_in_range(b),
    ensures
        plain(date_text(a)),
        date_text(a) == date_text(b) ==> a == b,
{
    lemma_fixed(a.0 as nat, 4);
    lemma_fixed(a.1 as nat, 2);
    lemma_fixed(a.2 as nat, 2);
    lemma_fixed(b.0 as nat, 4);
    lemma_fixed(b.1 as nat, 2);
    lemma_fixed(b.2 as nat, 2);
    let ta = date_text(a);
    assert forall|i: int| 0 <= i < ta.len() implies plain_char(#[trigger] ta[i]) by {
        if i < 4 {
            assert(ta[i] == fixed(a.0 as nat, 4)[i]);
        } else if 5 <= i < 7 {
            assert(ta[i] == fixed(a.1 as nat, 2)[i - 5]);
        } else if 8 <= i {
            assert(ta[i] == fixed(a.2 as nat, 2)[i - 8]);
        }
    }
    if date_text(a) == date_text(b) {
        let ya = fixed(a.0 as nat, 4);
        let ma = fixed(a.1 as nat, 2);
        let da = fixed(a.2 as nat, 2);
        let yb = fixed(b.0 as nat, 4);
        let mb = fixed(b.1 as nat, 2);
        let db = fixed(b.2 as nat, 2);
        assert(date_text(a) =~= ya + seq!['-'] + (ma + seq!['-'] + da));
        assert(date_text(b) =~= yb + seq!['-'] + (mb + seq!['-'] + db));
        lemma_split(ya, ma + seq!['-'] + da, yb, mb + seq!['-'] + db, '-');
        lemma_split(ma, da, mb, db, '-');
        reveal_with_fuel(pow10, 5);
        assert(pow10(2) == 100);
        assert(pow10(4) == 10000);
        lemma_fixed_injective(a.0 as nat, b.0 as nat, 4);
        lemma_fixed_injective(a.1 as nat, b.1 as nat, 2);
        lemma_fixed_injective(a.2 as nat, b.2 as nat, 2);
    }
}

/// Two searches with the same identity agree on every facet that the
/// identity names: gender, course, stroke, distance, both ages, zone, and
/// the calendar dates of both ends of the date range.
pub proof fn lemma_identity_injective(
    a: TopTimesRequest,
    b: TopTimesRequest,
    a_from: (int, int, int),
    a_to: (int, int, int),
    b_from: (int, int, int),
    b_to: (int, int, int),
)
    requires
        date_in_range(a_from),
        date_in_range(a_to),
        date_in_range(b_from),
        date_in_range(b_to),
        identity_text(a, a_from, a_to) == identity_text(b, b_from, b_to),
    ensures
        a.gender == b.gender,
        a.course == b.course,
        a.stroke == b.stroke,
        a.distance == b.distance,
        a_from == b_from,
        a_to == b_to,
        a.start_age == b.start_age,
        a.end_age == b.end_age,
        a.zone == b.zone,
{
    lemma_facet_texts_plain(a.gender, a.course, a.stroke, a.distance, a.zone);
    lemma_facet_texts_plain(b.gender, b.course, b.stroke, b.distance, b.zone);
    lemma_age_text(a.start_age, b.start_age);
    lemma_age_text(b.start_age, a.start_age);
    lemma_age_text(a.end_age, b.end_age);
    lemma_age_text(b.end_age, a.end_age);
    lemma_date_text(a_from, b_from);
    lemma_date_text(b_from, a_from);
    lemma_date_text(a_to, b_to);
    lemma_date_text(b_to, a_to);
    let a8 = sep(age_text(a.end_age), zone_text(a.zone));
    let b8 = sep(age_text(b.end_age), zone_text(b.zone));
    let a7 = sep(age_text(a.start_age), a8);
    let b7 = sep(age_text(b.start_age), b8);
    let a6 = sep(date_text(a_to), a7);
    let b6 = sep(date_text(b_to), b7);
    let a5 = sep(date_text(a_from), a6);
    let b5 = sep(date_text(b_from), b6);
    let a4 = sep(distance_text(a.distance), a5);
    let b4 = sep(distance_text(b.distance), b5);
    let a3 = sep(stroke_text(a.stroke), a4);
    let b3 = sep(stroke_text(b.stroke), b4);
    let a2 = sep(course_text(a.course), a3);
    let b2 = sep(course_text(b.course), b3);
    lemma_split(gender_text(a.gender), a2, gender_text(b.gender), b2, '_');
    lemma_split(course_text(a.course), a3, course_text(b.course), b3, '_');
    lemma_split(stroke_text(a.stroke), a4, stroke_text(b.stroke), b4, '_');
    lemma_split(distance_text(a.distance), a5, distance_text(b.distance), b5, '_');
    lemma_split(date_text(a_from), a6, date_text(b_from), b6, '_');
    lemma_split(date_text(a_to), a7, date_text(b_to), b7, '_');
    lemma_split(age_text(a.start_age), a8, age_text(b.start_age), b8, '_');
    lemma_split(age_text(a.end_age), zone_text(a.zone), age_text(b.end_age), zone_text(b.zone), '_');
    lemma_gender_text_injective(a.gender, b.gender);
    lemma_course_text_injective(a.course, b.course);
    lemma_stroke_text_injective(a.stroke, b.stroke);
    lemma_distance_text_injective(a.distance, b.distance);
    lemma_zone_text_injective(a.zone, b.zone);
}


/// `a` and `b` agree on every facet that an identity names.
pub open spec fn same_facets(a: TopTimesRequest, b: TopTimesRequest) -> bool {
    &&& a.gender == b.gender
    &&& a.course == b.course
    &&& a.stroke == b.stroke
    &&& a.distance == b.distance
    &&& a.from_date == b.from_date
    &&& a.to_date == b.to_date
    &&& a.start_age == b.start_age
    &&& a.end_age == b.end_age
    &&& a.zone == b.zone
}

/// Whether `a` and `b` have the same identity, which they have exactly when
/// they agree on gender, course, stroke, distance, both days, both ages and
/// zone.
pub fn identities_match(a: &TopTimesRequest, b: &TopTimesRequest) -> (r: bool)
    requires
        wf(*a),
        wf(*b),
    ensures
        r == (identity_of(*a) == identity_of(*b)),
        r == same_facets(*a, *b),
{
    let x = identity(a);
    let y = identity(b);
    let r = x == y;
    proof {
        if r {
            lemma_identity_injective(*a, *b, civil_of(a.from_date as int), civil_of(a.to_date as int), civil_of(b.from_date as int), civil_of(b.to_date as int));
            if a.from_date != b.from_date {
                assert(civil_of(b.from_date as int) != civil_of(a.from_date as int));
            }
            if a.to_date != b.to_date {
                assert(civil_of(b.to_date as int) != civil_of(a.to_date as int));
            }
        }
    }
    r
}

} // verus!

//! Reading an event written as its distance, stroke and course, such as
//! `100 FR SCY`.
use vstd::prelude::*;
use crate::facet::{Course, Distance, Stroke, SwimEvent};

verus! {

pub open spec fn event_distance_text(d: Distance) -> Seq<char> {
    match d {
        Distance::All => "0"@,
        Distance::_50 => "50"@,
        Distance::_100 => "100"@,
        Distance::_200 => "200"@,
        Distance::_400 => "400"@,
        Distance::_500 => "500"@,
        Distance::_800 => "800"@,
        Distance::_1000 => "1000"@,
        Distance::_1500 => "1500"@,
        Distance::_1650 => "1650"@,
    }
}

pub open spec fn event_stroke_text(s: Stroke) -> Seq<char> {
    match s {
        Stroke::All => "All"@,
        Stroke::Freestyle => "FR"@,
        Stroke::Backstroke => "BK"@,
        Stroke::Breaststroke => "BR"@,
        Stroke::Butterfly => "FL"@,
        Stroke::IndividualMedley => "IM"@,
        Stroke::FreestyleRelay => "FR-R"@,
        Stroke::MedleyRelay => "MED-R"@,
    }
}

pub open spec fn event_course_text(c: Course) -> Seq<char> {
    match c {
        Course::All => "All"@,
        Course::SCY => "SCY"@,
        Course::SCM => "SCM"@,
        Course::LCM => "LCM"@,
    }
}

/// An event as the results table writes it: distance, stroke and course
/// separated by single spaces.
pub open spec fn event_text(e: SwimEvent) -> Seq<char> {
    event_distance_text(e.distance) + seq![' '] + event_stroke_text(e.stroke) + seq![' '] + event_course_text(e.course)
}

pub open spec fn no_space(t: Seq<char>) -> bool {
    forall|i: int| 0 <= i < t.len() ==> #[trigger] t[i] != ' '
}

proof fn lemma_texts_have_no_space(e: SwimEvent)
    ensures
        no_space(event_distance_text(e.distance)),
        no_space(event_stroke_text(e.stroke)),
        no_space(event_course_text(e.course)),
{
    match e.distance {
        Distance::All => { reveal_strlit("0"); },
        Distance::_50 => { reveal_strlit("50"); },
        Distance::_100 => { reveal_strlit("100"); },
        Distance::_200 => { reveal_strlit("200"); },
        Distance::_400 => { reveal_strlit("400"); },
        Distance::_500 => { reveal_strlit("500"); },
        Distance::_800 => { reveal_strlit("800"); },
        Distance::_1000 => { reveal_strlit("1000"); },
        Distance::_1500 => { reveal_strlit("1500"); },
        Distance::_1650 => { reveal_strlit("1650"); },
    }
    match e.stroke {
        Stroke::All => { reveal_strlit("All"); },
        Stroke::Freestyle => { reveal_strlit("FR"); },
        Stroke::Backstroke => { reveal_strlit("BK"); },
        Stroke::Breaststroke => { reveal_strlit("BR"); },
        Stroke::Butterfly => { reveal_strlit("FL"); },
        Stroke::IndividualMedley => { reveal_strlit("IM"); },
        Stroke::FreestyleRelay => { reveal_strlit("FR-R"); },
        Stroke::MedleyRelay => { reveal_strlit("MED-R"); },
    }
    match e.course {
        Course::All => { reveal_strlit("All"); },
        Course::SCY => { reveal_strlit("SCY"); },
        Course::SCM => { reveal_strlit("SCM"); },
        Course::LCM => { reveal_strlit("LCM"); },
    }
}

/// Whether the characters of `s` from `from` to `to` spell `lit`.
fn spells(s: &str, from: usize, to: usize, lit: &str) -> (r: bool)
    requires
        from <= to <= s@.len(),
    ensures
        r == (s@.subrange(from as int, to as int) == lit@),
{
    let n = lit.unicode_len();
    if to - from != n {
        return false;
    }
    let mut i: usize = 0;
    while i < n
        invariant
            n == lit@.len(),
            to - from == n,
            from <= to <= s@.len(),
            i <= n,
            forall|j: int| 0 <= j < i ==> s@[from + j] == lit@[j],
        decreases n - i,
    {
        if s.get_char(from + i) != lit.get_char(i) {
            assert(s@.subrange(from as int, to as int)[i as int] != lit@[i as int]);
            return false;
        }
        i += 1;
    }
    assert(s@.subrange(from as int, to as int) =~= lit@);
    true
}

/// The first space in `s` at or after `from`.
fn find_space(s: &str, from: usize) -> (r: Option<usize>)
    requires
        from <= s@.len(),
    ensures
        match r {
            Some(i) => from <= i < s@.len() && s@[i as int] == ' ' && forall|j: int| from <= j < i ==> s@[j] != ' ',
            None => forall|j: int| from <= j < s@.len() ==> s@[j] != ' ',
        },
{
    let n = s.unicode_len();
    let mut i: usize = from;
    while i < n
        invariant
            n == s@.len(),
            from <= i <= n,
            forall|j: int| from <= j < i ==> s@[j] != ' ',
        decreases n - i,
    {
        if s.get_char(i) == ' ' {
            return Some(i);
        }
        i += 1;
    }
    None
}

fn distance_token(s: &str, from: usize, to: usize) -> (r: Option<Distance>)
    requires
        from <= to <= s@.len(),
    ensures
        match r {
            Some(d) => s@.subrange(from as int, to as int) == event_distance_text(d),
            None => forall|d: Distance| s@.subrange(from as int, to as int) != event_distance_text(d),
        },
{
    if spells(s, from, to, "0") {
        Some(Distance::All)
    } else if spells(s, from, to, "50") {
        Some(Distance::_50)
    } else if spells(s, from, to, "100") {
        Some(Distance::_100)
    } else if spells(s, from, to, "200") {
        Some(Distance::_200)
    } else if spells(s, from, to, "400") {
        Some(Distance::_400)
    } else if spells(s, from, to, "500") {
        Some(Distance::_500)
    } else if spells(s, from, to, "800") {
        Some(Distance::_800)
    } else if spells(s, from, to, "1000") {
        Some(Distance::_1000)
    } else if spells(s, from, to, "1500") {
        Some(Distance::_1500)
    } else if spells(s, from, to, "1650") {
        Some(Distance::_1650)
    } else {
        None
    }
}

fn stroke_token(s: &str, from: usize, to: usize) -> (r: Option<Stroke>)
    requires
        from <= to <= s@.len(),
    ensures
        match r {
            Some(x) => s@.subrange(from as int, to as int) == event_stroke_text(x),
            None => forall|x: Stroke| s@.subrange(from as int, to as int) != event_stroke_text(x),
        },
{
    if spells(s, from, to, "All") {
        Some(Stroke::All)
    } else if spells(s, from, to, "FR") {
        Some(Stroke::Freestyle)
    } else if spells(s, from, to, "BK") {
        Some(Stroke::Backstroke)
    } else if spells(s, from, to, "BR") {
        Some(Stroke::Breaststroke)
    } else if spells(s, from, to, "FL") {
        Some(Stroke::Butterfly)
    } else if spells(s, from, to, "IM") {
        Some(Stroke::IndividualMedley)
    } else if spells(s, from, to, "FR-R") {
        Some(Stroke::FreestyleRelay)
    } else if spells(s, from, to, "MED-R") {
        Some(Stroke::MedleyRelay)
    } else {
        None
    }
}

fn course_token(s: &str, from: usize, to: usize) -> (r: Option<Course>)
    requires
        from <= to <= s@.len(),
    ensures
        match r {
            Some(x) => s@.subrange(from as int, to as int) == event_course_text(x),
            None => forall|x: Course| s@.subrange(from as int, to as int) != event_course_text(x),
        },
{
    if spells(s, from, to, "All") {
        Some(Course::All)
    } else if spells(s, from, to, "SCY") {
        Some(Course::SCY)
    } else if spells(s, from, to, "SCM") {
        Some(Course::SCM)
    } else if spells(s, from, to, "LCM") {
        Some(Course::LCM)
    } else {
        None
    }
}

/// Where `s` spells the event `e`, its first space ends the distance and the
/// next one ends the stroke.
proof fn lemma_event_shape(s: Seq<char>, e: SwimEvent)
    requires
        s == event_text(e),
    ensures
        ({
            let first_gap = event_distance_text(e.distance).len() as int;
            let second_gap = first_gap + 1 + event_stroke_text(e.stroke).len();
            &&& second_gap < s.len()
            &&& s[first_gap] == ' '
            &&& s[second_gap] == ' '
            &&& forall|j: int| 0 <= j < first_gap ==> s[j] != ' '
            &&& forall|j: int| first_gap < j < second_gap ==> s[j] != ' '
            &&& s.subrange(0, first_gap) == event_distance_text(e.distance)
            &&& s.subrange(first_gap + 1, second_gap) == event_stroke_text(e.stroke)
            &&& s.subrange(second_gap + 1, s.len() as int) == event_course_text(e.course)
        }),
{
    lemma_texts_have_no_space(e);
    let dt = event_distance_text(e.distance);
    let st = event_stroke_text(e.stroke);
    let ct = event_course_text(e.course);
    let first_gap = dt.len() as int;
    let second_gap = first_gap + 1 + st.len();
    assert forall|j: int| 0 <= j < first_gap implies s[j] != ' ' by {
        assert(s[j] == dt[j]);
    }
    assert forall|j: int| first_gap < j < second_gap implies s[j] != ' ' by {
        assert(s[j] == st[j - first_gap - 1]);
    }
    assert(s.subrange(0, first_gap) =~= dt);
    assert(s.subrange(first_gap + 1, second_gap) =~= st);
    assert(s.subrange(second_gap + 1, s.len() as int) =~= ct);
}

proof fn lemma_needs_first_space(s: Seq<char>)
    requires
        forall|j: int| 0 <= j < s.len() ==> s[j] != ' ',
    ensures
        forall|e: SwimEvent| s != #[trigger] event_text(e),
{
    assert forall|e: SwimEvent| s != #[trigger] event_text(e) by {
        if s == event_text(e) {
            lemma_event_shape(s, e);
        }
    }
}

proof fn lemma_needs_second_space(s: Seq<char>, i1: int)
    requires
        0 <= i1 < s.len(),
        s[i1] == ' ',
        forall|j: int| 0 <= j < i1 ==> s[j] != ' ',
        forall|j: int| i1 + 1 <= j < s.len() ==> s[j] != ' ',
    ensures
        forall|e: SwimEvent| s != #[trigger] event_text(e),
{
    assert forall|e: SwimEvent| s != #[trigger] event_text(e) by {
        if s == event_text(e) {
            lemma_event_shape(s, e);
            let first_gap = event_distance_text(e.distance).len() as int;
            assert(!(i1 < first_gap));
            assert(!(first_gap < i1));
        }
    }
}

proof fn lemma_event_tokens(s: Seq<char>, i1: int, i2: int, e: SwimEvent)
    requires
        s == event_text(e),
        0 <= i1 < i2 < s.len(),
        s[i1] == ' ',
        s[i2] == ' ',
        forall|j: int| 0 <= j < i1 ==> s[j] != ' ',
        forall|j: int| i1 + 1 <= j < i2 ==> s[j] != ' ',
    ensures
        s.subrange(0, i1) == event_distance_text(e.distance),
        s.subrange(i1 + 1, i2) == event_stroke_text(e.stroke),
        s.subrange(i2 + 1, s.len() as int) == event_course_text(e.course),
{
    lemma_event_shape(s, e);
    let first_gap = event_distance_text(e.distance).len() as int;
    let second_gap = first_gap + 1 + event_stroke_text(e.stroke).len();
    assert(!(i1 < first_gap));
    assert(!(first_gap < i1));
    assert(!(i2 < second_gap));
    assert(!(second_gap < i2));
}

impl SwimEvent {
    /// Reads an event such as `100 FR SCY`: a distance, a stroke code and a
    /// course code separated by single spaces. `None` where `s` spells no event.
    pub fn parse(s: &str) -> (r: Option<SwimEvent>)
        ensures
            match r {
                Some(e) => s@ == event_text(e),
                None => forall|e: SwimEvent| s@ != #[trigger] event_text(e),
            },
    {
        let n = s.unicode_len();
        let first = find_space(s, 0);
        let i1 = match first {
            Some(i) => i,
            None => {
                proof {
                    lemma_needs_first_space(s@);
                }
                return None;
            },
        };
        let second = find_space(s, i1 + 1);
        let i2 = match second {
            Some(i) => i,
            None => {
                proof {
                    lemma_needs_second_space(s@, i1 as int);
                }
                return None;
            },
        };
        let d = distance_token(s, 0, i1);
        let st = stroke_token(s, i1 + 1, i2);
        let c = course_token(s, i2 + 1, n);
        match (d, st, c) {
            (Some(distance), Some(stroke), Some(course)) => {
                let e = SwimEvent { distance, stroke, course };
                assert(s@ =~= event_text(e)) by {
                    assert(s@ =~= s@.subrange(0, i1 as int) + seq![' '] + s@.subrange(i1 + 1, i2 as int) + seq![' '] + s@.subrange(i2 + 1, n as int));
                }
                Some(e)
            },
            _ => {
                proof {
                    assert forall|e: SwimEvent| s@ != #[trigger] event_text(e) by {
                        if s@ == event_text(e) {
                            lemma_event_tokens(s@, i1 as int, i2 as int, e);
                        }
                    }
                }
                None
            },
        }
    }
}

} // verus!

//! Decimal digits and the lower-case names of facet values.
use vstd::prelude::*;
use crate::facet::{Course, Distance, Gender, Stroke, Zone};

verus! {

pub open spec fn digit_char(d: int) -> char {
    if d == 0 {
        '0'
    } else if d == 1 {
        '1'
    } else if d == 2 {
        '2'
    } else if d == 3 {
        '3'
    } else if d == 4 {
        '4'
    } else if d == 5 {
        '5'
    } else if d == 6 {
        '6'
    } else if d == 7 {
        '7'
    } else if d == 8 {
        '8'
    } else {
        '9'
    }
}

pub open spec fn is_digit(c: char) -> bool {
    '0' <= c <= '9'
}

/// `n` in decimal, without leading zeros.
pub open spec fn decimal(n: nat) -> Seq<char>
    decreases n,
{
    if n < 10 {
        seq![digit_char(n as int)]
    } else {
        decimal(n / 10).push(digit_char((n % 10) as int))
    }
}

/// The last `w` decimal digits of `n`, padded with zeros.
pub open spec fn fixed(n: nat, w: nat) -> Seq<char>
    decreases w,
{
    if w == 0 {
        seq![]
    } else {
        fixed(n / 10, (w - 1) as nat).push(digit_char((n % 10) as int))
    }
}

pub open spec fn pow10(w: nat) -> nat
    decreases w,
{
    if w == 0 {
        1
    } else {
        10 * pow10((w - 1) as nat)
    }
}

pub proof fn lemma_digit_char(a: int, b: int)
    requires
        0 <= a < 10,
        0 <= b < 10,
    ensures
        is_digit(digit_char(a)),
        digit_char(a) == digit_char(b) ==> a == b,
{
}

pub proof fn lemma_decimal(n: nat)
    ensures
        decimal(n).len() >= 1,
        n < 10 <==> decimal(n).len() == 1,
        forall|i: int| 0 <= i < decimal(n).len() ==> is_digit(#[trigger] decimal(n)[i]),
    decreases n,
{
    if n >= 10 {
        lemma_decimal(n / 10);
        let s = decimal(n / 10);
        assert forall|i: int| 0 <= i < decimal(n).len() implies is_digit(#[trigger] decimal(n)[i]) by {
            if i < s.len() {
                assert(decimal(n)[i] == s[i]);
            } else {
                lemma_digit_char((n % 10) as int, 0);
            }
        }
    } else {
        lemma_digit_char(n as int, 0);
    }
}

pub proof fn lemma_decimal_injective(a: nat, b: nat)
    requires
        decimal(a) == decimal(b),
    ensures
        a == b,
    decreases a,
{
    lemma_decimal(a);
    lemma_decimal(b);
    if a < 10 {
        assert(b < 10);
        assert(decimal(a)[0] == digit_char(a as int));
        assert(decimal(b)[0] == digit_char(b as int));
        lemma_digit_char(a as int, b as int);
    } else {
        assert(b >= 10);
        let sa = decimal(a);
        let sb = decimal(b);
        assert(sa.last() == sb.last());
        lemma_digit_char((a % 10) as int, (b % 10) as int);
        assert(sa.drop_last() =~= decimal(a / 10));
        assert(sb.drop_last() =~= decimal(b / 10));
        lemma_decimal_injective(a / 10, b / 10);
        assert(a == 10 * (a / 10) + a % 10);
        assert(b == 10 * (b / 10) + b % 10);
    }
}

pub proof fn lemma_fixed(n: nat, w: nat)
    ensures
        fixed(n, w).len() == w,
        forall|i: int| 0 <= i < w ==> is_digit(#[trigger] fixed(n, w)[i]),
    decreases w,
{
    if w > 0 {
        lemma_fixed(n / 10, (w - 1) as nat);
        let s = fixed(n / 10, (w - 1) as nat);
        assert forall|i: int| 0 <= i < w implies is_digit(#[trigger] fixed(n, w)[i]) by {
            if i < s.len() {
                assert(fixed(n, w)[i] == s[i]);
            } else {
                lemma_digit_char((n % 10) as int, 0);
            }
        }
    }
}

pub proof fn lemma_fixed_injective(a: nat, b: nat, w: nat)
    requires
        a < pow10(w),
        b < pow10(w),
        fixed(a, w) == fixed(b, w),
    ensures
        a == b,
    decreases w,
{
    if w > 0 {
        let sa = fixed(a, w);
        let sb = fixed(b, w);
        assert(sa.last() == sb.last());
        lemma_digit_char((a % 10) as int, (b % 10) as int);
        assert(sa.drop_last() =~= fixed(a / 10, (w - 1) as nat));
        assert(sb.drop_last() =~= fixed(b / 10, (w - 1) as nat));
        lemma_fixed_injective(a / 10, b / 10, (w - 1) as nat);
    }
}

pub open spec fn gender_text(g: Gender) -> Seq<char> {
    match g {
        Gender::Male => seq!['m', 'a', 'l', 'e'],
        Gender::Female => seq!['f', 'e', 'm', 'a', 'l', 'e'],
        Gender::Mixed => seq!['m', 'i', 'x', 'e', 'd'],
    }
}

pub open spec fn all_text() -> Seq<char> {
    seq!['a', 'l', 'l']
}

pub open spec fn course_text(c: Course) -> Seq<char> {
    match c {
        Course::All => all_text(),
        Course::SCY => seq!['s', 'c', 'y'],
        Course::SCM => seq!['s', 'c', 'm'],
        Course::LCM => seq!['l', 'c', 'm'],
    }
}

pub open spec fn stroke_text(s: Stroke) -> Seq<char> {
    match s {
        Stroke::All => all_text(),
        Stroke::Freestyle => seq!['f', 'r'],
        Stroke::Backstroke => seq!['b', 'k'],
        Stroke::Breaststroke => seq!['b', 'r'],
        Stroke::Butterfly => seq!['f', 'l'],
        Stroke::IndividualMedley => seq!['i', 'm'],
        Stroke::FreestyleRelay => seq!['f', 'r', '-', 'r'],
        Stroke::MedleyRelay => seq!['m', 'e', 'd', '-', 'r'],
    }
}

pub open spec fn distance_text(d: Distance) -> Seq<char> {
    match d {
        Distance::All => all_text(),
        Distance::_50 => seq!['5', '0'],
        Distance::_100 => seq!['1', '0', '0'],
        Distance::_200 => seq!['2', '0', '0'],
        Distance::_400 => seq!['4', '0', '0'],
        Distance::_500 => seq!['5', '0', '0'],
        Distance::_800 => seq!['8', '0', '0'],
        Distance::_1000 => seq!['1', '0', '0', '0'],
        Distance::_1500 => seq!['1', '5', '0', '0'],
        Distance::_1650 => seq!['1', '6', '5', '0'],
    }
}

pub open spec fn zone_text(z: Zone) -> Seq<char> {
    match z {
        Zone::All => all_text(),
        Zone::Central => seq!['c', 'e', 'n', 't', 'r', 'a', 'l'],
        Zone::Eastern => seq!['e', 'a', 's', 't', 'e', 'r', 'n'],
        Zone::Southern => seq!['s', 'o', 'u', 't', 'h', 'e', 'r', 'n'],
        Zone::Western => seq!['w', 'e', 's', 't', 'e', 'r', 'n'],
    }
}

/// An age bound: the age in decimal, or "all" when open.
pub open spec fn age_text(a: Option<u8>) -> Seq<char> {
    match a {
        Some(n) => decimal(n as nat),
        None => all_text(),
    }
}

pub proof fn lemma_gender_text_injective(a: Gender, b: Gender)
    requires
        gender_text(a) == gender_text(b),
    ensures
        a == b,
{
    let ta = gender_text(a);
    let tb = gender_text(b);
    assert(ta.len() == tb.len());
    assert(ta[0] == tb[0]);
    assert(ta.len() > 1 ==> ta[1] == tb[1]);
    assert(ta.len() > 2 ==> ta[2] == tb[2]);
    match a {
        Gender::Male => {},
        Gender::Female => {},
        Gender::Mixed => {},
    }
}

pub proof fn lemma_course_text_injective(a: Course, b: Course)
    requires
        course_text(a) == course_text(b),
    ensures
        a == b,
{
    let ta = course_text(a);
    let tb = course_text(b);
    assert(ta.len() == tb.len());
    assert(ta[0] == tb[0]);
    assert(ta.len() > 1 ==> ta[1] == tb[1]);
    assert(ta.len() > 2 ==> ta[2] == tb[2]);
    match a {
        Course::All => {},
        Course::SCY => {},
        Course::SCM => {},
        Course::LCM => {},
    }
}

pub proof fn lemma_stroke_text_injective(a: Stroke, b: Stroke)
    requires
        stroke_text(a) == stroke_text(b),
    ensures
        a == b,
{
    let ta = stroke_text(a);
    let tb = stroke_text(b);
    assert(ta.len() == tb.len());
    assert(ta[0] == tb[0]);
    assert(ta.len() > 1 ==> ta[1] == tb[1]);
    assert(ta.len() > 2 ==> ta[2] == tb[2]);
    match a {
        Stroke::All => {},
        Stroke::Freestyle => {},
        Stroke::Backstroke => {},
        Stroke::Breaststroke => {},
        Stroke::Butterfly => {},
        Stroke::IndividualMedley => {},
        Stroke::FreestyleRelay => {},
        Stroke::MedleyRelay => {},
    }
}

pub proof fn lemma_distance_text_injective(a: Distance, b: Distance)
    requires
        distance_text(a) == distance_text(b),
    ensures
        a == b,
{
    let ta = distance_text(a);
    let tb = distance_text(b);
    assert(ta.len() == tb.len());
    assert(ta[0] == tb[0]);
    assert(ta.len() > 1 ==> ta[1] == tb[1]);
    assert(ta.len() > 2 ==> ta[2] == tb[2]);
    match a {
        Distance::All => {},
        Distance::_50 => {},
        Distance::_100 => {},
        Distance::_200 => {},
        Distance::_400 => {},
        Distance::_500 => {},
        Distance::_800 => {},
        Distance::_1000 => {},
        Distance::_1500 => {},
        Distance::_1650 => {},
    }
}

pub proof fn lemma_zone_text_injective(a: Zone, b: Zone)
    requires
        zone_text(a) == zone_text(b),
    ensures
        a == b,
{
    let ta = zone_text(a);
    let tb = zone_text(b);
    assert(ta.len() == tb.len());
    assert(ta[0] == tb[0]);
    assert(ta.len() > 1 ==> ta[1] == tb[1]);
    assert(ta.len() > 2 ==> ta[2] == tb[2]);
    match a {
        Zone::All => {},
        Zone::Central => {},
        Zone::Eastern => {},
        Zone::Southern => {},
        Zone::Western => {},
    }
}

} // verus!

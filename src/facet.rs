//! The enumerable dimensions of a search and the table of events that exist.
use vstd::prelude::*;

verus! {

/// Gender searched for.
#[derive(Clone, Copy, Debug, PartialEq, Eq, Structural)]
pub enum Gender {
    Male,
    Female,
    Mixed,
}

/// Event distance; `All` is the wildcard.
#[derive(Clone, Copy, Debug, PartialEq, Eq, Structural)]
pub enum Distance {
    All,
    _50,
    _100,
    _200,
    _400,
    _500,
    _800,
    _1000,
    _1500,
    _1650,
}

/// Stroke; `All` is the wildcard.
#[derive(Clone, Copy, Debug, PartialEq, Eq, Structural)]
pub enum Stroke {
    All,
    Freestyle,
    Backstroke,
    Breaststroke,
    Butterfly,
    IndividualMedley,
    FreestyleRelay,
    MedleyRelay,
}

/// Pool course; `All` is the wildcard.
#[derive(Clone, Copy, Debug, PartialEq, Eq, Structural)]
pub enum Course {
    All,
    SCY,
    SCM,
    LCM,
}

/// Geographic zone; `All` is the wildcard.
#[derive(Clone, Copy, Debug, PartialEq, Eq, Structural)]
pub enum Zone {
    All,
    Central,
    Eastern,
    Southern,
    Western,
}

/// Local swimming committee; `All` is the wildcard.
#[derive(Clone, Copy, Debug, PartialEq, Eq, Structural)]
pub enum LSC {
    All,
    Unattached,
    AD,
    AK,
    AM,
    AZ,
    AR,
    BD,
    CC,
    CO,
    CT,
    FG,
    FL,
    GA,
    GU,
    HI,
    IL,
    IN,
    IE,
    IA,
    KY,
    LE,
    LA,
    ME,
    MD,
    MR,
    MI,
    MA,
    MW,
    MN,
    MS,
    MV,
    MT,
    NE,
    NJ,
    NM,
    NI,
    NC,
    ND,
    NT,
    OH,
    OK,
    OR,
    OZ,
    PN,
    PC,
    PV,
    SI,
    SN,
    SR,
    SC,
    SD,
    ST,
    SE,
    CA,
    US,
    UT,
    VA,
    WT,
    WV,
    WI,
    WY,
}

/// The code of a committee on the search form.
pub open spec fn lsc_code(l: LSC) -> Seq<char> {
    match l {
        LSC::All => "All"@,
        LSC::Unattached => "UN"@,
        LSC::AD => "AD"@,
        LSC::AK => "AK"@,
        LSC::AM => "AM"@,
        LSC::AZ => "AZ"@,
        LSC::AR => "AR"@,
        LSC::BD => "BD"@,
        LSC::CC => "CC"@,
        LSC::CO => "CO"@,
        LSC::CT => "CT"@,
        LSC::FG => "FG"@,
        LSC::FL => "FL"@,
        LSC::GA => "GA"@,
        LSC::GU => "GU"@,
        LSC::HI => "HI"@,
        LSC::IL => "IL"@,
        LSC::IN => "IN"@,
        LSC::IE => "IE"@,
        LSC::IA => "IA"@,
        LSC::KY => "KY"@,
        LSC::LE => "LE"@,
        LSC::LA => "LA"@,
        LSC::ME => "ME"@,
        LSC::MD => "MD"@,
        LSC::MR => "MR"@,
        LSC::MI => "MI"@,
        LSC::MA => "MA"@,
        LSC::MW => "MW"@,
        LSC::MN => "MN"@,
        LSC::MS => "MS"@,
        LSC::MV => "MV"@,
        LSC::MT => "MT"@,
        LSC::NE => "NE"@,
        LSC::NJ => "NJ"@,
        LSC::NM => "NM"@,
        LSC::NI => "NI"@,
        LSC::NC => "NC"@,
        LSC::ND => "ND"@,
        LSC::NT => "NT"@,
        LSC::OH => "OH"@,
        LSC::OK => "OK"@,
        LSC::OR => "OR"@,
        LSC::OZ => "OZ"@,
        LSC::PN => "PN"@,
        LSC::PC => "PC"@,
        LSC::PV => "PV"@,
        LSC::SI => "SI"@,
        LSC::SN => "SN"@,
        LSC::SR => "SR"@,
        LSC::SC => "SC"@,
        LSC::SD => "SD"@,
        LSC::ST => "ST"@,
        LSC::SE => "SE"@,
        LSC::CA => "CA"@,
        LSC::US => "US"@,
        LSC::UT => "UT"@,
        LSC::VA => "VA"@,
        LSC::WT => "WT"@,
        LSC::WV => "WV"@,
        LSC::WI => "WI"@,
        LSC::WY => "WY"@,
    }
}

impl LSC {
    /// The code of this committee on the search form.
    pub fn code(&self) -> (r: &'static str)
        ensures
            r@ == lsc_code(*self),
    {
        match self {
            LSC::All => "All",
            LSC::Unattached => "UN",
            LSC::AD => "AD",
            LSC::AK => "AK",
            LSC::AM => "AM",
            LSC::AZ => "AZ",
            LSC::AR => "AR",
            LSC::BD => "BD",
            LSC::CC => "CC",
            LSC::CO => "CO",
            LSC::CT => "CT",
            LSC::FG => "FG",
            LSC::FL => "FL",
            LSC::GA => "GA",
            LSC::GU => "GU",
            LSC::HI => "HI",
            LSC::IL => "IL",
            LSC::IN => "IN",
            LSC::IE => "IE",
            LSC::IA => "IA",
            LSC::KY => "KY",
            LSC::LE => "LE",
            LSC::LA => "LA",
            LSC::ME => "ME",
            LSC::MD => "MD",
            LSC::MR => "MR",
            LSC::MI => "MI",
            LSC::MA => "MA",
            LSC::MW => "MW",
            LSC::MN => "MN",
            LSC::MS => "MS",
            LSC::MV => "MV",
            LSC::MT => "MT",
            LSC::NE => "NE",
            LSC::NJ => "NJ",
            LSC::NM => "NM",
            LSC::NI => "NI",
            LSC::NC => "NC",
            LSC::ND => "ND",
            LSC::NT => "NT",
            LSC::OH => "OH",
            LSC::OK => "OK",
            LSC::OR => "OR",
            LSC::OZ => "OZ",
            LSC::PN => "PN",
            LSC::PC => "PC",
            LSC::PV => "PV",
            LSC::SI => "SI",
            LSC::SN => "SN",
            LSC::SR => "SR",
            LSC::SC => "SC",
            LSC::SD => "SD",
            LSC::ST => "ST",
            LSC::SE => "SE",
            LSC::CA => "CA",
            LSC::US => "US",
            LSC::UT => "UT",
            LSC::VA => "VA",
            LSC::WT => "WT",
            LSC::WV => "WV",
            LSC::WI => "WI",
            LSC::WY => "WY",
        }
    }
}

/// Kind of swim searched for.
#[derive(Clone, Copy, Debug, PartialEq, Eq, Structural)]
pub enum TimeType {
    Individual,
    Relay,
}

/// One event: a distance swum in one stroke on one course.
#[derive(Clone, Copy, Debug, PartialEq, Eq, Structural)]
pub struct SwimEvent {
    pub distance: Distance,
    pub stroke: Stroke,
    pub course: Course,
}

impl SwimEvent {
    pub fn new(distance: Distance, stroke: Stroke, course: Course) -> (r: SwimEvent)
        ensures
            r == (SwimEvent { distance, stroke, course }),
    {
        SwimEvent { distance, stroke, course }
    }
}

/// Its length in metres or yards; 0 for the wildcard.
pub open spec fn distance_code(x: Distance) -> u16 {
    match x {
        Distance::All => 0,
        Distance::_50 => 50,
        Distance::_100 => 100,
        Distance::_200 => 200,
        Distance::_400 => 400,
        Distance::_500 => 500,
        Distance::_800 => 800,
        Distance::_1000 => 1000,
        Distance::_1500 => 1500,
        Distance::_1650 => 1650,
    }
}

impl Distance {
    /// Its length in metres or yards; 0 for the wildcard.
    pub fn code(&self) -> (r: u16)
        ensures
            r == distance_code(*self),
    {
        match self {
            Distance::All => 0,
            Distance::_50 => 50,
            Distance::_100 => 100,
            Distance::_200 => 200,
            Distance::_400 => 400,
            Distance::_500 => 500,
            Distance::_800 => 800,
            Distance::_1000 => 1000,
            Distance::_1500 => 1500,
            Distance::_1650 => 1650,
        }
    }

    /// The value whose code is `n`, if any.
    pub fn from_code(n: u16) -> (r: Option<Distance>)
        ensures
            match r {
                Some(x) => distance_code(x) == n,
                None => forall|x: Distance| distance_code(x) != n,
            },
    {
        match n {
            0 => Some(Distance::All),
            50 => Some(Distance::_50),
            100 => Some(Distance::_100),
            200 => Some(Distance::_200),
            400 => Some(Distance::_400),
            500 => Some(Distance::_500),
            800 => Some(Distance::_800),
            1000 => Some(Distance::_1000),
            1500 => Some(Distance::_1500),
            1650 => Some(Distance::_1650),
            _ => None,
        }
    }
}

/// Distinct values have distinct codes, so reading back a code gives the
/// value it came from.
pub proof fn lemma_distance_code_injective(a: Distance, b: Distance)
    ensures
        distance_code(a) == distance_code(b) ==> a == b,
{
    match a {
        Distance::All => {},
        Distance::_50 => {},
        Distance::_100 => {},
        Distance::_200 => {},
        Distance::_400 => {},
        Distance::_500 => {},
        Distance::_800 => {},
        Distance::_1000 => {},
        Distance::_1500 => {},
        Distance::_1650 => {},
    }
}

/// Its number on the search form; 0 for the wildcard.
pub open spec fn stroke_code(x: Stroke) -> u16 {
    match x {
        Stroke::All => 0,
        Stroke::Freestyle => 1,
        Stroke::Backstroke => 2,
        Stroke::Breaststroke => 3,
        Stroke::Butterfly => 4,
        Stroke::IndividualMedley => 5,
        Stroke::FreestyleRelay => 6,
        Stroke::MedleyRelay => 7,
    }
}

impl Stroke {
    /// Its number on the search form; 0 for the wildcard.
    pub fn code(&self) -> (r: u16)
        ensures
            r == stroke_code(*self),
    {
        match self {
            Stroke::All => 0,
            Stroke::Freestyle => 1,
            Stroke::Backstroke => 2,
            Stroke::Breaststroke => 3,
            Stroke::Butterfly => 4,
            Stroke::IndividualMedley => 5,
            Stroke::FreestyleRelay => 6,
            Stroke::MedleyRelay => 7,
        }
    }

    /// The value whose code is `n`, if any.
    pub fn from_code(n: u16) -> (r: Option<Stroke>)
        ensures
            match r {
                Some(x) => stroke_code(x) == n,
                None => forall|x: Stroke| stroke_code(x) != n,
            },
    {
        match n {
            0 => Some(Stroke::All),
            1 => Some(Stroke::Freestyle),
            2 => Some(Stroke::Backstroke),
            3 => Some(Stroke::Breaststroke),
            4 => Some(Stroke::Butterfly),
            5 => Some(Stroke::IndividualMedley),
            6 => Some(Stroke::FreestyleRelay),
            7 => Some(Stroke::MedleyRelay),
            _ => None,
        }
    }
}

/// Distinct values have distinct codes, so reading back a code gives the
/// value it came from.
pub proof fn lemma_stroke_code_injective(a: Stroke, b: Stroke)
    ensures
        stroke_code(a) == stroke_code(b) ==> a == b,
{
    match a {
        Stroke::All => {},
        Stroke::Freestyle => {},
        Stroke::Backstroke => {},
        Stroke::Breaststroke => {},
        Stroke::Butterfly => {},
        Stroke::IndividualMedley => {},
        Stroke::FreestyleRelay => {},
        Stroke::MedleyRelay => {},
    }
}

/// Its number on the search form; 0 for the wildcard.
pub open spec fn course_code(x: Course) -> u16 {
    match x {
        Course::All => 0,
        Course::SCY => 1,
        Course::SCM => 2,
        Course::LCM => 3,
    }
}

impl Course {
    /// Its number on the search form; 0 for the wildcard.
    pub fn code(&self) -> (r: u16)
        ensures
            r == course_code(*self),
    {
        match self {
            Course::All => 0,
            Course::SCY => 1,
            Course::SCM => 2,
            Course::LCM => 3,
        }
    }

    /// The value whose code is `n`, if any.
    pub fn from_code(n: u16) -> (r: Option<Course>)
        ensures
            match r {
                Some(x) => course_code(x) == n,
                None => forall|x: Course| course_code(x) != n,
            },
    {
        match n {
            0 => Some(Course::All),
            1 => Some(Course::SCY),
            2 => Some(Course::SCM),
            3 => Some(Course::LCM),
            _ => None,
        }
    }
}

/// Distinct values have distinct codes, so reading back a code gives the
/// value it came from.
pub proof fn lemma_course_code_injective(a: Course, b: Course)
    ensures
        course_code(a) == course_code(b) ==> a == b,
{
    match a {
        Course::All => {},
        Course::SCY => {},
        Course::SCM => {},
        Course::LCM => {},
    }
}

/// Its number on the search form; 0 for the wildcard.
pub open spec fn zone_code(x: Zone) -> u16 {
    match x {
        Zone::All => 0,
        Zone::Central => 1,
        Zone::Eastern => 2,
        Zone::Southern => 3,
        Zone::Western => 4,
    }
}

impl Zone {
    /// Its number on the search form; 0 for the wildcard.
    pub fn code(&self) -> (r: u16)
        ensures
            r == zone_code(*self),
    {
        match self {
            Zone::All => 0,
            Zone::Central => 1,
            Zone::Eastern => 2,
            Zone::Southern => 3,
            Zone::Western => 4,
        }
    }

    /// The value whose code is `n`, if any.
    pub fn from_code(n: u16) -> (r: Option<Zone>)
        ensures
            match r {
                Some(x) => zone_code(x) == n,
                None => forall|x: Zone| zone_code(x) != n,
            },
    {
        match n {
            0 => Some(Zone::All),
            1 => Some(Zone::Central),
            2 => Some(Zone::Eastern),
            3 => Some(Zone::Southern),
            4 => Some(Zone::Western),
            _ => None,
        }
    }
}

/// Distinct values have distinct codes, so reading back a code gives the
/// value it came from.
pub proof fn lemma_zone_code_injective(a: Zone, b: Zone)
    ensures
        zone_code(a) == zone_code(b) ==> a == b,
{
    match a {
        Zone::All => {},
        Zone::Central => {},
        Zone::Eastern => {},
        Zone::Southern => {},
        Zone::Western => {},
    }
}

/// The name of a gender on the search form.
pub open spec fn gender_name(g: Gender) -> Seq<char> {
    match g {
        Gender::Male => "Male"@,
        Gender::Female => "Female"@,
        Gender::Mixed => "Mixed"@,
    }
}

impl Gender {
    /// The name of this gender on the search form.
    pub fn name(&self) -> (r: &'static str)
        ensures
            r@ == gender_name(*self),
    {
        match self {
            Gender::Male => "Male",
            Gender::Female => "Female",
            Gender::Mixed => "Mixed",
        }
    }
}

/// The name of a kind of swim on the search form.
pub open spec fn time_type_name(t: TimeType) -> Seq<char> {
    match t {
        TimeType::Individual => "Individual"@,
        TimeType::Relay => "Relay"@,
    }
}

impl TimeType {
    /// The name of this kind of swim on the search form.
    pub fn name(&self) -> (r: &'static str)
        ensures
            r@ == time_type_name(*self),
    {
        match self {
            TimeType::Individual => "Individual",
            TimeType::Relay => "Relay",
        }
    }
}

/// The distances that are swum in `stroke` on `course`, shortest first.
/// Empty for a wildcard or a relay stroke, and for the wildcard course.
pub open spec fn event_distances(stroke: Stroke, course: Course) -> Seq<Distance> {
    match (stroke, course) {
        (Stroke::Freestyle, Course::SCY) => seq![
            Distance::_50,
            Distance::_100,
            Distance::_200,
            Distance::_500,
            Distance::_1000,
            Distance::_1650,
        ],
        (Stroke::Freestyle, Course::SCM) | (Stroke::Freestyle, Course::LCM) => seq![
            Distance::_50,
            Distance::_100,
            Distance::_200,
            Distance::_400,
            Distance::_800,
            Distance::_1500,
        ],
        (Stroke::Backstroke, Course::All) | (Stroke::Breaststroke, Course::All) | (
            Stroke::Butterfly,
            Course::All,
        ) => seq![],
        (Stroke::Backstroke, _) | (Stroke::Breaststroke, _) | (Stroke::Butterfly, _) => seq![
            Distance::_50,
            Distance::_100,
            Distance::_200,
        ],
        (Stroke::IndividualMedley, Course::SCY) | (Stroke::IndividualMedley, Course::SCM) => seq![
            Distance::_100,
            Distance::_200,
            Distance::_400,
        ],
        (Stroke::IndividualMedley, Course::LCM) => seq![Distance::_200, Distance::_400],
        _ => seq![],
    }
}

/// Whether the event exists, by the fixed allow-list of events.
pub open spec fn valid_event(distance: Distance, stroke: Stroke, course: Course) -> bool {
    event_distances(stroke, course).contains(distance)
}

/// The distances that are swum in `stroke` on `course`, shortest first.
pub fn event_distance_list(stroke: Stroke, course: Course) -> (r: Vec<Distance>)
    ensures
        r@ == event_distances(stroke, course),
{
    let r = match (stroke, course) {
        (Stroke::Freestyle, Course::SCY) => vec![
            Distance::_50,
            Distance::_100,
            Distance::_200,
            Distance::_500,
            Distance::_1000,
            Distance::_1650,
        ],
        (Stroke::Freestyle, Course::SCM) | (Stroke::Freestyle, Course::LCM) => vec![
            Distance::_50,
            Distance::_100,
            Distance::_200,
            Distance::_400,
            Distance::_800,
            Distance::_1500,
        ],
        (Stroke::Backstroke, Course::All) | (Stroke::Breaststroke, Course::All) | (
            Stroke::Butterfly,
            Course::All,
        ) => vec![],
        (Stroke::Backstroke, _) | (Stroke::Breaststroke, _) | (Stroke::Butterfly, _) => vec![
            Distance::_50,
            Distance::_100,
            Distance::_200,
        ],
        (Stroke::IndividualMedley, Course::SCY) | (Stroke::IndividualMedley, Course::SCM) => vec![
            Distance::_100,
            Distance::_200,
            Distance::_400,
        ],
        (Stroke::IndividualMedley, Course::LCM) => vec![Distance::_200, Distance::_400],
        _ => vec![],
    };
    assert(r@ =~= event_distances(stroke, course));
    r
}

/// Whether `event` is on the allow-list of events that exist.
pub fn is_valid_event(event: &SwimEvent) -> (r: bool)
    ensures
        r == valid_event(event.distance, event.stroke, event.course),
{
    let list = event_distance_list(event.stroke, event.course);
    let mut i: usize = 0;
    while i < list.len()
        invariant
            list@ == event_distances(event.stroke, event.course),
            i <= list@.len(),
            forall|j: int| 0 <= j < i ==> list@[j] != event.distance,
        decreases list.len() - i,
    {
        if list[i] == event.distance {
            return true;
        }
        i += 1;
    }
    false
}

} // verus!

use swimrs::facet::{Course, Distance, Gender, Stroke, SwimEvent, TimeType, Zone, LSC};

#[test]
fn parse_event_text() {
    assert_eq!(
        SwimEvent::parse("100 FR SCY"),
        Some(SwimEvent::new(Distance::_100, Stroke::Freestyle, Course::SCY))
    );
    assert_eq!(
        SwimEvent::parse("1650 FR SCY"),
        Some(SwimEvent::new(Distance::_1650, Stroke::Freestyle, Course::SCY))
    );
    assert_eq!(
        SwimEvent::parse("200 MED-R LCM"),
        Some(SwimEvent::new(Distance::_200, Stroke::MedleyRelay, Course::LCM))
    );
    assert_eq!(SwimEvent::parse("0 All All"), Some(SwimEvent::new(Distance::All, Stroke::All, Course::All)));
}

#[test]
fn parse_event_rejects_malformed() {
    assert_eq!(SwimEvent::parse("100 FR"), None);
    assert_eq!(SwimEvent::parse("100FRSCY"), None);
    assert_eq!(SwimEvent::parse("100 FR SCY extra"), None);
    assert_eq!(SwimEvent::parse("100  FR SCY"), None);
    assert_eq!(SwimEvent::parse("150 FR SCY"), None);
    assert_eq!(SwimEvent::parse("100 XX SCY"), None);
    assert_eq!(SwimEvent::parse("100 FR scy"), None);
    assert_eq!(SwimEvent::parse(""), None);
}

#[test]
fn wire_codes_round_trip() {
    let distances = [
        Distance::All,
        Distance::_50,
        Distance::_100,
        Distance::_200,
        Distance::_400,
        Distance::_500,
        Distance::_800,
        Distance::_1000,
        Distance::_1500,
        Distance::_1650,
    ];
    for d in distances {
        assert_eq!(Distance::from_code(d.code()), Some(d));
    }
    assert_eq!(Distance::_200.code(), 200);
    assert_eq!(Distance::from_code(150), None);
    let strokes = [
        Stroke::All,
        Stroke::Freestyle,
        Stroke::Backstroke,
        Stroke::Breaststroke,
        Stroke::Butterfly,
        Stroke::IndividualMedley,
        Stroke::FreestyleRelay,
        Stroke::MedleyRelay,
    ];
    for (i, s) in strokes.iter().enumerate() {
        assert_eq!(s.code(), i as u16);
        assert_eq!(Stroke::from_code(i as u16), Some(*s));
    }
    assert_eq!(Stroke::from_code(8), None);
    for (i, c) in [Course::All, Course::SCY, Course::SCM, Course::LCM].iter().enumerate() {
        assert_eq!(c.code(), i as u16);
        assert_eq!(Course::from_code(i as u16), Some(*c));
    }
    assert_eq!(Course::LCM.code(), 3);
    for (i, z) in [Zone::All, Zone::Central, Zone::Eastern, Zone::Southern, Zone::Western].iter().enumerate() {
        assert_eq!(z.code(), i as u16);
        assert_eq!(Zone::from_code(i as u16), Some(*z));
    }
    assert_eq!(Zone::from_code(5), None);
}

#[test]
fn form_names() {
    assert_eq!(Gender::Male.name(), "Male");
    assert_eq!(Gender::Female.name(), "Female");
    assert_eq!(Gender::Mixed.name(), "Mixed");
    assert_eq!(TimeType::Individual.name(), "Individual");
    assert_eq!(TimeType::Relay.name(), "Relay");
    assert_eq!(LSC::US.code(), "US");
    assert_eq!(LSC::Unattached.code(), "UN");
    assert_eq!(LSC::All.code(), "All");
    assert_eq!(LSC::WY.code(), "WY");
}

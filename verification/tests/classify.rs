use speedwalk::classify::Kind;
use speedwalk::tags::Tags;

#[test]
fn test_classify() {
    let mut ok = true;
    for (input, expected) in [
        (vec!["sidewalk:both=yes"], Kind::RoadWithTags),
        (
            vec!["sidewealk:left=yes", "sidewalk:right=separate"],
            Kind::RoadWithSeparate,
        ),
        (
            vec!["sidewalk:left=no", "sidewalk:right=yes"],
            Kind::RoadWithTags,
        ),
        (vec!["sidewalk:left=no"], Kind::RoadWithTags),
        (vec!["sidewalk:left=yes"], Kind::RoadWithTags),
        (vec!["highway=path", "footway=sidewalk"], Kind::Other),
        (vec!["highway=cycleway", "foot=yes"], Kind::Other),
    ] {
        let actual = Kind::classify(&Tags::new_from_pairs(&input));
        if actual != expected {
            println!("For {input:?}, expected {expected:?} but got {actual:?}\n");
            ok = false;
        }
    }

    if !ok {
        panic!("Some cases failed");
    }
}

#[test]
fn classify_rule_priority() {
    let sidewalk = Tags::new_from_pairs(&vec!["highway=footway", "footway=sidewalk"]);
    assert_eq!(Kind::classify(&sidewalk), Kind::Sidewalk);

    let crossing = Tags::new_from_pairs(&vec!["highway=footway", "footway=crossing"]);
    assert_eq!(Kind::classify(&crossing), Kind::Crossing);

    let cycle_crossing = Tags::new_from_pairs(&vec!["highway=cycleway", "cycleway=crossing"]);
    assert_eq!(Kind::classify(&cycle_crossing), Kind::Crossing);

    let explicit_no = Tags::new_from_pairs(&vec!["highway=residential", "sidewalk=no"]);
    assert_eq!(Kind::classify(&explicit_no), Kind::RoadWithoutSidewalksExplicit);

    let implicit = Tags::new_from_pairs(&vec!["highway=motorway"]);
    assert_eq!(Kind::classify(&implicit), Kind::RoadWithoutSidewalksImplicit);

    let unknown = Tags::new_from_pairs(&vec!["highway=residential"]);
    assert_eq!(Kind::classify(&unknown), Kind::RoadUnknown);

    let empty = Tags::empty();
    assert_eq!(Kind::classify(&empty), Kind::RoadUnknown);
}

#[test]
fn classify_is_deterministic() {
    let tags = Tags::new_from_pairs(&vec!["highway=residential", "sidewalk:left=separate"]);
    let first = Kind::classify(&tags);
    let second = Kind::classify(&tags);
    assert_eq!(first, Kind::RoadWithSeparate);
    assert_eq!(first, second);
}

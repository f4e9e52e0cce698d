use elevation_router::tags::{
    aproximate_speed_limit, get_street_type, has_sidewalk, parse_decimal, parse_one_way,
    parse_speed, resolve_max_speed, str_eq,
};

#[test]
fn speed_from_tagged_values() {
    assert_eq!(parse_speed("DE:urban", "primary"), 50);
    assert_eq!(parse_speed("30 mph", "primary"), 30);
    assert_eq!(parse_speed("50;", "primary"), 50);
    assert_eq!(parse_speed("garbage", "residential"), 30);
}

#[test]
fn speed_from_plain_numbers() {
    assert_eq!(parse_speed("70", "residential"), 70);
    assert_eq!(parse_speed("+40", "residential"), 40);
    assert_eq!(parse_speed("", "motorway"), 120);
    assert_eq!(parse_speed("-5", "footway"), 4);
}

#[test]
fn decimal_parsing_edges() {
    assert_eq!(parse_decimal("0"), Some(0));
    assert_eq!(parse_decimal("007"), Some(7));
    assert_eq!(parse_decimal("+"), None);
    assert_eq!(parse_decimal(""), None);
    assert_eq!(parse_decimal("12a"), None);
    assert_eq!(parse_decimal("99999999999999999999999"), None);
    assert_eq!(parse_decimal("18446744073709551615"), Some(usize::MAX));
}

#[test]
fn known_speed_table() {
    assert_eq!(resolve_max_speed("DE:motorway"), Ok(120));
    assert_eq!(resolve_max_speed("AT:rural"), Ok(100));
    assert_eq!(resolve_max_speed("DE:zone30"), Ok(30));
    assert_eq!(resolve_max_speed("20:forward"), Ok(20));
    assert_eq!(resolve_max_speed("10 mph"), Ok(10));
    assert_eq!(resolve_max_speed("walk"), Ok(7));
    assert!(resolve_max_speed("fast").is_err());
}

#[test]
fn default_speeds() {
    assert_eq!(aproximate_speed_limit("motorway"), 120);
    assert_eq!(aproximate_speed_limit("motorway_link"), 60);
    assert_eq!(aproximate_speed_limit("trunk"), 100);
    assert_eq!(aproximate_speed_limit("unclassified"), 40);
    assert_eq!(aproximate_speed_limit("living_street"), 7);
    assert_eq!(aproximate_speed_limit("footway"), 4);
    assert_eq!(aproximate_speed_limit("anything"), 50);
}

#[test]
fn one_way_flags() {
    assert_eq!(parse_one_way("yes"), (true, false));
    assert_eq!(parse_one_way("-1"), (true, true));
    assert_eq!(parse_one_way("no"), (false, false));
    assert_eq!(parse_one_way(""), (false, false));
}

#[test]
fn street_types() {
    assert_eq!(get_street_type("motorway", false), 0);
    assert_eq!(get_street_type("secondary", false), 1);
    assert_eq!(get_street_type("cycleway", false), 2);
    assert_eq!(get_street_type("track", false), 3);
    assert_eq!(get_street_type("steps", false), 4);
    assert_eq!(get_street_type("residential", false), 5);
    assert_eq!(get_street_type("unknown_kind", false), 5);
    assert_eq!(get_street_type("construction", false), 100);
}

#[test]
fn sidewalk_adjusts_street_type() {
    assert_eq!(get_street_type("primary", true), 5);
    assert_eq!(get_street_type("cycleway", true), 3);
    assert_eq!(get_street_type("path", true), 5);
    assert_eq!(get_street_type("motorway", true), 0);
    assert!(has_sidewalk("both"));
    assert!(!has_sidewalk("no"));
    assert!(!has_sidewalk("none"));
    assert!(!has_sidewalk("No"));
}

#[test]
fn string_equality() {
    assert!(str_eq("abc", "abc"));
    assert!(!str_eq("abc", "abd"));
    assert!(!str_eq("ab", "abc"));
}

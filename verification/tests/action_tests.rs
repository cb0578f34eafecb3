use many_cord_pass::action::Action;
use many_cord_pass::text::parse_decimal_u8;

#[test]
fn keyword_clear_is_black() {
    assert!(matches!(Action::parse("Clear"), Action::Clear(0, 0, 0)));
}

#[test]
fn keyword_shutdown() {
    assert!(matches!(Action::parse("Shutdown"), Action::Shutdown));
}

#[test]
fn clear_with_colour() {
    assert!(matches!(Action::parse("Clear(1, 2, 3)"), Action::Clear(1, 2, 3)));
    assert!(matches!(Action::parse("Clear( 10 ,20,  30 )"), Action::Clear(10, 20, 30)));
}

#[test]
fn clear_component_out_of_range_takes_default() {
    assert!(matches!(Action::parse("Clear(300, 2, 999)"), Action::Clear(200, 2, 200)));
    assert!(matches!(Action::parse("Clear(1, 256, 3)"), Action::Clear(1, 50, 3)));
}

#[test]
fn http_get_keeps_url() {
    match Action::parse("HttpGet(http://example.com/x?y=1)") {
        Action::HttpGet(u) => assert_eq!(u, "http://example.com/x?y=1"),
        other => panic!("unexpected {:?}", other),
    }
}

#[test]
fn http_get_needs_http_scheme() {
    assert!(matches!(Action::parse("HttpGet(https://example.com)"), Action::NoOp));
}

#[test]
fn obs_scene_two_arguments() {
    match Action::parse("ObsScene(192.168.0.10, Scene%201)") {
        Action::ObsScene(a, s) => {
            assert_eq!(a, "192.168.0.10");
            assert_eq!(s, "Scene%201");
        },
        other => panic!("unexpected {:?}", other),
    }
}

#[test]
fn osc_send_two_arguments() {
    match Action::parse("OscSend(127.0.0.1:9000, /cue/go)") {
        Action::OscSend(h, m) => {
            assert_eq!(h, "127.0.0.1:9000");
            assert_eq!(m, "/cue/go");
        },
        other => panic!("unexpected {:?}", other),
    }
}

#[test]
fn unknown_text_is_no_op() {
    assert!(matches!(Action::parse("Launch rockets"), Action::NoOp));
    assert!(matches!(Action::parse(""), Action::NoOp));
    assert!(matches!(Action::parse("clear"), Action::NoOp));
}

#[test]
fn parse_string_agrees_with_parse() {
    let s = String::from("Clear(4,5,6)");
    assert!(matches!(Action::parse_string(&s), Action::Clear(4, 5, 6)));
}

#[test]
fn default_action_is_no_op() {
    assert!(matches!(Action::default(), Action::NoOp));
}

#[test]
fn duplicate_keeps_value() {
    let a = Action::ObsScene("h".to_string(), "s".to_string());
    match a.duplicate() {
        Action::ObsScene(x, y) => {
            assert_eq!(x, "h");
            assert_eq!(y, "s");
        },
        other => panic!("unexpected {:?}", other),
    }
}

#[test]
fn decimal_u8_like_from_str_radix() {
    assert_eq!(parse_decimal_u8("0"), Some(0));
    assert_eq!(parse_decimal_u8("007"), Some(7));
    assert_eq!(parse_decimal_u8("+7"), Some(7));
    assert_eq!(parse_decimal_u8("255"), Some(255));
    assert_eq!(parse_decimal_u8("256"), None);
    assert_eq!(parse_decimal_u8(""), None);
    assert_eq!(parse_decimal_u8("+"), None);
    assert_eq!(parse_decimal_u8("-1"), None);
    assert_eq!(parse_decimal_u8("1a"), None);
    assert_eq!(parse_decimal_u8("٣"), None);
    for v in 0..=255u32 {
        assert_eq!(parse_decimal_u8(&v.to_string()), u8::from_str_radix(&v.to_string(), 10).ok());
    }
}

fn groups(g: &[Option<&str>]) -> Option<Vec<Option<String>>> {
    Some(g.iter().map(|x| x.map(|s| s.to_string())).collect())
}

#[test]
fn from_matches_clear_with_other_group_count_is_default_colour() {
    let a = Action::from_matches("x", groups(&[Some("x"), Some("1")]), None, None, None);
    assert!(matches!(a, Action::Clear(200, 50, 200)));
}

#[test]
fn from_matches_clear_groups_read_as_u8() {
    let a = Action::from_matches("x", groups(&[Some("x"), Some("1"), Some("x"), Some("+3")]), None, None, None);
    assert!(matches!(a, Action::Clear(1, 50, 3)));
}

#[test]
fn from_matches_missing_group_falls_through() {
    let a = Action::from_matches(
        "x",
        groups(&[Some("x"), None, Some("2"), Some("3")]),
        groups(&[Some("x"), Some("http://h")]),
        None,
        None,
    );
    match a {
        Action::HttpGet(u) => assert_eq!(u, "http://h"),
        other => panic!("unexpected {:?}", other),
    }
}

#[test]
fn from_matches_keywords_first() {
    let a = Action::from_matches("Shutdown", groups(&[Some("x"), Some("1"), Some("2"), Some("3")]), None, None, None);
    assert!(matches!(a, Action::Shutdown));
}

#[test]
fn from_matches_order_of_patterns() {
    let a = Action::from_matches(
        "x",
        None,
        groups(&[Some("x")]),
        groups(&[Some("x"), Some("a"), Some("b")]),
        groups(&[Some("x"), Some("c"), Some("d")]),
    );
    match a {
        Action::ObsScene(p, q) => assert_eq!((p.as_str(), q.as_str()), ("a", "b")),
        other => panic!("unexpected {:?}", other),
    }
    let b = Action::from_matches("x", None, None, groups(&[Some("x"), Some("a")]), groups(&[Some("x"), Some("c"), Some("d")]));
    assert!(matches!(b, Action::OscSend(_, _)));
}

use many_cord_pass::config::{
    expand_action, replace_reference, ButtonConfig, Config, EventConfig, ExpandError, PageConfig,
};

fn env(pairs: &[(&str, &str)]) -> Vec<(String, String)> {
    pairs.iter().map(|(k, v)| (k.to_string(), v.to_string())).collect()
}

fn button(name: &str, ttype: &str, release: &[&str]) -> ButtonConfig {
    ButtonConfig {
        name: name.to_string(),
        ttype: ttype.to_string(),
        image: Some(format!("{}.png", name)),
        image_active: Some(format!("{}_active.png", name)),
        on_press: None,
        on_release: Some(EventConfig {
            http_request: None,
            actions: Some(release.iter().map(|s| s.to_string()).collect()),
        }),
    }
}

#[test]
fn expand_replaces_reference() {
    let e = env(&[("HOST", "example.com")]);
    let r = expand_action(&"HttpGet(http://${env:HOST}/x)".to_string(), &e).unwrap();
    assert_eq!(r, "HttpGet(http://example.com/x)");
}

#[test]
fn expand_without_reference_is_identity() {
    let e = env(&[("HOST", "example.com")]);
    let r = expand_action(&"Clear(1,2,3)".to_string(), &e).unwrap();
    assert_eq!(r, "Clear(1,2,3)");
}

#[test]
fn expand_several_references() {
    let e = env(&[("A", "1"), ("B", "2")]);
    let r = expand_action(&"x${env:A}y${env:B}z".to_string(), &e).unwrap();
    assert_eq!(r, "x1y2z");
}

#[test]
fn expand_value_that_holds_a_reference() {
    let e = env(&[("OUTER", "${env:INNER}!"), ("INNER", "deep")]);
    let r = expand_action(&"v=${env:OUTER}".to_string(), &e).unwrap();
    assert_eq!(r, "v=deep!");
}

#[test]
fn expand_missing_variable_fails() {
    let e = env(&[("A", "1")]);
    match expand_action(&"x${env:NOPE}".to_string(), &e) {
        Err(ExpandError::MissingVariable(n)) => assert_eq!(n, "NOPE"),
        other => panic!("unexpected {:?}", other),
    }
}

#[test]
fn expand_first_variable_of_a_name_wins() {
    let e = env(&[("A", "first"), ("A", "second")]);
    assert_eq!(expand_action(&"${env:A}".to_string(), &e).unwrap(), "first");
}

#[test]
fn event_expand_all_actions() {
    let e = env(&[("IP", "10.0.0.1")]);
    let mut ec = EventConfig {
        http_request: Some("keep".to_string()),
        actions: Some(vec!["ObsScene(${env:IP}, Main)".to_string(), "Shutdown".to_string()]),
    };
    ec.expand(&e).unwrap();
    assert_eq!(ec.http_request.as_deref(), Some("keep"));
    assert_eq!(ec.actions.unwrap(), vec!["ObsScene(10.0.0.1, Main)".to_string(), "Shutdown".to_string()]);
}

#[test]
fn event_expand_failure_changes_nothing() {
    let e = env(&[("IP", "10.0.0.1")]);
    let mut ec = EventConfig {
        http_request: None,
        actions: Some(vec!["${env:IP}".to_string(), "${env:GONE}".to_string()]),
    };
    assert!(matches!(ec.expand(&e), Err(ExpandError::MissingVariable(_))));
    assert_eq!(ec.actions.unwrap(), vec!["${env:IP}".to_string(), "${env:GONE}".to_string()]);
}

#[test]
fn button_expand_both_events() {
    let e = env(&[("X", "1")]);
    let mut b = button("b", "simple", &["Clear(${env:X},0,0)"]);
    b.on_press = Some(EventConfig { http_request: None, actions: Some(vec!["p${env:X}".to_string()]) });
    b.expand(&e).unwrap();
    assert_eq!(b.on_press.unwrap().actions.unwrap(), vec!["p1".to_string()]);
    assert_eq!(b.on_release.unwrap().actions.unwrap(), vec!["Clear(1,0,0)".to_string()]);
    assert_eq!(b.name, "b");
}

#[test]
fn config_expand_and_getters() {
    let e = env(&[("X", "7")]);
    let mut c = Config::new(
        vec![button("a", "simple", &["Clear(${env:X},0,0)"]), button("b", "simple", &["Shutdown"])],
        vec![PageConfig { name: "p".to_string(), buttons: vec!["a".to_string(), "None".to_string()] }],
    );
    c.expand(&e).unwrap();
    assert_eq!(c.buttons().len(), 2);
    assert_eq!(c.pages().len(), 1);
    assert_eq!(
        c.buttons()[0].on_release.as_ref().unwrap().actions.as_ref().unwrap()[0],
        "Clear(7,0,0)"
    );
}

#[test]
fn config_expand_failure_changes_nothing() {
    let e = env(&[]);
    let mut c = Config::new(vec![button("a", "simple", &["${env:Y}"])], vec![]);
    match c.expand(&e) {
        Err(ExpandError::MissingVariable(n)) => assert_eq!(n, "Y"),
        other => panic!("unexpected {:?}", other),
    }
    assert_eq!(c.buttons()[0].on_release.as_ref().unwrap().actions.as_ref().unwrap()[0], "${env:Y}");
}

#[test]
fn page_config_expand_is_nothing() {
    let mut p = PageConfig { name: "p".to_string(), buttons: vec!["x".to_string()] };
    assert!(p.expand().is_ok());
    assert_eq!(p.buttons, vec!["x".to_string()]);
}

#[test]
fn replace_reference_of_a_match() {
    let e = env(&[("V", "val")]);
    let g: Vec<Option<String>> = vec![Some("a${env:V}b".into()), Some("a".into()), Some("${env:V}".into()), Some("V".into()), Some("b".into())];
    assert_eq!(replace_reference(&g, &e).unwrap(), "avalb");
    let short: Vec<Option<String>> = vec![Some("x".into()), Some("a".into())];
    assert!(matches!(replace_reference(&short, &e), Err(ExpandError::MalformedMatch)));
    let missing: Vec<Option<String>> = vec![Some("x".into()), None, Some("y".into()), Some("V".into()), Some("b".into())];
    assert!(matches!(replace_reference(&missing, &e), Err(ExpandError::MalformedMatch)));
    let unknown: Vec<Option<String>> = vec![Some("x".into()), Some("".into()), Some("y".into()), Some("W".into()), Some("".into())];
    assert!(matches!(replace_reference(&unknown, &e), Err(ExpandError::MissingVariable(n)) if n == "W"));
}

#[test]
fn config_default_is_empty() {
    let c = Config::default();
    assert!(c.buttons().is_empty());
    assert!(c.pages().is_empty());
    let e = EventConfig::default();
    assert!(e.http_request.is_none() && e.actions.is_none());
    let b = ButtonConfig::default();
    assert!(b.name.is_empty() && b.ttype.is_empty() && b.on_release.is_none());
    let p = PageConfig::default();
    assert!(p.name.is_empty() && p.buttons.is_empty());
}

#[test]
fn config_expand_twice_is_once() {
    let e = env(&[("X", "${env:Y}"), ("Y", "ok")]);
    let mut c = Config::new(vec![button("a", "simple", &["HttpGet(http://${env:X}/)", "Shutdown"])], vec![]);
    c.expand(&e).unwrap();
    let once: Vec<String> = c.buttons()[0].on_release.as_ref().unwrap().actions.clone().unwrap();
    assert_eq!(once, vec!["HttpGet(http://ok/)".to_string(), "Shutdown".to_string()]);
    c.expand(&e).unwrap();
    let twice: Vec<String> = c.buttons()[0].on_release.as_ref().unwrap().actions.clone().unwrap();
    assert_eq!(once, twice);
}

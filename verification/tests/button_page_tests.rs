use many_cord_pass::action::Action;
use many_cord_pass::button::Button;
use many_cord_pass::config::{ButtonConfig, ConfigError, EventConfig, PageConfig};
use many_cord_pass::page::Page;

fn config(ttype: &str) -> ButtonConfig {
    ButtonConfig {
        name: "go".to_string(),
        ttype: ttype.to_string(),
        image: Some("up.png".to_string()),
        image_active: Some("down.png".to_string()),
        on_press: Some(EventConfig { http_request: None, actions: Some(vec!["Shutdown".to_string()]) }),
        on_release: Some(EventConfig {
            http_request: None,
            actions: Some(vec!["Clear(1,2,3)".to_string(), "Shutdown".to_string()]),
        }),
    }
}

#[test]
fn simple_button_from_config() {
    let mut b = Button::from_config(&config("simple")).unwrap();
    assert_eq!(b.image(), Some("up.png"));
    assert!(b.press().is_empty());
    assert_eq!(b.image(), Some("down.png"));
    let released = b.release();
    assert_eq!(released.len(), 2);
    assert!(matches!(released[0], Action::Clear(1, 2, 3)));
    assert!(matches!(released[1], Action::Shutdown));
    assert_eq!(b.image(), Some("up.png"));
}

#[test]
fn unsupported_button_type() {
    match Button::from_config(&config("fancy")) {
        Err(ConfigError::UnsupportedButtonType(t)) => assert_eq!(t, "fancy"),
        other => panic!("unexpected {:?}", other),
    }
}

#[test]
fn button_without_release_actions() {
    let mut c = config("simple");
    c.on_release = None;
    let mut b = Button::from_config(&c).unwrap();
    assert!(b.release().is_empty());
}

#[test]
fn button_without_images() {
    let mut c = config("simple");
    c.image = None;
    let mut b = Button::from_config(&c).unwrap();
    assert_eq!(b.image(), None);
    b.press();
    assert_eq!(b.image(), Some("down.png"));
    b.update();
    assert_eq!(b.image(), Some("down.png"));
}

#[test]
fn default_button_shows_nothing() {
    let b = Button::default();
    assert_eq!(b.image(), None);
}

#[test]
fn page_from_config_marks_empty_keys() {
    let pc = PageConfig {
        name: "main".to_string(),
        buttons: vec!["a".to_string(), "None".to_string(), "b".to_string(), "none".to_string()],
    };
    let p = Page::from_config(&pc).unwrap();
    assert_eq!(p.name(), "main");
    assert_eq!(
        p.buttons(),
        &vec![Some("a".to_string()), None, Some("b".to_string()), Some("none".to_string())]
    );
}

#[test]
fn default_page_is_empty() {
    let p = Page::default();
    assert_eq!(p.name(), "");
    assert!(p.buttons().is_empty());
}

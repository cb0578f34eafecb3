use many_cord_pass::action::Action;
use many_cord_pass::config::{ButtonConfig, Config, ConfigError, EventConfig, PageConfig};
use many_cord_pass::deck_streamdeck::{Deck_Streamdeck, DeviceInfo, MessageFromDeck, MessageToDeck};
use many_cord_pass::many_cord_pass::{Effect, ManyCordPass, PassError};

fn button(name: &str, ttype: &str, release: &[&str]) -> ButtonConfig {
    ButtonConfig {
        name: name.to_string(),
        ttype: ttype.to_string(),
        image: Some(format!("{}.png", name)),
        image_active: Some(format!("{}_on.png", name)),
        on_press: None,
        on_release: Some(EventConfig { http_request: None, actions: Some(release.iter().map(|s| s.to_string()).collect()) }),
    }
}

fn configured() -> ManyCordPass {
    let config = Config::new(
        vec![button("a", "simple", &["Clear(1,2,3)", "Shutdown"]), button("b", "simple", &["HttpGet(http://x/)"])],
        vec![PageConfig { name: "main".to_string(), buttons: vec!["a".to_string(), "None".to_string(), "b".to_string(), "ghost".to_string()] }],
    );
    let mut m = ManyCordPass::default();
    m.load_config(config).unwrap();
    m.apply_config().unwrap();
    m
}

#[test]
fn images_of_active_page() {
    let m = configured();
    let imgs = m.button_images().unwrap();
    assert_eq!(imgs, vec![(0u8, "a.png".to_string()), (2u8, "b.png".to_string())]);
}

#[test]
fn no_page_no_images() {
    let mut m = ManyCordPass::default();
    m.apply_config().unwrap();
    assert!(m.button_images().is_none());
}

#[test]
fn press_and_release_trigger_release_actions() {
    let mut m = configured();
    let acts = m.handle_buttons(&vec![1, 0, 0]);
    assert!(acts.is_empty());
    assert_eq!(m.button_images().unwrap()[0], (0u8, "a_on.png".to_string()));
    let acts = m.handle_buttons(&vec![0, 0, 0]);
    assert_eq!(acts.len(), 2);
    assert!(matches!(acts[0], Action::Clear(1, 2, 3)));
    assert!(matches!(acts[1], Action::Shutdown));
    assert_eq!(m.button_images().unwrap()[0], (0u8, "a.png".to_string()));
}

#[test]
fn repeated_report_is_quiet() {
    let mut m = configured();
    m.handle_buttons(&vec![0, 0, 1]);
    let first = m.handle_buttons(&vec![0, 0, 0]);
    assert_eq!(first.len(), 1);
    let second = m.handle_buttons(&vec![0, 0, 0]);
    assert!(second.is_empty());
}

#[test]
fn keys_without_button_trigger_nothing() {
    let mut m = configured();
    m.handle_buttons(&vec![0, 1, 0, 1, 1]);
    let acts = m.handle_buttons(&vec![0, 0, 0, 0, 0]);
    assert!(acts.is_empty());
}

#[test]
fn unsupported_button_stops_apply() {
    let config = Config::new(vec![button("a", "simple", &[]), button("z", "odd", &[])], vec![PageConfig { name: "p".to_string(), buttons: vec!["a".to_string()] }]);
    let mut m = ManyCordPass::default();
    m.load_config(config).unwrap();
    match m.apply_config() {
        Err(ConfigError::UnsupportedButtonType(t)) => assert_eq!(t, "odd"),
        other => panic!("unexpected {:?}", other),
    }
    assert!(m.button_images().is_none());
}

#[test]
fn later_button_of_a_name_wins() {
    let mut second = button("a", "simple", &[]);
    second.image = Some("second.png".to_string());
    let config = Config::new(vec![button("a", "simple", &[]), second], vec![PageConfig { name: "p".to_string(), buttons: vec!["a".to_string()] }]);
    let mut m = ManyCordPass::default();
    m.load_config(config).unwrap();
    m.apply_config().unwrap();
    assert_eq!(m.button_images().unwrap(), vec![(0u8, "second.png".to_string())]);
}

#[test]
fn perform_clear_fills_fifteen_keys() {
    let mut m = configured();
    match m.perform(Action::Clear(9, 8, 7)) {
        Effect::SetRgb { keys, r, g, b } => {
            assert_eq!(keys, (0u8..=14).collect::<Vec<u8>>());
            assert_eq!((r, g, b), (9, 8, 7));
        },
        other => panic!("unexpected {:?}", other),
    }
    assert!(!m.done());
}

#[test]
fn perform_shutdown_marks_done() {
    let mut m = configured();
    assert!(!m.done());
    assert!(matches!(m.perform(Action::Shutdown), Effect::Nothing));
    assert!(m.done());
}

#[test]
fn perform_obs_scene_decodes_name() {
    let mut m = ManyCordPass::default();
    match m.perform(Action::ObsScene("1.2.3.4".to_string(), "My%20Scene".to_string())) {
        Effect::ObsScene { address, scene } => {
            assert_eq!(address, "1.2.3.4");
            assert_eq!(scene.as_deref(), Some("My Scene"));
        },
        other => panic!("unexpected {:?}", other),
    }
    match m.perform(Action::ObsScene("h".to_string(), "Plain".to_string())) {
        Effect::ObsScene { scene, .. } => assert_eq!(scene.as_deref(), Some("Plain")),
        other => panic!("unexpected {:?}", other),
    }
    match m.perform(Action::ObsScene("h".to_string(), "%ff".to_string())) {
        Effect::ObsScene { scene, .. } => assert_eq!(scene, None),
        other => panic!("unexpected {:?}", other),
    }
    match m.perform(Action::ObsScene("h".to_string(), "50%+1%2".to_string())) {
        Effect::ObsScene { scene, .. } => assert_eq!(scene.as_deref(), Some("50%+1%2")),
        other => panic!("unexpected {:?}", other),
    }
}

#[test]
fn perform_osc_send_encodes_message() {
    let mut m = ManyCordPass::default();
    match m.perform(Action::OscSend("127.0.0.1:9000".to_string(), "/foo".to_string())) {
        Effect::OscSend { host, packet } => {
            assert_eq!(host, "127.0.0.1:9000");
            assert_eq!(packet, vec![b'/', b'f', b'o', b'o', 0, 0, 0, 0, b',', 0, 0, 0]);
        },
        other => panic!("unexpected {:?}", other),
    }
    match m.perform(Action::OscSend("h".to_string(), "/ab".to_string())) {
        Effect::OscSend { packet, .. } => assert_eq!(packet, vec![b'/', b'a', b'b', 0, b',', 0, 0, 0]),
        other => panic!("unexpected {:?}", other),
    }
}

#[test]
fn perform_http_get_and_noop() {
    let mut m = ManyCordPass::default();
    match m.perform(Action::HttpGet("http://a/".to_string())) {
        Effect::HttpGet(u) => assert_eq!(u, "http://a/"),
        other => panic!("unexpected {:?}", other),
    }
    assert!(matches!(m.perform(Action::NoOp), Effect::Nothing));
}

fn streamdeck() -> Deck_Streamdeck {
    let devices = vec![DeviceInfo { product: Some("Stream Deck".to_string()), vendor_id: 1, product_id: 2, serial: None }];
    Deck_Streamdeck::find_and_connect(&devices).unwrap()
}

#[test]
fn run_without_stream_deck_uses_window_deck() {
    let config = Config::new(vec![button("a", "simple", &[])], vec![PageConfig { name: "p".to_string(), buttons: vec!["a".to_string()] }]);
    let mut m = ManyCordPass::default();
    m.load_config(config).unwrap();
    assert!(m.run(None).unwrap().is_none());
    let (effects, outcome) = m.update();
    assert!(effects.is_empty());
    assert!(outcome.is_ok());
    assert!(!m.done());
}

#[test]
fn run_reports_unsupported_button() {
    let config = Config::new(vec![button("a", "weird", &[])], vec![]);
    let mut m = ManyCordPass::default();
    m.load_config(config).unwrap();
    assert!(matches!(m.run(None), Err(PassError::Config(_))));
}

#[test]
fn frame_with_stream_deck() {
    let config = Config::new(
        vec![button("a", "simple", &["HttpGet(http://h/)", "Clear(1,2,3)", "OscSend(127.0.0.1:9, /x)"])],
        vec![PageConfig { name: "p".to_string(), buttons: vec!["a".to_string()] }],
    );
    let mut m = ManyCordPass::default();
    m.load_config(config).unwrap();
    let link = m.run(Some(streamdeck())).unwrap().unwrap();
    assert_eq!(link.info.vid, 1);

    let (effects, outcome) = m.update();
    assert!(outcome.is_ok() && effects.is_empty());
    let sent: Vec<MessageToDeck> = link.commands.try_iter().collect();
    assert_eq!(sent.len(), 1);
    assert!(matches!(&sent[0], MessageToDeck::SetButtonFile { index: 0, filename } if filename == "a.png"));

    link.events.send(MessageFromDeck::Buttons(vec![1, 0])).unwrap();
    let (effects, outcome) = m.update();
    assert!(outcome.is_ok() && effects.is_empty());

    link.events.send(MessageFromDeck::Buttons(vec![0, 0])).unwrap();
    let (effects, outcome) = m.update();
    assert!(outcome.is_ok());
    assert_eq!(effects.len(), 2);
    assert!(matches!(&effects[0], Effect::HttpGet(u) if u == "http://h/"));
    assert!(matches!(&effects[1], Effect::OscSend { host, .. } if host == "127.0.0.1:9"));
    let sent: Vec<MessageToDeck> = link.commands.try_iter().collect();
    let rgb = sent.iter().filter(|m| matches!(m, MessageToDeck::SetButtonRgb { r: 1, g: 2, b: 3, .. })).count();
    assert_eq!(rgb, 15);
    m.shutdown();
    assert!(link.commands.try_iter().any(|m| matches!(m, MessageToDeck::Shutdown)));
}

#[test]
fn frame_with_too_many_keys_reported() {
    let config = Config::new(vec![button("a", "simple", &[])], vec![PageConfig { name: "p".to_string(), buttons: vec!["a".to_string()] }]);
    let mut m = ManyCordPass::default();
    m.load_config(config).unwrap();
    let link = m.run(Some(streamdeck())).unwrap().unwrap();
    link.events.send(MessageFromDeck::Buttons(vec![0; 40])).unwrap();
    let (effects, outcome) = m.update();
    assert!(effects.is_empty());
    assert!(matches!(outcome, Err(PassError::TooManyKeys)));
}

#[test]
fn frame_with_key_beyond_the_deck() {
    let names: Vec<String> = (0..16).map(|_| "a".to_string()).collect();
    let config = Config::new(vec![button("a", "simple", &[])], vec![PageConfig { name: "p".to_string(), buttons: names }]);
    let mut m = ManyCordPass::default();
    m.load_config(config).unwrap();
    let _link = m.run(Some(streamdeck())).unwrap().unwrap();
    let (_, outcome) = m.update();
    assert!(matches!(outcome, Err(PassError::NoSuchKey(15))));
}

#[test]
fn frame_shutdown_action_stops_program() {
    let config = Config::new(vec![button("a", "simple", &["Shutdown"])], vec![PageConfig { name: "p".to_string(), buttons: vec!["a".to_string()] }]);
    let mut m = ManyCordPass::default();
    m.load_config(config).unwrap();
    let link = m.run(Some(streamdeck())).unwrap().unwrap();
    link.events.send(MessageFromDeck::Buttons(vec![1])).unwrap();
    m.update().1.unwrap();
    assert!(!m.done());
    link.events.send(MessageFromDeck::Buttons(vec![0])).unwrap();
    m.update().1.unwrap();
    assert!(m.done());
    assert!(m.config().is_some());
}

#[test]
fn frame_without_decks_succeeds_quietly() {
    let config = Config::new(vec![button("a", "simple", &["Shutdown"])], vec![PageConfig { name: "p".to_string(), buttons: vec!["a".to_string()] }]);
    let mut m = ManyCordPass::default();
    assert!(!m.done());
    m.load_config(config).unwrap();
    m.apply_config().unwrap();
    let (effects, outcome) = m.update();
    assert!(effects.is_empty());
    assert!(outcome.is_ok());
    assert!(!m.done());
    assert!(m.pressed_buttons().iter().all(|p| !p));
}

#[test]
fn second_run_adds_decks_again() {
    let config = Config::new(vec![button("a", "simple", &[])], vec![PageConfig { name: "p".to_string(), buttons: vec!["a".to_string()] }]);
    let mut m = ManyCordPass::default();
    m.load_config(config).unwrap();
    assert_eq!(m.deck_count(), 0);
    assert!(m.run(None).unwrap().is_none());
    assert_eq!(m.deck_count(), 1);
    let link = m.run(Some(streamdeck())).unwrap().unwrap();
    assert_eq!(m.deck_count(), 3);
    assert_eq!(link.info.vid, 1);
    let (effects, outcome) = m.update();
    assert!(outcome.is_ok() && effects.is_empty());
}

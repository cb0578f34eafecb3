use many_cord_pass::deck::{Deck, DeckError};
use many_cord_pass::deck_minifb::Deck_Minifb;
use many_cord_pass::deck_streamdeck::{receive_wait, stream_deck_index, find_deck, task_step, Deck_Streamdeck, DeviceInfo, MessageFromDeck, MessageToDeck, TaskAction, TaskEvent};
use many_cord_pass::terminal::Terminal;

fn device(product: Option<&str>, vid: u16) -> DeviceInfo {
    DeviceInfo { product: product.map(|p| p.to_string()), vendor_id: vid, product_id: vid + 1, serial: Some(format!("s{}", vid)) }
}

#[test]
fn find_deck_takes_first_stream_deck() {
    let devices = vec![device(Some("Keyboard"), 1), device(None, 2), device(Some("Elgato Stream Deck MK.2"), 3), device(Some("Stream Deck XL"), 4)];
    let ci = find_deck(&devices).unwrap();
    assert_eq!(ci.vid, 3);
    assert_eq!(ci.pid, 4);
    assert_eq!(ci.serial.as_deref(), Some("s3"));
}

#[test]
fn find_deck_none() {
    let devices = vec![device(Some("Stream Dec"), 1), device(Some("stream deck"), 2)];
    assert!(matches!(find_deck(&devices), Err(DeckError::NotFound)));
    assert!(matches!(Deck_Streamdeck::find_and_connect(&devices), Err(DeckError::NotFound)));
}

#[test]
fn run_makes_fifteen_keys_and_link() {
    let devices = vec![device(Some("Stream Deck"), 9)];
    let mut d = Deck_Streamdeck::find_and_connect(&devices).unwrap();
    assert!(!d.key_exists(0));
    d.run().unwrap();
    assert!(d.key_exists(14));
    assert!(!d.key_exists(15));
    let link = d.take_link().unwrap();
    assert_eq!(link.info.vid, 9);
    assert!(d.take_link().is_none());
}

#[test]
fn set_button_file_sends_once() {
    let mut d = Deck_Streamdeck::find_and_connect(&vec![device(Some("Stream Deck"), 9)]).unwrap();
    d.run().unwrap();
    let link = d.take_link().unwrap();
    d.set_button_file(3, "a.png").unwrap();
    d.set_button_file(3, "a.png").unwrap();
    d.set_button_rgb(3, 1, 2, 3).unwrap();
    d.set_button_file(3, "a.png").unwrap();
    let got: Vec<MessageToDeck> = link.commands.try_iter().collect();
    assert_eq!(got.len(), 3);
    assert!(matches!(&got[0], MessageToDeck::SetButtonFile { index: 3, filename } if filename == "a.png"));
    assert!(matches!(&got[1], MessageToDeck::SetButtonRgb { index: 3, r: 1, g: 2, b: 3 }));
    assert!(matches!(&got[2], MessageToDeck::SetButtonFile { index: 3, .. }));
    d.shutdown();
    assert!(matches!(link.commands.try_recv(), Ok(MessageToDeck::Shutdown)));
}

#[test]
fn send_to_gone_task_fails() {
    let mut d = Deck_Streamdeck::find_and_connect(&vec![device(Some("Stream Deck"), 9)]).unwrap();
    d.run().unwrap();
    drop(d.take_link());
    assert!(matches!(d.set_button_file(0, "x.png"), Err(DeckError::Disconnected)));
    assert!(matches!(d.set_button_rgb(0, 0, 0, 0), Err(DeckError::Disconnected)));
}

#[test]
fn buttons_are_read_only_after_news() {
    let mut d = Deck_Streamdeck::find_and_connect(&vec![device(Some("Stream Deck"), 9)]).unwrap();
    d.run().unwrap();
    let link = d.take_link().unwrap();
    assert!(matches!(d.read_buttons(None), Err(DeckError::NoButtonsChanged)));
    link.events.send(MessageFromDeck::Buttons(vec![0, 1, 0])).unwrap();
    d.update().unwrap();
    assert_eq!(d.read_buttons(None).unwrap(), vec![0, 1, 0]);
    assert_eq!(d.read_buttons(None).unwrap(), vec![0, 1, 0]);
    d.update().unwrap();
    assert!(matches!(d.read_buttons(None), Err(DeckError::NoButtonsChanged)));
}

#[test]
fn accept_takes_in_a_report() {
    let mut d = Deck_Streamdeck::default();
    d.accept(Some(MessageFromDeck::Buttons(vec![1])));
    assert_eq!(d.read_buttons(None).unwrap(), vec![1]);
    d.update().unwrap();
    assert!(d.read_buttons(None).is_err());
    assert!(!d.done());
}

#[test]
fn minifb_deck() {
    let mut d = Deck_Minifb::new("The Deck", 5, 3);
    assert_eq!(d.title(), "The Deck");
    assert_eq!(d.window_size(), (360, 216));
    assert!(d.key_exists(200));
    assert!(d.set_button_file(200, "x").is_ok());
    assert!(d.set_button_rgb(1, 1, 1, 1).is_ok());
    assert!(d.run().is_ok());
    assert!(d.update().is_ok());
    assert!(!d.done());
    assert!(matches!(d.read_buttons(None), Err(DeckError::NoButtons)));
}

#[test]
fn terminal_keys() {
    let mut t = Terminal::default();
    assert!(t.number_key_status().is_empty());
    t.prepare_keys();
    assert_eq!(t.number_key_status(), &vec![0u8; 10]);
    assert!(Terminal::exit_requested(Some('c'), true));
    assert!(!Terminal::exit_requested(Some('c'), false));
    assert!(!Terminal::exit_requested(Some('d'), true));
    assert!(!Terminal::exit_requested(None, true));
}

#[test]
fn device_index_and_message_waits() {
    let devices = vec![device(Some("Mouse"), 1), device(Some("Stream Deck Mini"), 2)];
    assert_eq!(stream_deck_index(&devices), Some(1));
    assert_eq!(stream_deck_index(&vec![]), None);
    assert_eq!(receive_wait(0), Some(15));
    assert_eq!(receive_wait(1), Some(0));
    assert_eq!(receive_wait(19), Some(0));
    assert_eq!(receive_wait(20), None);
}

#[test]
fn shutdown_stops_task_and_closes_channel() {
    let mut d = Deck_Streamdeck::find_and_connect(&vec![device(Some("Stream Deck"), 9)]).unwrap();
    d.run().unwrap();
    let link = d.take_link().unwrap();
    d.shutdown();
    assert!(matches!(link.commands.recv(), Ok(MessageToDeck::Shutdown)));
    assert!(link.commands.recv().is_err());
    assert!(d.set_button_rgb(0, 1, 2, 3).is_ok());
    assert!(link.commands.try_recv().is_err());
}

#[test]
fn without_device_messages_cannot_arrive() {
    let mut d = Deck_Streamdeck::default();
    d.run().unwrap();
    assert!(d.take_link().is_none());
    assert!(matches!(d.set_button_file(2, "a.png"), Err(DeckError::Disconnected)));
    assert!(d.set_button_file(2, "a.png").is_ok());
    assert!(matches!(d.set_button_rgb(14, 1, 2, 3), Err(DeckError::Disconnected)));
    assert!(!d.key_exists(15));
}

#[test]
fn task_steps() {
    assert!(matches!(task_step(TaskEvent::Message(MessageToDeck::Shutdown)), TaskAction::Stop));
    assert!(matches!(task_step(TaskEvent::Disconnected), TaskAction::Stop));
    assert!(matches!(task_step(TaskEvent::TimedOut), TaskAction::ReadKeys));
    match task_step(TaskEvent::Message(MessageToDeck::SetButtonFile { index: 4, filename: "a.png".to_string() })) {
        TaskAction::ShowFile { index, filename } => {
            assert_eq!(index, 4);
            assert_eq!(filename, "a.png");
        },
        _ => panic!("expected an image"),
    }
    assert!(matches!(
        task_step(TaskEvent::Message(MessageToDeck::SetButtonRgb { index: 2, r: 1, g: 2, b: 3 })),
        TaskAction::ShowRgb { index: 2, r: 1, g: 2, b: 3 }
    ));
}

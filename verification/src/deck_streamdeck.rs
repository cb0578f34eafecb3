//! An Elgato Stream Deck, driven through messages to and from the task that talks to the device.
use vstd::prelude::*;

use std::sync::mpsc::{Receiver, Sender};

use crate::config::opt_text;
use crate::deck::{Deck, DeckCall, DeckError, report_of};
use crate::text::{chars_of, same_text};
use crate::trusted::{new_channel, send_message, try_receive};

verus! {

/// What the program asks of the task that talks to the device.
#[derive(Debug)]
pub enum MessageToDeck {
    Shutdown,
    SetButtonFile { index: u8, filename: String },
    SetButtonRgb { index: u8, r: u8, g: u8, b: u8 },
}

/// The value of a [`MessageToDeck`].
pub enum ToDeck {
    Shutdown,
    SetButtonFile(u8, Seq<char>),
    SetButtonRgb(u8, u8, u8, u8),
}

impl View for MessageToDeck {
    type V = ToDeck;

    open spec fn view(&self) -> ToDeck {
        match self {
            MessageToDeck::Shutdown => ToDeck::Shutdown,
            MessageToDeck::SetButtonFile { index, filename } => ToDeck::SetButtonFile(*index, filename@),
            MessageToDeck::SetButtonRgb { index, r, g, b } => ToDeck::SetButtonRgb(*index, *r, *g, *b),
        }
    }
}

/// The message that asks the device to show the image file `filename` on key `index`.
pub fn file_message(index: u8, filename: &str) -> (m: MessageToDeck)
    ensures
        m@ == ToDeck::SetButtonFile(index, filename@),
{
    MessageToDeck::SetButtonFile { index, filename: String::from_str(filename) }
}

/// The message that asks the device to fill key `index` with one colour.
pub fn rgb_message(index: u8, r: u8, g: u8, b: u8) -> (m: MessageToDeck)
    ensures
        m@ == ToDeck::SetButtonRgb(index, r, g, b),
{
    MessageToDeck::SetButtonRgb { index, r, g, b }
}

/// What the task that talks to the device reports.
#[derive(Debug)]
pub enum MessageFromDeck {
    /// The state of each key (non-zero: held down).
    Buttons(Vec<u8>),
}

/// How to reach one device over USB.
#[derive(Debug, Default)]
pub struct ConnectionInfo {
    pub vid: u16,
    pub pid: u16,
    pub serial: Option<String>,
}

/// A USB HID device as the system lists it.
#[derive(Debug)]
pub struct DeviceInfo {
    pub product: Option<String>,
    pub vendor_id: u16,
    pub product_id: u16,
    pub serial: Option<String>,
}

/// What a key of the deck was last asked to show.
#[derive(Debug, Clone)]
pub enum ButtonContent {
    Empty,
    Image { name: String },
    Rgb(u8, u8, u8),
}

/// The value of a [`ButtonContent`].
pub enum ContentView {
    Empty,
    Image(Seq<char>),
    Rgb(u8, u8, u8),
}

impl View for ButtonContent {
    type V = ContentView;

    open spec fn view(&self) -> ContentView {
        match self {
            ButtonContent::Empty => ContentView::Empty,
            ButtonContent::Image { name } => ContentView::Image(name@),
            ButtonContent::Rgb(r, g, b) => ContentView::Rgb(*r, *g, *b),
        }
    }
}

/// What the task that talks to a device needs: where the device is, the messages for it and the
/// way back.
#[derive(Debug)]
pub struct DeckLink {
    pub info: ConnectionInfo,
    pub commands: Receiver<MessageToDeck>,
    pub events: Sender<MessageFromDeck>,
}

#[allow(non_camel_case_types)]
pub struct Deck_Streamdeck {
    connection_info: Option<ConnectionInfo>,
    button_contents: Vec<ButtonContent>,
    buttons: Vec<u8>,
    button_changed: bool,
    to_deck_tx: Option<Sender<MessageToDeck>>,
    from_deck_rx: Option<Receiver<MessageFromDeck>>,
    link: Option<DeckLink>,
    /// Whether `run` had no device, so that no task will ever read the messages.
    no_task: bool,
    /// The messages handed to the task through the current channel, in order.
    sent: Ghost<Seq<ToDeck>>,
    /// The requests the deck was given, with its answers.
    requests: Ghost<Seq<DeckCall>>,
}

/// The value of a [`Deck_Streamdeck`].
pub struct StreamdeckView {
    /// The device to connect to, until `run` hands it to the link.
    pub info: Option<ConnectionInfo>,
    /// What each key was last asked to show.
    pub contents: Seq<ContentView>,
    /// The last state of the keys reported.
    pub buttons: Seq<u8>,
    /// Whether that state came in with the last update.
    pub changed: bool,
    /// Whether messages to the device have somewhere to go.
    pub sending: bool,
    /// Whether reports from the device have somewhere to come from.
    pub receiving: bool,
    /// The device that the link made by `run` and not taken yet is for.
    pub link: Option<ConnectionInfo>,
    /// Whether `run` had no device to hand the other ends of the channels to, so that they
    /// are gone and no message can arrive.
    pub no_task: bool,
    /// The messages handed to the task through the current channel, in order.
    pub sent: Seq<ToDeck>,
}

impl View for Deck_Streamdeck {
    type V = StreamdeckView;

    closed spec fn view(&self) -> StreamdeckView {
        StreamdeckView {
            info: self.connection_info,
            contents: self.button_contents@.map_values(|c: ButtonContent| c@),
            buttons: self.buttons@,
            changed: self.button_changed,
            sending: self.to_deck_tx is Some,
            receiving: self.from_deck_rx is Some,
            link: match self.link {
                Some(l) => Some(l.info),
                None => None,
            },
            no_task: self.no_task,
            sent: self.sent@,
        }
    }
}

/// Whether `p` occurs in `s`.
pub open spec fn text_contains(s: Seq<char>, p: Seq<char>) -> bool {
    exists|i: int| 0 <= i && i + p.len() <= s.len() && #[trigger] s.subrange(i, i + p.len()) == p
}

/// Whether a device presents itself as a Stream Deck.
pub open spec fn is_stream_deck(d: DeviceInfo) -> bool {
    d.product matches Some(p) && text_contains(p@, "Stream Deck"@)
}

/// The keys of a deck made ready: fifteen, the first ones kept, new ones empty.
pub open spec fn fifteen_keys(c: Seq<ContentView>) -> Seq<ContentView> {
    if c.len() >= 15 {
        c.take(15)
    } else {
        c + Seq::new((15 - c.len()) as nat, |i: int| ContentView::Empty)
    }
}

/// `v` with what its keys show replaced by `contents`.
pub open spec fn with_contents(v: StreamdeckView, contents: Seq<ContentView>) -> StreamdeckView {
    StreamdeckView { contents, ..v }
}

/// `v` with `m` handed to the task, where there is a channel to a task that can read it.
pub open spec fn with_sent(v: StreamdeckView, m: ToDeck) -> StreamdeckView {
    if v.sending && !v.no_task {
        StreamdeckView { sent: v.sent.push(m), ..v }
    } else {
        v
    }
}

/// The deck once key `index` is asked to show the image file `filename`: unchanged where the key
/// shows it already; else the key shows it and the message for it is handed to the task.
pub open spec fn after_file(v: StreamdeckView, index: u8, filename: Seq<char>) -> StreamdeckView {
    if v.contents[index as int] == ContentView::Image(filename) {
        v
    } else {
        with_sent(
            with_contents(v, v.contents.update(index as int, ContentView::Image(filename))),
            ToDeck::SetButtonFile(index, filename),
        )
    }
}

/// The deck once key `index` is asked for a colour: the key shows it and the message for it is
/// handed to the task, every time.
pub open spec fn after_rgb(v: StreamdeckView, index: u8, r: u8, g: u8, b: u8) -> StreamdeckView {
    with_sent(
        with_contents(v, v.contents.update(index as int, ContentView::Rgb(r, g, b))),
        ToDeck::SetButtonRgb(index, r, g, b),
    )
}

/// What asking the device for something answers: a failure only where the message was to go
/// to a task and could not arrive; always one where no task can read it.
pub open spec fn send_answer(v: StreamdeckView, r: Result<(), DeckError>) -> bool {
    &&& r is Err ==> (r matches Err(DeckError::Disconnected) && v.sending)
    &&& v.sending && v.no_task ==> r is Err
}

/// Asking key `index` for the image file `f`: where the key does not show `f`, it shows `f`
/// afterwards, every other key shows what it showed, and the task that can read messages is
/// handed one message asking for `f` on that key; where the key shows `f` already, nothing
/// changes and nothing is handed over.
pub proof fn lemma_file_request(v: StreamdeckView, index: u8, f: Seq<char>)
    requires
        (index as int) < v.contents.len(),
    ensures
        ({
            let w = after_file(v, index, f);
            let shows = v.contents[index as int] == ContentView::Image(f);
            &&& w.contents.len() == v.contents.len()
            &&& w.contents[index as int] == ContentView::Image(f)
            &&& forall|j: int| 0 <= j < v.contents.len() && j != index ==> #[trigger] w.contents[j] == v.contents[j]
            &&& w.sent == if !shows && v.sending && !v.no_task {
                v.sent.push(ToDeck::SetButtonFile(index, f))
            } else {
                v.sent
            }
            &&& w.buttons == v.buttons && w.changed == v.changed && w.sending == v.sending
            &&& w.receiving == v.receiving && w.info == v.info && w.link == v.link && w.no_task == v.no_task
            &&& shows ==> w == v
        }),
{
}

/// Asking key `index` for a colour makes it show that colour, leaves every other key as it was,
/// and hands the task that can read messages one message asking for that colour on that key,
/// every time.
pub proof fn lemma_colour_request(v: StreamdeckView, index: u8, r: u8, g: u8, b: u8)
    requires
        (index as int) < v.contents.len(),
    ensures
        ({
            let w = after_rgb(v, index, r, g, b);
            &&& w.contents.len() == v.contents.len()
            &&& w.contents[index as int] == ContentView::Rgb(r, g, b)
            &&& forall|j: int| 0 <= j < v.contents.len() && j != index ==> #[trigger] w.contents[j] == v.contents[j]
            &&& w.sent == if v.sending && !v.no_task {
                v.sent.push(ToDeck::SetButtonRgb(index, r, g, b))
            } else {
                v.sent
            }
            &&& w.buttons == v.buttons && w.changed == v.changed && w.sending == v.sending
            &&& w.receiving == v.receiving && w.info == v.info && w.link == v.link && w.no_task == v.no_task
        }),
{
}

/// Asking a key twice in a row for the same image file changes nothing the second time, and
/// hands the task no second message.
pub proof fn lemma_same_file_twice(v: StreamdeckView, index: u8, filename: Seq<char>)
    requires
        (index as int) < v.contents.len(),
    ensures
        after_file(after_file(v, index, filename), index, filename) == after_file(v, index, filename),
{
}

/// A key filled with a colour no longer shows an image: the next request for any image file
/// changes it.
pub proof fn lemma_colour_replaces_image(v: StreamdeckView, index: u8, r: u8, g: u8, b: u8, filename: Seq<char>)
    requires
        (index as int) < v.contents.len(),
    ensures
        ({
            let w = after_rgb(v, index, r, g, b);
            after_file(w, index, filename).contents[index as int] == ContentView::Image(filename)
                && after_file(w, index, filename) != w
        }),
{
    let w = after_rgb(v, index, r, g, b);
    assert(after_file(w, index, filename).contents[index as int] != w.contents[index as int]);
}

/// Whether `p` occurs in `s`.
fn contains(s: &str, p: &str) -> (r: bool)
    ensures
        r == text_contains(s@, p@),
{
    let sc = chars_of(s);
    let pc = chars_of(p);
    let n = sc.len();
    let m = pc.len();
    if m > n {
        return false;
    }
    let mut i: usize = 0;
    while i <= n - m
        invariant
            sc@ == s@,
            pc@ == p@,
            n == sc@.len(),
            m == pc@.len(),
            m <= n,
            i <= n - m + 1,
            forall|j: int| 0 <= j < i ==> #[trigger] s@.subrange(j, j + m) != p@,
        decreases n - m + 1 - i,
    {
        let mut k: usize = 0;
        while k < m && sc[i + k] == pc[k]
            invariant
                sc@ == s@,
                pc@ == p@,
                n == sc@.len(),
                m == pc@.len(),
                i + m <= n,
                k <= m,
                forall|q: int| 0 <= q < k ==> sc@[i + q] == pc@[q],
            decreases m - k,
        {
            k = k + 1;
        }
        if k == m {
            assert(s@.subrange(i as int, i + m) == p@);
            return true;
        }
        assert(s@.subrange(i as int, i + m)[k as int] != p@[k as int]);
        i = i + 1;
    }
    assert forall|j: int| 0 <= j && j + p@.len() <= s@.len() implies #[trigger] s@.subrange(j, j + p@.len()) != p@ by {
        assert(j < i);
    }
    false
}

/// How long, in milliseconds, the task that talks to the device waits for the `n`th message
/// (from 0) after reading the keys: 15 for the first, nothing for the next ones, up to 20
/// messages; `None`: read the keys again.
pub fn receive_wait(n: u32) -> (r: Option<u64>)
    ensures
        r == if n == 0 {
            Some(15u64)
        } else if n < 20 {
            Some(0u64)
        } else {
            None::<u64>
        },
{
    let max_messages: u32 = 20;
    if n >= max_messages {
        None
    } else if n == 0 {
        Some(15)
    } else {
        Some(0)
    }
}

/// What the task that talks to the device got when it waited for a message.
pub enum TaskEvent {
    Message(MessageToDeck),
    /// No message came in time.
    TimedOut,
    /// The deck that sends the messages is gone.
    Disconnected,
}

/// What the task that talks to the device does next.
pub enum TaskAction {
    /// End the task.
    Stop,
    /// Show the image file on a key.
    ShowFile { index: u8, filename: String },
    /// Fill a key with one colour.
    ShowRgb { index: u8, r: u8, g: u8, b: u8 },
    /// Stop waiting for messages and read the keys again.
    ReadKeys,
}

/// What the task that talks to the device does with what it got: a `Shutdown`, or the deck gone,
/// ends it; an image or a colour is shown; a wait that timed out ends the run of messages.
pub fn task_step(event: TaskEvent) -> (a: TaskAction)
    ensures
        match event {
            TaskEvent::Message(m) => match m@ {
                ToDeck::Shutdown => a is Stop,
                ToDeck::SetButtonFile(i, f) => a matches TaskAction::ShowFile { index, filename } && index == i
                    && filename@ == f,
                ToDeck::SetButtonRgb(i, r, g, b) => a matches TaskAction::ShowRgb { index, r: r2, g: g2, b: b2 }
                    && index == i && r2 == r && g2 == g && b2 == b,
            },
            TaskEvent::TimedOut => a is ReadKeys,
            TaskEvent::Disconnected => a is Stop,
        },
{
    match event {
        TaskEvent::Message(MessageToDeck::Shutdown) => TaskAction::Stop,
        TaskEvent::Message(MessageToDeck::SetButtonFile { index, filename }) => TaskAction::ShowFile { index, filename },
        TaskEvent::Message(MessageToDeck::SetButtonRgb { index, r, g, b }) => TaskAction::ShowRgb { index, r, g, b },
        TaskEvent::TimedOut => TaskAction::ReadKeys,
        TaskEvent::Disconnected => TaskAction::Stop,
    }
}

/// The index of the first device of the list that presents itself as a Stream Deck.
pub fn stream_deck_index(devices: &Vec<DeviceInfo>) -> (r: Option<usize>)
    ensures
        match r {
            Some(i) => i < devices@.len() && is_stream_deck(devices@[i as int])
                && forall|j: int| 0 <= j < i ==> !is_stream_deck(#[trigger] devices@[j]),
            None => forall|i: int| 0 <= i < devices@.len() ==> !is_stream_deck(#[trigger] devices@[i]),
        },
{
    let mut i: usize = 0;
    while i < devices.len()
        invariant
            i <= devices@.len(),
            forall|j: int| 0 <= j < i ==> !is_stream_deck(#[trigger] devices@[j]),
        decreases devices.len() - i,
    {
        let found = match &devices[i].product {
            Some(p) => contains(p.as_str(), "Stream Deck"),
            None => false,
        };
        if found {
            return Some(i);
        }
        i = i + 1;
    }
    None
}

/// The first device of the list that presents itself as a Stream Deck.
pub fn find_deck(devices: &Vec<DeviceInfo>) -> (r: Result<ConnectionInfo, DeckError>)
    ensures
        match r {
            Ok(ci) => exists|i: int|
                0 <= i < devices@.len() && is_stream_deck(#[trigger] devices@[i])
                    && (forall|j: int| 0 <= j < i ==> !is_stream_deck(#[trigger] devices@[j]))
                    && ci.vid == devices@[i].vendor_id && ci.pid == devices@[i].product_id
                    && ci.serial == devices@[i].serial,
            Err(e) => e matches DeckError::NotFound && forall|i: int|
                0 <= i < devices@.len() ==> !is_stream_deck(#[trigger] devices@[i]),
        },
{
    match stream_deck_index(devices) {
        Some(i) => {
            let d = &devices[i];
            let serial = match &d.serial {
                Some(s) => Some(s.clone()),
                None => None,
            };
            Ok(ConnectionInfo { vid: d.vendor_id, pid: d.product_id, serial })
        },
        None => Err(DeckError::NotFound),
    }
}

impl Default for Deck_Streamdeck {
    fn default() -> (d: Deck_Streamdeck)
        ensures
            d@.info is None,
            d@.contents == Seq::<ContentView>::empty(),
            d@.buttons == Seq::<u8>::empty(),
            !d@.changed,
            !d@.sending,
            !d@.receiving,
            d@.link is None,
            !d@.no_task,
            d@.sent == Seq::<ToDeck>::empty(),
            d.calls() == Seq::<DeckCall>::empty(),
    {
        let d = Deck_Streamdeck {
            connection_info: None,
            button_contents: Vec::new(),
            buttons: Vec::new(),
            button_changed: false,
            to_deck_tx: None,
            from_deck_rx: None,
            link: None,
            no_task: false,
            sent: Ghost(Seq::empty()),
            requests: Ghost(Seq::empty()),
        };
        assert(d@.contents == Seq::<ContentView>::empty());
        d
    }
}

impl Deck_Streamdeck {
    /// A deck for the first Stream Deck among `devices`, not yet connected.
    pub fn find_and_connect(devices: &Vec<DeviceInfo>) -> (r: Result<Deck_Streamdeck, DeckError>)
        ensures
            match r {
                Ok(d) => {
                    &&& d@.info matches Some(ci) && exists|i: int|
                        0 <= i < devices@.len() && is_stream_deck(#[trigger] devices@[i])
                            && (forall|j: int| 0 <= j < i ==> !is_stream_deck(#[trigger] devices@[j]))
                            && ci.vid == devices@[i].vendor_id && ci.pid == devices@[i].product_id
                            && ci.serial == devices@[i].serial
                    &&& d@.contents == Seq::<ContentView>::empty()
                    &&& d@.buttons == Seq::<u8>::empty()
                    &&& !d@.changed && !d@.sending && !d@.receiving && d@.link is None
                    &&& !d@.no_task && d@.sent == Seq::<ToDeck>::empty()
                    &&& d.calls() == Seq::<DeckCall>::empty()
                },
                Err(e) => e matches DeckError::NotFound && forall|i: int|
                    0 <= i < devices@.len() ==> !is_stream_deck(#[trigger] devices@[i]),
            },
    {
        let connection_info = find_deck(devices)?;
        let mut d = Deck_Streamdeck::default();
        d.connection_info = Some(connection_info);
        Ok(d)
    }

    /// Takes in a report from the device: a new state of the keys, or nothing.
    pub fn accept(&mut self, message: Option<MessageFromDeck>)
        ensures
            match message {
                Some(MessageFromDeck::Buttons(b)) => final(self)@ == (StreamdeckView {
                    buttons: b@,
                    changed: true,
                    ..old(self)@
                }),
                None => final(self)@ == old(self)@,
            },
            final(self).calls() == old(self).calls(),
    {
        match message {
            Some(MessageFromDeck::Buttons(b)) => {
                self.buttons = b;
                self.button_changed = true;
            },
            None => {},
        }
    }

    /// Hands over the link that `run` made, for the task that talks to the device.
    pub fn take_link(&mut self) -> (r: Option<DeckLink>)
        ensures
            match r {
                Some(l) => old(self)@.link == Some(l.info),
                None => old(self)@.link is None,
            },
            final(self)@ == (StreamdeckView { link: None, ..old(self)@ }),
            final(self).calls() == old(self).calls(),
    {
        self.link.take()
    }

    /// Makes the keys ready: fifteen of them.
    fn ready_keys(&mut self)
        ensures
            final(self)@ == with_contents(old(self)@, fifteen_keys(old(self)@.contents)),
            final(self).calls() == old(self).calls(),
    {
        let ghost before = self@;
        if self.button_contents.len() >= 15 {
            self.button_contents.truncate(15);
        } else {
            while self.button_contents.len() < 15
                invariant
                    self.button_contents@.len() <= 15,
                    before.contents.len() <= self.button_contents@.len(),
                    self@ == with_contents(before, self@.contents),
                    self.calls() == old(self).calls(),
                    self@.contents.subrange(0, before.contents.len() as int) == before.contents,
                    forall|i: int|
                        before.contents.len() <= i < self@.contents.len() ==> #[trigger] self@.contents[i]
                            == ContentView::Empty,
                decreases 15 - self.button_contents.len(),
            {
                let ghost c0 = self@.contents;
                self.button_contents.push(ButtonContent::Empty);
                assert(self@.contents == c0.push(ContentView::Empty));
            }
        }
        assert(self@.contents == fifteen_keys(before.contents));
    }

    /// Hands `m` to the task, where there is a channel to a task that can read it; `false` where
    /// it could not arrive.
    fn hand_over(&mut self, m: MessageToDeck) -> (ok: bool)
        ensures
            final(self)@ == with_sent(old(self)@, m@),
            final(self).calls() == old(self).calls(),
            !ok ==> old(self)@.sending,
            old(self)@.sending && old(self)@.no_task ==> !ok,
    {
        if self.no_task {
            return self.to_deck_tx.is_none();
        }
        match &self.to_deck_tx {
            Some(sender) => {
                let ghost mv = m@;
                let ok = send_message(sender, m);
                proof {
                    self.sent@ = self.sent@.push(mv);
                }
                ok
            },
            None => true,
        }
    }
}

impl Deck for Deck_Streamdeck {
    closed spec fn calls(&self) -> Seq<DeckCall> {
        self.requests@
    }

    open spec fn has_key(&self, index: u8) -> bool {
        (index as int) < self@.contents.len()
    }

    fn key_exists(&self, index: u8) -> (r: bool) {
        (index as usize) < self.button_contents.len()
    }

    open spec fn is_done(&self) -> bool {
        false
    }

    fn done(&self) -> (r: bool) {
        false
    }

    /// Closed once the way to the task that talks to the device is.
    open spec fn is_shut_down(&self) -> bool {
        !self@.sending
    }

    /// Tells the task that talks to the device to stop, then closes the way to it, as
    /// dropping the deck does.
    fn shutdown(&mut self)
        ensures
            final(self)@ == (StreamdeckView { sending: false, ..with_sent(old(self)@, ToDeck::Shutdown) }),
    {
        let _ = self.hand_over(MessageToDeck::Shutdown);
        self.to_deck_tx = None;
        proof {
            self.requests@ = self.requests@.push(DeckCall::Shutdown);
        }
    }

    /// Takes in the latest report from the device, if one is waiting.
    fn update(&mut self) -> (r: Result<(), DeckError>)
        ensures
            r is Ok,
            final(self)@.info == old(self)@.info,
            final(self)@.contents == old(self)@.contents,
            final(self)@.sending == old(self)@.sending,
            final(self)@.receiving == old(self)@.receiving,
            final(self)@.link == old(self)@.link,
            final(self)@.no_task == old(self)@.no_task,
            final(self)@.sent == old(self)@.sent,
            !final(self)@.changed ==> final(self)@.buttons == old(self)@.buttons,
            !old(self)@.receiving ==> !final(self)@.changed,
    {
        self.button_changed = false;
        let message = match &self.from_deck_rx {
            Some(rx) => try_receive(rx),
            None => None,
        };
        self.accept(message);
        proof {
            self.requests@ = self.requests@.push(DeckCall::Update(Ok(())));
        }
        Ok(())
    }

    /// Makes fifteen keys ready and the channels to and from the task that talks to the device;
    /// the device and the task's ends of the channels wait in the link. Without a device, the
    /// task's ends are dropped here.
    fn run(&mut self) -> (r: Result<(), DeckError>)
        ensures
            r == Ok::<(), DeckError>(()),
            final(self)@.contents == fifteen_keys(old(self)@.contents),
            final(self)@.buttons == old(self)@.buttons,
            final(self)@.changed == old(self)@.changed,
            final(self)@.sending,
            final(self)@.receiving,
            final(self)@.info is None,
            final(self)@.link == old(self)@.info,
            final(self)@.no_task == old(self)@.info is None,
            final(self)@.sent == Seq::<ToDeck>::empty(),
    {
        self.ready_keys();
        let (tx, rx) = new_channel::<MessageToDeck>();
        let (tx2, rx2) = new_channel::<MessageFromDeck>();
        self.to_deck_tx = Some(tx);
        self.from_deck_rx = Some(rx2);
        self.link = match self.connection_info.take() {
            Some(info) => Some(DeckLink { info, commands: rx, events: tx2 }),
            None => None,
        };
        self.no_task = self.link.is_none();
        proof {
            self.sent@ = Seq::empty();
            self.requests@ = self.requests@.push(DeckCall::Run(Ok(())));
        }
        Ok(())
    }

    /// Shows the image file `filename` on key `index`, unless the key shows it already; the
    /// message for it goes to the task.
    fn set_button_file(&mut self, index: u8, filename: &str) -> (r: Result<(), DeckError>)
        ensures
            final(self)@ == after_file(old(self)@, index, filename@),
            old(self)@.contents[index as int] == ContentView::Image(filename@) ==> r is Ok,
            old(self)@.contents[index as int] != ContentView::Image(filename@) ==> send_answer(old(self)@, r),
    {
        let i = index as usize;
        if let ButtonContent::Image { name } = &self.button_contents[i] {
            if same_text(name.as_str(), filename) {
                proof {
                    self.requests@ = self.requests@.push(DeckCall::SetFile(index, filename@, Ok(())));
                }
                return Ok(());
            }
        }
        let ghost before = self@;
        self.button_contents.set(i, ButtonContent::Image { name: String::from_str(filename) });
        assert(self@.contents == before.contents.update(index as int, ContentView::Image(filename@)));
        let r = if self.hand_over(file_message(index, filename)) {
            Ok(())
        } else {
            Err(DeckError::Disconnected)
        };
        proof {
            self.requests@ = self.requests@.push(DeckCall::SetFile(index, filename@, r));
        }
        r
    }

    /// The last state of the keys, where it came in with the last update; the task reports on its
    /// own, so nothing is waited for.
    fn read_buttons(&mut self, timeout_ms: Option<u64>) -> (r: Result<Vec<u8>, DeckError>)
        ensures
            final(self)@ == old(self)@,
            match r {
                Ok(b) => old(self)@.changed && b@ == old(self)@.buttons,
                Err(e) => !old(self)@.changed && e matches DeckError::NoButtonsChanged,
            },
    {
        let r = if self.button_changed {
            let mut b: Vec<u8> = Vec::new();
            let mut i: usize = 0;
            while i < self.buttons.len()
                invariant
                    i <= self.buttons@.len(),
                    b@ == self.buttons@.take(i as int),
                decreases self.buttons.len() - i,
            {
                b.push(self.buttons[i]);
                i = i + 1;
            }
            assert(self.buttons@.take(self.buttons@.len() as int) == self.buttons@);
            Ok(b)
        } else {
            Err(DeckError::NoButtonsChanged)
        };
        proof {
            self.requests@ = self.requests@.push(DeckCall::Read(timeout_ms, report_of(r)));
        }
        r
    }

    /// Fills key `index` with one colour; the message for it goes to the task, every time.
    fn set_button_rgb(&mut self, index: u8, r: u8, g: u8, b: u8) -> (res: Result<(), DeckError>)
        ensures
            final(self)@ == after_rgb(old(self)@, index, r, g, b),
            send_answer(old(self)@, res),
    {
        let i = index as usize;
        let ghost before = self@;
        self.button_contents.set(i, ButtonContent::Rgb(r, g, b));
        assert(self@.contents == before.contents.update(index as int, ContentView::Rgb(r, g, b)));
        let res = if self.hand_over(rgb_message(index, r, g, b)) {
            Ok(())
        } else {
            Err(DeckError::Disconnected)
        };
        proof {
            self.requests@ = self.requests@.push(DeckCall::SetRgb(index, r, g, b, res));
        }
        res
    }
}

} // verus!

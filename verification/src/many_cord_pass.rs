//! The program's state between frames and each frame: which images the keys of the active page
//! show, which presses and releases the decks report, and what the triggered actions ask for,
//! of the decks and of the outside world.
use vstd::prelude::*;

use crate::action::{Action, ActionView};
use crate::button::{Button, ButtonView, button_of, image_of, with_pressed, actions_view};
use crate::config::{ButtonConfig, Config, ConfigError, PageConfig};
use crate::deck::{Deck, DeckCall, DeckError};
use crate::deck_minifb::Deck_Minifb;
use crate::deck_streamdeck::{DeckLink, Deck_Streamdeck};
use crate::page::{Page, PageView, page_of};
use crate::trusted::{osc_encode, osc_message_bytes, url_decode, url_decoded};

verus! {

/// Whether `d` is the simulated deck that the program adds: titled `The Deck`, five keys wide
/// and three high.
pub open spec fn is_window_deck(d: AnyDeck) -> bool {
    d matches AnyDeck::Window(w) && w.title_text() == "The Deck"@ && w.width_keys() == 5 && w.height_keys() == 3
}

/// A deck the program drives: a Stream Deck, or the simulated deck in a window.
pub enum AnyDeck {
    Stream(Deck_Streamdeck),
    Window(Deck_Minifb),
}

impl Deck for AnyDeck {
    open spec fn calls(&self) -> Seq<DeckCall> {
        match self {
            AnyDeck::Stream(d) => d.calls(),
            AnyDeck::Window(w) => w.calls(),
        }
    }

    open spec fn has_key(&self, index: u8) -> bool {
        match self {
            AnyDeck::Stream(d) => d.has_key(index),
            AnyDeck::Window(w) => w.has_key(index),
        }
    }

    fn key_exists(&self, index: u8) -> (r: bool) {
        match self {
            AnyDeck::Stream(d) => d.key_exists(index),
            AnyDeck::Window(w) => w.key_exists(index),
        }
    }

    fn run(&mut self) -> (r: Result<(), DeckError>) {
        match self {
            AnyDeck::Stream(d) => d.run(),
            AnyDeck::Window(w) => w.run(),
        }
    }

    fn update(&mut self) -> (r: Result<(), DeckError>) {
        match self {
            AnyDeck::Stream(d) => d.update(),
            AnyDeck::Window(w) => w.update(),
        }
    }

    open spec fn is_done(&self) -> bool {
        match self {
            AnyDeck::Stream(d) => d.is_done(),
            AnyDeck::Window(w) => w.is_done(),
        }
    }

    fn done(&self) -> (r: bool) {
        match self {
            AnyDeck::Stream(d) => d.done(),
            AnyDeck::Window(w) => w.done(),
        }
    }

    open spec fn is_shut_down(&self) -> bool {
        match self {
            AnyDeck::Stream(d) => d.is_shut_down(),
            AnyDeck::Window(w) => w.is_shut_down(),
        }
    }

    fn shutdown(&mut self) {
        match self {
            AnyDeck::Stream(d) => d.shutdown(),
            AnyDeck::Window(w) => w.shutdown(),
        }
    }

    fn set_button_file(&mut self, index: u8, filename: &str) -> (r: Result<(), DeckError>) {
        match self {
            AnyDeck::Stream(d) => d.set_button_file(index, filename),
            AnyDeck::Window(w) => w.set_button_file(index, filename),
        }
    }

    fn set_button_rgb(&mut self, index: u8, r: u8, g: u8, b: u8) -> (res: Result<(), DeckError>) {
        match self {
            AnyDeck::Stream(d) => d.set_button_rgb(index, r, g, b),
            AnyDeck::Window(w) => w.set_button_rgb(index, r, g, b),
        }
    }

    fn read_buttons(&mut self, timeout_ms: Option<u64>) -> (r: Result<Vec<u8>, DeckError>) {
        match self {
            AnyDeck::Stream(d) => d.read_buttons(timeout_ms),
            AnyDeck::Window(w) => w.read_buttons(timeout_ms),
        }
    }
}

/// The program's state: the configuration, the buttons by name, the pages, the decks, and the
/// state of each key the last time the decks reported it.
pub struct ManyCordPass {
    config: Option<Config>,
    buttons: Vec<(String, Button)>,
    pages: Vec<Page>,
    active_page: usize,
    deck: Vec<AnyDeck>,
    pressed_buttons: Vec<bool>,
    done: bool,
}

/// The value of a [`ManyCordPass`].
pub struct PassView {
    pub config: Option<Config>,
    pub buttons: Map<Seq<char>, ButtonView>,
    pub pages: Seq<PageView>,
    pub active_page: int,
    /// What the program sees of each deck, in order.
    pub decks: Seq<DeckState>,
    pub pressed: Seq<bool>,
    pub done: bool,
}

/// Where the program's work stopped.
#[derive(Debug)]
pub enum PassError {
    /// A deck failed.
    Deck(DeckError),
    /// A key that a deck does not have was to show an image or a colour.
    NoSuchKey(u8),
    /// A deck reported more keys than the program keeps the state of.
    TooManyKeys,
    /// A button of the configuration could not be made.
    Config(ConfigError),
}

/// What the program has to do in the outside world for one action.
#[derive(Debug)]
pub enum Effect {
    Nothing,
    /// Fill each of these keys, on every deck, with one colour.
    SetRgb { keys: Vec<u8>, r: u8, g: u8, b: u8 },
    /// Switch the OBS instance at `address` to `scene`, already url-decoded (`None`: the
    /// scene's name does not decode).
    ObsScene { address: String, scene: Option<String> },
    /// Fetch this URL.
    HttpGet(String),
    /// Send these bytes, an encoded OSC message, to `host` over UDP.
    OscSend { host: String, packet: Vec<u8> },
}

/// The value of an [`Effect`].
pub enum EffectView {
    Nothing,
    SetRgb { keys: Seq<u8>, r: u8, g: u8, b: u8 },
    ObsScene { address: Seq<char>, scene: Option<Seq<char>> },
    HttpGet(Seq<char>),
    OscSend { host: Seq<char>, packet: Seq<u8> },
}

impl View for Effect {
    type V = EffectView;

    open spec fn view(&self) -> EffectView {
        match self {
            Effect::Nothing => EffectView::Nothing,
            Effect::SetRgb { keys, r, g, b } => EffectView::SetRgb { keys: keys@, r: *r, g: *g, b: *b },
            Effect::ObsScene { address, scene } => EffectView::ObsScene {
                address: address@,
                scene: match scene {
                    Some(s) => Some(s@),
                    None => None,
                },
            },
            Effect::HttpGet(u) => EffectView::HttpGet(u@),
            Effect::OscSend { host, packet } => EffectView::OscSend { host: host@, packet: packet@ },
        }
    }
}

/// The buttons by name that a list of entries stands for (its names are kept distinct).
pub open spec fn entries_map(v: Seq<(String, Button)>) -> Map<Seq<char>, ButtonView> {
    Map::new(
        |k: Seq<char>| exists|i: int| 0 <= i < v.len() && (#[trigger] v[i]).0@ == k,
        |k: Seq<char>| v[choose|i: int| 0 <= i < v.len() && (#[trigger] v[i]).0@ == k].1@,
    )
}

/// No two entries have the same name.
pub open spec fn names_unique(v: Seq<(String, Button)>) -> bool {
    forall|i: int, j: int|
        0 <= i < v.len() && 0 <= j < v.len() && i != j ==> (#[trigger] v[i]).0@ != (#[trigger] v[j]).0@
}

/// The pages that a list of page configurations describes.
pub open spec fn pages_of(pcs: Seq<PageConfig>) -> Seq<PageView> {
    pcs.map_values(|pc: PageConfig| page_of(pc))
}

/// The index of the first button configuration that is not of a supported type; the count of
/// them where all are.
pub open spec fn first_unsupported(bcs: Seq<ButtonConfig>) -> int
    decreases bcs.len(),
{
    if bcs.len() == 0 {
        0
    } else if first_unsupported(bcs.drop_last()) < bcs.len() - 1 {
        first_unsupported(bcs.drop_last())
    } else if button_of(bcs.last()) is None {
        bcs.len() - 1
    } else {
        bcs.len() as int
    }
}

/// The buttons `m` with those of `bcs` added in order, each under its name (all supported).
pub open spec fn with_buttons(m: Map<Seq<char>, ButtonView>, bcs: Seq<ButtonConfig>) -> Map<
    Seq<char>,
    ButtonView,
>
    decreases bcs.len(),
{
    if bcs.len() == 0 {
        m
    } else {
        with_buttons(m, bcs.drop_last()).insert(bcs.last().name@, button_of(bcs.last())->0)
    }
}

/// The state of `count` keys: the first ones kept, the missing ones up.
pub open spec fn key_states(p: Seq<bool>, count: nat) -> Seq<bool> {
    if p.len() >= count {
        p.take(count as int)
    } else {
        p + Seq::new((count - p.len()) as nat, |i: int| false)
    }
}

/// The images that the first `entries.len()` keys of a page show: for each key whose button
/// exists and shows an image, the key's index and the image.
pub open spec fn page_images(entries: Seq<Option<Seq<char>>>, m: Map<Seq<char>, ButtonView>) -> Seq<
    (u8, Seq<char>),
>
    decreases entries.len(),
{
    if entries.len() == 0 {
        Seq::empty()
    } else {
        let before = page_images(entries.drop_last(), m);
        let i = entries.len() - 1;
        match entries.last() {
            Some(name) => if m.contains_key(name) && image_of(m[name]) is Some {
                before.push((i as u8, image_of(m[name])->0))
            } else {
                before
            },
            None => before,
        }
    }
}

/// What key `i` of the page does when it was held down (`last`) and now is (`now`) or is not:
/// a button that goes down is pressed and triggers its press actions, one that comes up is
/// released and triggers its release actions.
pub open spec fn key_transition(
    m: Map<Seq<char>, ButtonView>,
    actions: Seq<ActionView>,
    entries: Seq<Option<Seq<char>>>,
    i: int,
    last: bool,
    now: bool,
) -> (Map<Seq<char>, ButtonView>, Seq<ActionView>) {
    if 0 <= i < entries.len() && entries[i] is Some && m.contains_key(entries[i]->0) {
        let name = entries[i]->0;
        let b = m[name];
        if now && !last {
            (m.insert(name, with_pressed(b, true)), actions + b.on_press)
        } else if !now && last {
            (m.insert(name, with_pressed(b, false)), actions + b.on_release)
        } else {
            (m, actions)
        }
    } else {
        (m, actions)
    }
}

/// The buttons and the actions triggered once the keys' new states `now` are taken in, key by
/// key, the keys having been held down as `last` says.
pub open spec fn take_in_keys(
    m: Map<Seq<char>, ButtonView>,
    entries: Seq<Option<Seq<char>>>,
    last: Seq<bool>,
    now: Seq<u8>,
) -> (Map<Seq<char>, ButtonView>, Seq<ActionView>)
    decreases now.len(),
{
    if now.len() == 0 {
        (m, Seq::empty())
    } else {
        let prev = take_in_keys(m, entries, last, now.drop_last());
        let i = now.len() - 1;
        key_transition(prev.0, prev.1, entries, i, last[i], now[i] > 0)
    }
}

/// The state of the keys once new states `now` are taken in.
pub open spec fn keys_after(last: Seq<bool>, now: Seq<u8>) -> Seq<bool> {
    Seq::new(last.len(), |i: int| if i < now.len() { now[i] > 0 } else { last[i] })
}

/// The keys that a `Clear` fills: the fifteen keys of a Stream Deck.
pub open spec fn clear_keys() -> Seq<u8> {
    Seq::new(15, |i: int| i as u8)
}

/// What the outside world has to do for an action.
pub open spec fn effect_of(a: ActionView) -> EffectView {
    match a {
        ActionView::NoOp => EffectView::Nothing,
        ActionView::Clear(r, g, b) => EffectView::SetRgb { keys: clear_keys(), r, g, b },
        ActionView::Shutdown => EffectView::Nothing,
        ActionView::HttpGet(u) => EffectView::HttpGet(u),
        ActionView::ObsScene(address, scene) => EffectView::ObsScene {
            address,
            scene: url_decoded(scene),
        },
        ActionView::OscSend(host, message) => EffectView::OscSend {
            host,
            packet: osc_message_bytes(message),
        },
    }
}

/// Keys whose state did not change trigger nothing and leave the buttons as they were.
pub proof fn lemma_steady_keys_trigger_nothing(
    m: Map<Seq<char>, ButtonView>,
    entries: Seq<Option<Seq<char>>>,
    last: Seq<bool>,
    now: Seq<u8>,
)
    requires
        now.len() <= last.len(),
        forall|i: int| 0 <= i < now.len() ==> (#[trigger] now[i] > 0) == last[i],
    ensures
        take_in_keys(m, entries, last, now) == (m, Seq::<ActionView>::empty()),
    decreases now.len(),
{
    if now.len() > 0 {
        let shorter = now.drop_last();
        assert forall|i: int| 0 <= i < shorter.len() implies (#[trigger] shorter[i] > 0) == last[i] by {
            assert(shorter[i] == now[i]);
        }
        lemma_steady_keys_trigger_nothing(m, entries, last, shorter);
        assert((now[now.len() - 1] > 0) == last[now.len() - 1]);
    }
}

/// The keys' state after a report records that report: a key it covers is held down exactly
/// when the report says so, the others keep their state.
pub proof fn lemma_keys_after_records_report(last: Seq<bool>, now: Seq<u8>)
    requires
        now.len() <= last.len(),
    ensures
        keys_after(last, now).len() == last.len(),
        forall|i: int| 0 <= i < now.len() ==> #[trigger] keys_after(last, now)[i] == (now[i] > 0),
        forall|i: int| now.len() <= i < last.len() ==> #[trigger] keys_after(last, now)[i] == last[i],
{
}

/// The same report taken in twice in a row triggers nothing the second time and leaves the
/// buttons as the first time left them.
pub proof fn lemma_repeated_report_is_quiet(
    m: Map<Seq<char>, ButtonView>,
    entries: Seq<Option<Seq<char>>>,
    last: Seq<bool>,
    now: Seq<u8>,
)
    requires
        now.len() <= last.len(),
    ensures
        ({
            let first = take_in_keys(m, entries, last, now);
            take_in_keys(first.0, entries, keys_after(last, now), now) == (first.0, Seq::<ActionView>::empty())
        }),
{
    let first = take_in_keys(m, entries, last, now);
    lemma_steady_keys_trigger_nothing(first.0, entries, keys_after(last, now), now);
}

/// Once a configuration whose buttons are all supported is applied, every button it names is
/// there, as its last configuration of that name describes it.
pub proof fn lemma_configured_buttons_present(m: Map<Seq<char>, ButtonView>, bcs: Seq<ButtonConfig>)
    requires
        first_unsupported(bcs) == bcs.len(),
    ensures
        forall|i: int| 0 <= i < bcs.len() ==> #[trigger] with_buttons(m, bcs).contains_key(bcs[i].name@),
        forall|i: int|
            0 <= i < bcs.len() && (forall|j: int| i < j < bcs.len() ==> (#[trigger] bcs[j]).name@ != bcs[i].name@)
                ==> Some(#[trigger] with_buttons(m, bcs)[bcs[i].name@]) == button_of(bcs[i]),
    decreases bcs.len(),
{
    if bcs.len() > 0 {
        let shorter = bcs.drop_last();
        if first_unsupported(shorter) < shorter.len() {
            assert(false);
        }
        lemma_configured_buttons_present(m, shorter);
        assert forall|i: int| 0 <= i < bcs.len() implies #[trigger] with_buttons(m, bcs).contains_key(bcs[i].name@) by {
            if i < shorter.len() {
                assert(shorter[i] == bcs[i]);
                assert(with_buttons(m, shorter).contains_key(shorter[i].name@));
            }
        }
        assert forall|i: int|
            0 <= i < bcs.len() && (forall|j: int| i < j < bcs.len() ==> (#[trigger] bcs[j]).name@ != bcs[i].name@)
            implies Some(#[trigger] with_buttons(m, bcs)[bcs[i].name@]) == button_of(bcs[i]) by {
            if i < shorter.len() {
                assert(shorter[i] == bcs[i]);
                assert(bcs[bcs.len() - 1].name@ != bcs[i].name@);
                assert forall|j: int| i < j < shorter.len() implies (#[trigger] shorter[j]).name@ != shorter[i].name@ by {
                    assert(shorter[j] == bcs[j]);
                }
                assert(Some(with_buttons(m, shorter)[shorter[i].name@]) == button_of(shorter[i]));
            } else {
                assert(button_of(bcs.last()) is Some);
            }
        }
    }
}

/// The scene of an `ObsScene` action reaches OBS as written where it holds no `%`.
pub proof fn lemma_plain_scene_passes_unchanged(address: Seq<char>, scene: Seq<char>)
    requires
        !scene.contains('%'),
    ensures
        effect_of(ActionView::ObsScene(address, scene)) == (EffectView::ObsScene { address, scene: Some(scene) }),
{
    crate::text::lemma_plain_text_decodes_to_itself(scene);
}

/// `new` is `old` once its configuration is applied, with outcome `r`: each button under its
/// name (a later one of a name in place of an earlier one), the pages after those already there,
/// then room for the state of 32 keys; a button of an unsupported type stops it there, with the
/// buttons before it made, and comes back as the error.
pub open spec fn config_applied(old: PassView, new: PassView, r: Result<(), ConfigError>) -> bool {
    &&& new.config == old.config
    &&& new.active_page == old.active_page
    &&& new.decks == old.decks
    &&& new.done == old.done
    &&& match old.config {
        None => r is Ok && new.buttons == old.buttons && new.pages == old.pages && new.pressed
            == key_states(old.pressed, 32),
        Some(c) => {
            let bcs = c.button_configs();
            let k = first_unsupported(bcs);
            &&& new.buttons == with_buttons(old.buttons, bcs.take(k))
            &&& if k < bcs.len() {
                &&& r matches Err(ConfigError::UnsupportedButtonType(t)) && t@ == bcs[k].ttype@
                &&& new.pages == old.pages
                &&& new.pressed == old.pressed
            } else {
                &&& r is Ok
                &&& new.pages == old.pages + pages_of(c.page_configs())
                &&& new.pressed == key_states(old.pressed, 32)
            }
        },
    }
}

/// Applying a configuration whose buttons are all supported succeeds and puts its pages after
/// the pages already there, in the configuration's order, each as its configuration describes
/// it.
pub proof fn lemma_pages_in_order(old: PassView, new: PassView, r: Result<(), ConfigError>)
    requires
        config_applied(old, new, r),
        old.config is Some,
        first_unsupported(old.config->0.button_configs()) == old.config->0.button_configs().len(),
    ensures
        r is Ok,
        new.pages.len() == old.pages.len() + old.config->0.page_configs().len(),
        forall|i: int| 0 <= i < old.pages.len() ==> #[trigger] new.pages[i] == old.pages[i],
        forall|i: int|
            0 <= i < old.config->0.page_configs().len() ==> new.pages[old.pages.len() + i] == page_of(
                #[trigger] old.config->0.page_configs()[i],
            ),
{
    let pcs = old.config->0.page_configs();
    assert forall|i: int| 0 <= i < pcs.len() implies new.pages[old.pages.len() + i] == page_of(#[trigger] pcs[i]) by {
        assert(new.pages[old.pages.len() + i] == pages_of(pcs)[i]);
    }
}

/// Whether the outside world has to act on an action: a request, an OBS scene, an OSC message.
pub open spec fn is_outward(a: ActionView) -> bool {
    a is HttpGet || a is ObsScene || a is OscSend
}

/// The key entries of the active page; none where there is no active page.
pub open spec fn active_entries(v: PassView) -> Seq<Option<Seq<char>>> {
    if 0 <= v.active_page < v.pages.len() {
        v.pages[v.active_page].buttons
    } else {
        Seq::empty()
    }
}

/// The values of a list of effects.
pub open spec fn effects_view(v: Seq<Effect>) -> Seq<EffectView> {
    v.map_values(|e: Effect| e@)
}

/// Whether `a` is the start of `b`.
pub open spec fn is_prefix(a: Seq<DeckCall>, b: Seq<DeckCall>) -> bool {
    a.len() <= b.len() && b.subrange(0, a.len() as int) == a
}

/// The keys that deck `i` of `v` has.
pub open spec fn keys_at(v: Seq<AnyDeck>, i: int) -> Set<u8> {
    Set::new(|k: u8| v[i].has_key(k))
}

/// What the program sees of a deck: the requests it was given, with its answers, and its keys.
pub struct DeckState {
    pub calls: Seq<DeckCall>,
    pub keys: Set<u8>,
}

/// What the program sees of each of the decks `v`.
pub open spec fn states_of(v: Seq<AnyDeck>) -> Seq<DeckState> {
    Seq::new(v.len(), |i: int| DeckState { calls: v[i].calls(), keys: keys_at(v, i) })
}

/// Why a frame stopped.
pub enum FrameStop {
    Deck(DeckError),
    NoSuchKey(u8),
    TooManyKeys,
}

/// Where a frame stops with the error `e`.
pub open spec fn stop_of(e: PassError) -> Option<FrameStop> {
    match e {
        PassError::Deck(d) => Some(FrameStop::Deck(d)),
        PassError::NoSuchKey(k) => Some(FrameStop::NoSuchKey(k)),
        PassError::TooManyKeys => Some(FrameStop::TooManyKeys),
        PassError::Config(_) => None,
    }
}

/// A frame part-way: the buttons, the keys' state, the actions triggered, whether the program is
/// done, the effects for the outside world, where the frame stopped, and whether the decks'
/// requests so far are those the frame makes (`fits`).
pub struct Sim {
    pub buttons: Map<Seq<char>, ButtonView>,
    pub pressed: Seq<bool>,
    pub actions: Seq<ActionView>,
    pub done: bool,
    pub effects: Seq<EffectView>,
    pub stop: Option<FrameStop>,
    pub fits: bool,
}

pub open spec fn halted(s: Sim) -> bool {
    s.stop is Some || !s.fits
}

pub open spec fn stopped(s: Sim, e: FrameStop) -> Sim {
    Sim { stop: Some(e), ..s }
}

pub open spec fn misfit(s: Sim) -> Sim {
    Sim { fits: false, ..s }
}

/// The answer a logged request gives, where it is an update.
pub open spec fn update_answer(c: DeckCall) -> Option<Result<(), DeckError>> {
    match c {
        DeckCall::Update(r) => Some(r),
        _ => None,
    }
}

/// The answer a logged request gives, where it asks key `key` for the image file `img`.
pub open spec fn file_answer(c: DeckCall, key: u8, img: Seq<char>) -> Option<Result<(), DeckError>> {
    match c {
        DeckCall::SetFile(k, f, r) => if k == key && f == img {
            Some(r)
        } else {
            None
        },
        _ => None,
    }
}

/// The answer a logged request gives, where it asks key `key` for the colour `r, g, b`.
pub open spec fn rgb_answer(c: DeckCall, key: u8, r: u8, g: u8, b: u8) -> Option<Result<(), DeckError>> {
    match c {
        DeckCall::SetRgb(k, r2, g2, b2, res) => if k == key && r2 == r && g2 == g && b2 == b {
            Some(res)
        } else {
            None
        },
        _ => None,
    }
}

/// How long each deck's read of its keys in a frame may wait: six milliseconds.
pub open spec fn read_timeout() -> Option<u64> {
    Some(6u64)
}

/// The answer a logged request gives, where it is a read of the keys given `read_timeout`.
pub open spec fn read_answer(c: DeckCall) -> Option<Result<Seq<u8>, DeckError>> {
    match c {
        DeckCall::Read(t, r) => if t == read_timeout() {
            Some(r)
        } else {
            None
        },
        _ => None,
    }
}

/// The frame after a deck answered the request at position `at` of its log: it goes on with the
/// next position, or stops with the deck's error; where the request is not the one asked for,
/// it does not fit.
pub open spec fn after_answer(s: Sim, at: int, a: Option<Result<(), DeckError>>) -> (Sim, int) {
    match a {
        None => (misfit(s), at),
        Some(Ok(_)) => (s, at + 1),
        Some(Err(e)) => (stopped(s, FrameStop::Deck(e)), at + 1),
    }
}

/// A deck, whose log `c` is read from position `at`, asked for the first `q` images `imgs`
/// (key index, image file) in turn; a key the deck does not have stops it.
pub open spec fn files(s: Sim, c: Seq<DeckCall>, at: int, imgs: Seq<(u8, Seq<char>)>, keys: Set<u8>, q: nat) -> (
    Sim,
    int,
)
    decreases q,
{
    if q == 0 {
        (s, at)
    } else {
        let p = files(s, c, at, imgs, keys, (q - 1) as nat);
        let key = imgs[q - 1].0;
        if halted(p.0) {
            p
        } else if !keys.contains(key) {
            (stopped(p.0, FrameStop::NoSuchKey(key)), p.1)
        } else {
            after_answer(p.0, p.1, file_answer(c[p.1], key, imgs[q - 1].1))
        }
    }
}

/// One deck's part of a frame, its log `c` read from position `at`: it updates; where there is
/// an active page (`active`, its keys `entries`), its keys are given the page's images, then its
/// keys are read, waiting at most `read_timeout`, and a report taken in (more keys than the program keeps stops it); a deck
/// failure stops it, a failed read does not.
pub open spec fn round(
    s: Sim,
    c: Seq<DeckCall>,
    at: int,
    entries: Seq<Option<Seq<char>>>,
    active: bool,
    keys: Set<u8>,
) -> (Sim, int) {
    let u = after_answer(s, at, update_answer(c[at]));
    if halted(u.0) || !active {
        u
    } else {
        let imgs = page_images(entries, s.buttons);
        let f = files(u.0, c, u.1, imgs, keys, imgs.len());
        if halted(f.0) {
            f
        } else {
            match read_answer(c[f.1]) {
                None => (misfit(f.0), f.1),
                Some(Err(_)) => (f.0, f.1 + 1),
                Some(Ok(b)) => if b.len() > f.0.pressed.len() {
                    (stopped(f.0, FrameStop::TooManyKeys), f.1 + 1)
                } else {
                    let t = take_in_keys(f.0.buttons, entries, f.0.pressed, b);
                    (
                        Sim { buttons: t.0, pressed: keys_after(f.0.pressed, b), actions: f.0.actions + t.1, ..f.0 },
                        f.1 + 1,
                    )
                },
            }
        }
    }
}

/// The first `n` decks' parts of a frame, in order, deck `d`'s log read from `ats[d]`.
pub open spec fn rounds(
    s: Sim,
    logs: Seq<Seq<DeckCall>>,
    ats: Seq<int>,
    n: nat,
    entries: Seq<Option<Seq<char>>>,
    active: bool,
    keyss: Seq<Set<u8>>,
) -> (Sim, Seq<int>)
    decreases n,
{
    if n == 0 {
        (s, ats)
    } else {
        let p = rounds(s, logs, ats, (n - 1) as nat, entries, active, keyss);
        let d = n - 1;
        if halted(p.0) {
            p
        } else {
            let r = round(p.0, logs[d], p.1[d], entries, active, keyss[d]);
            (r.0, p.1.update(d, r.1))
        }
    }
}

/// Key `key` of the first `n` decks, in order, filled with one colour.
pub open spec fn clear_decks(
    s: Sim,
    logs: Seq<Seq<DeckCall>>,
    ats: Seq<int>,
    key: u8,
    r: u8,
    g: u8,
    b: u8,
    keyss: Seq<Set<u8>>,
    n: nat,
) -> (Sim, Seq<int>)
    decreases n,
{
    if n == 0 {
        (s, ats)
    } else {
        let p = clear_decks(s, logs, ats, key, r, g, b, keyss, (n - 1) as nat);
        let d = n - 1;
        if halted(p.0) {
            p
        } else if !keyss[d].contains(key) {
            (stopped(p.0, FrameStop::NoSuchKey(key)), p.1)
        } else {
            let a = after_answer(p.0, p.1[d], rgb_answer(logs[d][p.1[d]], key, r, g, b));
            (a.0, p.1.update(d, a.1))
        }
    }
}

/// Keys `0` to `q - 1`, one after another, filled with one colour on every deck.
pub open spec fn clear_upto(
    s: Sim,
    logs: Seq<Seq<DeckCall>>,
    ats: Seq<int>,
    q: nat,
    r: u8,
    g: u8,
    b: u8,
    keyss: Seq<Set<u8>>,
) -> (Sim, Seq<int>)
    decreases q,
{
    if q == 0 {
        (s, ats)
    } else {
        let p = clear_upto(s, logs, ats, (q - 1) as nat, r, g, b, keyss);
        if halted(p.0) {
            p
        } else {
            clear_decks(p.0, logs, p.1, (q - 1) as u8, r, g, b, keyss, keyss.len())
        }
    }
}

/// One action carried out: a `Clear` fills the fifteen keys of every deck, a `Shutdown` marks
/// the program done, the others are handed to the outside world.
pub open spec fn act(s: Sim, logs: Seq<Seq<DeckCall>>, ats: Seq<int>, a: ActionView, keyss: Seq<Set<u8>>) -> (
    Sim,
    Seq<int>,
) {
    match a {
        ActionView::Clear(r, g, b) => clear_upto(s, logs, ats, 15, r, g, b, keyss),
        ActionView::Shutdown => (Sim { done: true, ..s }, ats),
        _ => if is_outward(a) {
            (Sim { effects: s.effects.push(effect_of(a)), ..s }, ats)
        } else {
            (s, ats)
        },
    }
}

/// The first `j` of `actions` carried out in turn.
pub open spec fn acts(
    s: Sim,
    logs: Seq<Seq<DeckCall>>,
    ats: Seq<int>,
    actions: Seq<ActionView>,
    j: nat,
    keyss: Seq<Set<u8>>,
) -> (Sim, Seq<int>)
    decreases j,
{
    if j == 0 {
        (s, ats)
    } else {
        let p = acts(s, logs, ats, actions, (j - 1) as nat, keyss);
        if halted(p.0) {
            p
        } else {
            act(p.0, logs, p.1, actions[j - 1], keyss)
        }
    }
}

/// The frame as it starts from `v`.
pub open spec fn frame_start(v: PassView) -> Sim {
    Sim {
        buttons: v.buttons,
        pressed: v.pressed,
        actions: Seq::empty(),
        done: v.done,
        effects: Seq::empty(),
        stop: None,
        fits: true,
    }
}

/// The logs of the decks seen in `ds`.
pub open spec fn logs_of(ds: Seq<DeckState>) -> Seq<Seq<DeckCall>> {
    ds.map_values(|d: DeckState| d.calls)
}

/// Where each deck's log stands in `v`.
pub open spec fn log_ends(v: PassView) -> Seq<int> {
    v.decks.map_values(|d: DeckState| d.calls.len() as int)
}

/// The keys of each deck in `v`.
pub open spec fn deck_keys(v: PassView) -> Seq<Set<u8>> {
    v.decks.map_values(|d: DeckState| d.keys)
}

/// The decks' parts of a frame from `v`, the decks' logs being `logs`.
pub open spec fn frame_rounds(v: PassView, logs: Seq<Seq<DeckCall>>) -> (Sim, Seq<int>) {
    rounds(
        frame_start(v),
        logs,
        log_ends(v),
        v.decks.len(),
        active_entries(v),
        0 <= v.active_page < v.pages.len(),
        deck_keys(v),
    )
}

/// A whole frame from `v`, the decks' logs being `logs`: each deck's part in turn, then the
/// actions triggered, in order; the first failure stops it.
pub open spec fn frame_sim(v: PassView, logs: Seq<Seq<DeckCall>>) -> (Sim, Seq<int>) {
    let r = frame_rounds(v, logs);
    if halted(r.0) {
        r
    } else {
        acts(r.0, logs, r.1, r.0.actions, r.0.actions.len(), deck_keys(v))
    }
}

/// One frame took `old` to `new`, handing `effects` to the outside world, with outcome `result`:
/// each deck was asked exactly what the frame asks, given its answers, and the buttons, the keys'
/// state, whether the program is done, the effects and the outcome are what follows.
pub open spec fn frame_outcome(old: PassView, new: PassView, effects: Seq<EffectView>, result: Result<(), PassError>) -> bool {
    let f = frame_sim(old, logs_of(new.decks));
    &&& f.0.fits
    &&& new.decks.len() == old.decks.len()
    &&& forall|d: int|
        0 <= d < old.decks.len() ==> {
            &&& (#[trigger] new.decks[d]).keys == old.decks[d].keys
            &&& is_prefix(old.decks[d].calls, new.decks[d].calls)
            &&& f.1[d] == new.decks[d].calls.len()
        }
    &&& new.config == old.config
    &&& new.pages == old.pages
    &&& new.active_page == old.active_page
    &&& new.buttons == f.0.buttons
    &&& new.pressed == f.0.pressed
    &&& new.done == f.0.done
    &&& effects == f.0.effects
    &&& match result {
        Ok(()) => f.0.stop is None,
        Err(e) => f.0.stop is Some && stop_of(e) == f.0.stop,
    }
}

/// `new` is the log `old` with one more request, to make the deck ready, answered with success.
pub open spec fn made_ready(old: Seq<DeckCall>, new: Seq<DeckCall>) -> bool {
    &&& new.len() == old.len() + 1
    &&& new.drop_last() == old
    &&& new.last() matches DeckCall::Run(r) && r is Ok
}

/// The decks `old` made ready in turn until deck `i` failed with `e`: those before it made
/// ready, it answered `e`, those after it not asked (and any added after them).
pub open spec fn failed_at(old: Seq<DeckState>, new: Seq<DeckState>, i: int, e: DeckError) -> bool {
    &&& 0 <= i < old.len()
    &&& forall|d: int| 0 <= d < i ==> made_ready(old[d].calls, (#[trigger] new[d]).calls)
    &&& new[i].calls == old[i].calls.push(DeckCall::Run(Err(e)))
    &&& forall|d: int| i < d < old.len() ==> #[trigger] new[d] == old[d]
}

proof fn lemma_files_keep(s: Sim, c: Seq<DeckCall>, at: int, imgs: Seq<(u8, Seq<char>)>, keys: Set<u8>, q: nat)
    ensures
        files(s, c, at, imgs, keys, q).0.done == s.done,
        files(s, c, at, imgs, keys, q).0.buttons == s.buttons,
        files(s, c, at, imgs, keys, q).0.pressed == s.pressed,
        files(s, c, at, imgs, keys, q).0.actions == s.actions,
        files(s, c, at, imgs, keys, q).0.effects == s.effects,
        files(s, c, at, imgs, keys, q).1 >= at,
    decreases q,
{
    if q > 0 {
        lemma_files_keep(s, c, at, imgs, keys, (q - 1) as nat);
    }
}

proof fn lemma_rounds_keep(
    s: Sim,
    logs: Seq<Seq<DeckCall>>,
    ats: Seq<int>,
    n: nat,
    entries: Seq<Option<Seq<char>>>,
    active: bool,
    keyss: Seq<Set<u8>>,
)
    ensures
        rounds(s, logs, ats, n, entries, active, keyss).0.done == s.done,
        rounds(s, logs, ats, n, entries, active, keyss).0.effects == s.effects,
    decreases n,
{
    if n > 0 {
        lemma_rounds_keep(s, logs, ats, (n - 1) as nat, entries, active, keyss);
        let p = rounds(s, logs, ats, (n - 1) as nat, entries, active, keyss);
        let d = n - 1;
        let u = after_answer(p.0, p.1[d], update_answer(logs[d][p.1[d]]));
        let imgs = page_images(entries, p.0.buttons);
        lemma_files_keep(u.0, logs[d], u.1, imgs, keyss[d], imgs.len());
    }
}

proof fn lemma_clear_decks_keep(
    s: Sim,
    logs: Seq<Seq<DeckCall>>,
    ats: Seq<int>,
    key: u8,
    r: u8,
    g: u8,
    b: u8,
    keyss: Seq<Set<u8>>,
    n: nat,
)
    ensures
        clear_decks(s, logs, ats, key, r, g, b, keyss, n).0.done == s.done,
        clear_decks(s, logs, ats, key, r, g, b, keyss, n).0.effects == s.effects,
    decreases n,
{
    if n > 0 {
        lemma_clear_decks_keep(s, logs, ats, key, r, g, b, keyss, (n - 1) as nat);
    }
}

proof fn lemma_clear_upto_keep(s: Sim, logs: Seq<Seq<DeckCall>>, ats: Seq<int>, q: nat, r: u8, g: u8, b: u8, keyss: Seq<Set<u8>>)
    ensures
        clear_upto(s, logs, ats, q, r, g, b, keyss).0.done == s.done,
        clear_upto(s, logs, ats, q, r, g, b, keyss).0.effects == s.effects,
    decreases q,
{
    if q > 0 {
        lemma_clear_upto_keep(s, logs, ats, (q - 1) as nat, r, g, b, keyss);
        let p = clear_upto(s, logs, ats, (q - 1) as nat, r, g, b, keyss);
        lemma_clear_decks_keep(p.0, logs, p.1, (q - 1) as u8, r, g, b, keyss, keyss.len());
    }
}

proof fn lemma_acts_keep_done(
    s: Sim,
    logs: Seq<Seq<DeckCall>>,
    ats: Seq<int>,
    actions: Seq<ActionView>,
    j: nat,
    keyss: Seq<Set<u8>>,
)
    requires
        s.done,
    ensures
        acts(s, logs, ats, actions, j, keyss).0.done,
    decreases j,
{
    if j > 0 {
        lemma_acts_keep_done(s, logs, ats, actions, (j - 1) as nat, keyss);
        let p = acts(s, logs, ats, actions, (j - 1) as nat, keyss);
        if let ActionView::Clear(r, g, b) = actions[j - 1] {
            lemma_clear_upto_keep(p.0, logs, p.1, 15, r, g, b, keyss);
        }
    }
}

/// Once the program is done, a frame leaves it done.
pub proof fn lemma_done_stays_done(old: PassView, new: PassView, effects: Seq<EffectView>, result: Result<(), PassError>)
    requires
        frame_outcome(old, new, effects, result),
        old.done,
    ensures
        new.done,
{
    let logs = logs_of(new.decks);
    lemma_rounds_keep(
        frame_start(old),
        logs,
        log_ends(old),
        old.decks.len(),
        active_entries(old),
        0 <= old.active_page < old.pages.len(),
        deck_keys(old),
    );
    let r = frame_rounds(old, logs);
    if !halted(r.0) {
        lemma_acts_keep_done(r.0, logs, r.1, r.0.actions, r.0.actions.len(), deck_keys(old));
    }
}

proof fn lemma_acts_shutdown(
    s: Sim,
    logs: Seq<Seq<DeckCall>>,
    ats: Seq<int>,
    actions: Seq<ActionView>,
    j: nat,
    keyss: Seq<Set<u8>>,
    i: int,
)
    requires
        0 <= i < j,
        actions[i] is Shutdown,
        !halted(acts(s, logs, ats, actions, j, keyss).0),
    ensures
        acts(s, logs, ats, actions, j, keyss).0.done,
    decreases j,
{
    let p = acts(s, logs, ats, actions, (j - 1) as nat, keyss);
    if j - 1 > i {
        lemma_acts_shutdown(s, logs, ats, actions, (j - 1) as nat, keyss, i);
        if let ActionView::Clear(r, g, b) = actions[j - 1] {
            lemma_clear_upto_keep(p.0, logs, p.1, 15, r, g, b, keyss);
        }
    }
}

/// A frame that carries out every action it triggered, a `Shutdown` among them, leaves the
/// program done.
pub proof fn lemma_shutdown_makes_done(old: PassView, new: PassView, effects: Seq<EffectView>, result: Result<(), PassError>)
    requires
        frame_outcome(old, new, effects, result),
        result is Ok,
        exists|i: int|
            0 <= i < frame_rounds(old, logs_of(new.decks)).0.actions.len() && (#[trigger] frame_rounds(
                old,
                logs_of(new.decks),
            ).0.actions[i]) is Shutdown,
    ensures
        new.done,
{
    let logs = logs_of(new.decks);
    let r = frame_rounds(old, logs);
    let i = choose|i: int| 0 <= i < r.0.actions.len() && (#[trigger] frame_rounds(old, logs).0.actions[i]) is Shutdown;
    lemma_acts_shutdown(r.0, logs, r.1, r.0.actions, r.0.actions.len(), deck_keys(old), i);
}

proof fn lemma_round_moves_on(s: Sim, c: Seq<DeckCall>, at: int, entries: Seq<Option<Seq<char>>>, active: bool, keys: Set<u8>)
    ensures
        round(s, c, at, entries, active, keys).1 >= at,
{
    let u = after_answer(s, at, update_answer(c[at]));
    let imgs = page_images(entries, s.buttons);
    lemma_files_keep(u.0, c, u.1, imgs, keys, imgs.len());
}

proof fn lemma_rounds_move_on(
    s: Sim,
    logs: Seq<Seq<DeckCall>>,
    ats: Seq<int>,
    k: nat,
    n: nat,
    entries: Seq<Option<Seq<char>>>,
    active: bool,
    keyss: Seq<Set<u8>>,
)
    requires
        k <= n <= ats.len(),
    ensures
        rounds(s, logs, ats, n, entries, active, keyss).1.len() == ats.len(),
        forall|d: int|
            0 <= d < ats.len() ==> #[trigger] rounds(s, logs, ats, n, entries, active, keyss).1[d] >= rounds(
                s,
                logs,
                ats,
                k,
                entries,
                active,
                keyss,
            ).1[d] && rounds(s, logs, ats, k, entries, active, keyss).1[d] >= ats[d],
    decreases n,
{
    if n > 0 {
        let m = (n - 1) as nat;
        if k <= m {
            lemma_rounds_move_on(s, logs, ats, k, m, entries, active, keyss);
        } else {
            lemma_rounds_move_on(s, logs, ats, m, m, entries, active, keyss);
        }
        let p = rounds(s, logs, ats, m, entries, active, keyss);
        if !halted(p.0) {
            lemma_round_moves_on(p.0, logs[n - 1], p.1[n - 1], entries, active, keyss[n - 1]);
        }
    }
}

proof fn lemma_clear_decks_move_on(
    s: Sim,
    logs: Seq<Seq<DeckCall>>,
    ats: Seq<int>,
    key: u8,
    r: u8,
    g: u8,
    b: u8,
    keyss: Seq<Set<u8>>,
    n: nat,
)
    requires
        n <= ats.len(),
    ensures
        clear_decks(s, logs, ats, key, r, g, b, keyss, n).1.len() == ats.len(),
        forall|d: int| 0 <= d < ats.len() ==> #[trigger] clear_decks(s, logs, ats, key, r, g, b, keyss, n).1[d] >= ats[d],
    decreases n,
{
    if n > 0 {
        lemma_clear_decks_move_on(s, logs, ats, key, r, g, b, keyss, (n - 1) as nat);
    }
}

proof fn lemma_clear_upto_move_on(s: Sim, logs: Seq<Seq<DeckCall>>, ats: Seq<int>, q: nat, r: u8, g: u8, b: u8, keyss: Seq<Set<u8>>)
    requires
        keyss.len() <= ats.len(),
    ensures
        clear_upto(s, logs, ats, q, r, g, b, keyss).1.len() == ats.len(),
        forall|d: int| 0 <= d < ats.len() ==> #[trigger] clear_upto(s, logs, ats, q, r, g, b, keyss).1[d] >= ats[d],
    decreases q,
{
    if q > 0 {
        lemma_clear_upto_move_on(s, logs, ats, (q - 1) as nat, r, g, b, keyss);
        let p = clear_upto(s, logs, ats, (q - 1) as nat, r, g, b, keyss);
        lemma_clear_decks_move_on(p.0, logs, p.1, (q - 1) as u8, r, g, b, keyss, keyss.len());
    }
}

proof fn lemma_acts_move_on(
    s: Sim,
    logs: Seq<Seq<DeckCall>>,
    ats: Seq<int>,
    actions: Seq<ActionView>,
    j: nat,
    keyss: Seq<Set<u8>>,
)
    requires
        keyss.len() <= ats.len(),
    ensures
        acts(s, logs, ats, actions, j, keyss).1.len() == ats.len(),
        forall|d: int| 0 <= d < ats.len() ==> #[trigger] acts(s, logs, ats, actions, j, keyss).1[d] >= ats[d],
    decreases j,
{
    if j > 0 {
        lemma_acts_move_on(s, logs, ats, actions, (j - 1) as nat, keyss);
        let p = acts(s, logs, ats, actions, (j - 1) as nat, keyss);
        if let ActionView::Clear(r, g, b) = actions[j - 1] {
            lemma_clear_upto_move_on(p.0, logs, p.1, 15, r, g, b, keyss);
        }
    }
}

/// Whether a report of the keys finds each key as `pressed` has it: no more keys than that,
/// a key held down still held, a key up still up.
pub open spec fn steady_report(pressed: Seq<bool>, b: Seq<u8>) -> bool {
    b.len() <= pressed.len() && forall|i: int| 0 <= i < b.len() ==> (#[trigger] b[i] > 0) == pressed[i]
}

/// Whether every read of the keys that the decks answered in a frame from `old`, their logs
/// now being `logs`, reports the keys as `old` has them.
pub open spec fn reports_as_before(old: PassView, logs: Seq<Seq<DeckCall>>) -> bool {
    forall|d: int, j: int|
        0 <= d < old.decks.len() && old.decks[d].calls.len() <= j < logs[d].len() ==> (#[trigger] logs[d][j] matches DeckCall::Read(
            _,
            Ok(b),
        ) ==> steady_report(old.pressed, b))
}

proof fn lemma_steady_rounds(old: PassView, logs: Seq<Seq<DeckCall>>, k: nat)
    requires
        logs.len() == old.decks.len(),
        reports_as_before(old, logs),
        k <= old.decks.len(),
        forall|d: int| 0 <= d < old.decks.len() ==> #[trigger] frame_rounds(old, logs).1[d] <= logs[d].len(),
    ensures
        ({
            let p = rounds(
                frame_start(old),
                logs,
                log_ends(old),
                k,
                active_entries(old),
                0 <= old.active_page < old.pages.len(),
                deck_keys(old),
            );
            &&& p.0.buttons == old.buttons
            &&& p.0.pressed == old.pressed
            &&& p.0.actions == Seq::<ActionView>::empty()
            &&& p.0.done == old.done
            &&& p.0.effects == Seq::<EffectView>::empty()
        }),
    decreases k,
{
    let entries = active_entries(old);
    let active = 0 <= old.active_page < old.pages.len();
    let keyss = deck_keys(old);
    let s0 = frame_start(old);
    let ats = log_ends(old);
    if k > 0 {
        let m = (k - 1) as nat;
        lemma_steady_rounds(old, logs, m);
        let p = rounds(s0, logs, ats, m, entries, active, keyss);
        if !halted(p.0) {
            let d = k - 1;
            let c = logs[d];
            let u = after_answer(p.0, p.1[d], update_answer(c[p.1[d]]));
            if !halted(u.0) && active {
                let imgs = page_images(entries, p.0.buttons);
                lemma_files_keep(u.0, c, u.1, imgs, keyss[d], imgs.len());
                let f = files(u.0, c, u.1, imgs, keyss[d], imgs.len());
                if !halted(f.0) {
                    if let Some(Ok(b)) = read_answer(c[f.1]) {
                        lemma_rounds_move_on(s0, logs, ats, m, m, entries, active, keyss);
                        lemma_rounds_move_on(s0, logs, ats, k, old.decks.len(), entries, active, keyss);
                        assert(ats[d] == old.decks[d].calls.len());
                        assert(p.1[d] >= ats[d]);
                        assert(f.1 >= old.decks[d].calls.len());
                        assert(rounds(s0, logs, ats, k, entries, active, keyss).1[d] == f.1 + 1);
                        assert(rounds(s0, logs, ats, old.decks.len(), entries, active, keyss).1[d] >= f.1 + 1);
                        assert(frame_rounds(old, logs).1[d] <= logs[d].len());
                        assert(f.1 < logs[d].len());
                        assert(logs[d][f.1] matches DeckCall::Read(_, Ok(bb)) && bb == b);
                        assert(steady_report(old.pressed, b));
                        lemma_steady_keys_trigger_nothing(old.buttons, entries, old.pressed, b);
                        assert(keys_after(old.pressed, b) =~= old.pressed);
                        assert(Seq::<ActionView>::empty() + Seq::<ActionView>::empty() =~= Seq::<ActionView>::empty());
                    }
                }
            }
        }
    }
}

/// A frame in which every read of the keys finds each key as it was (a key held down still held
/// down, a key up still up) changes no button and no key's state, triggers nothing, leaves the
/// program as done as it was and hands nothing to the outside world. After a frame that took in
/// a report, a next frame whose reads repeat the state it left is such a frame.
pub proof fn lemma_steady_frame_is_quiet(old: PassView, new: PassView, effects: Seq<EffectView>, result: Result<(), PassError>)
    requires
        frame_outcome(old, new, effects, result),
        reports_as_before(old, logs_of(new.decks)),
    ensures
        new.buttons == old.buttons,
        new.pressed == old.pressed,
        new.done == old.done,
        effects == Seq::<EffectView>::empty(),
{
    let logs = logs_of(new.decks);
    let n = old.decks.len();
    let r = frame_rounds(old, logs);
    assert(log_ends(old).len() == n);
    lemma_rounds_move_on(
        frame_start(old),
        logs,
        log_ends(old),
        n,
        n,
        active_entries(old),
        0 <= old.active_page < old.pages.len(),
        deck_keys(old),
    );
    if !halted(r.0) {
        lemma_acts_move_on(r.0, logs, r.1, r.0.actions, r.0.actions.len(), deck_keys(old));
    }
    assert forall|d: int| 0 <= d < n implies #[trigger] frame_rounds(old, logs).1[d] <= logs[d].len() by {
        assert(frame_sim(old, logs).1[d] == new.decks[d].calls.len());
    }
    lemma_steady_rounds(old, logs, n);
}

/// What a list of actions asks of the outside world, in order: for each request, OBS scene and
/// OSC message, its effect.
pub open spec fn requested_effects(actions: Seq<ActionView>) -> Seq<EffectView>
    decreases actions.len(),
{
    if actions.len() == 0 {
        Seq::empty()
    } else {
        let a = actions.last();
        let before = requested_effects(actions.drop_last());
        if a is HttpGet || a is ObsScene || a is OscSend {
            before.push(effect_of(a))
        } else {
            before
        }
    }
}

proof fn lemma_acts_effects(
    s: Sim,
    logs: Seq<Seq<DeckCall>>,
    ats: Seq<int>,
    actions: Seq<ActionView>,
    j: nat,
    keyss: Seq<Set<u8>>,
)
    requires
        j <= actions.len(),
        !halted(acts(s, logs, ats, actions, j, keyss).0),
    ensures
        acts(s, logs, ats, actions, j, keyss).0.effects == s.effects + requested_effects(actions.take(j as int)),
    decreases j,
{
    if j == 0 {
        assert(actions.take(0) =~= Seq::<ActionView>::empty());
        assert(s.effects + Seq::<EffectView>::empty() =~= s.effects);
    } else {
        let m = (j - 1) as nat;
        let p = acts(s, logs, ats, actions, m, keyss);
        lemma_acts_effects(s, logs, ats, actions, m, keyss);
        let a = actions[m as int];
        assert(actions.take(j as int).drop_last() =~= actions.take(m as int));
        assert(actions.take(j as int).last() == a);
        if let ActionView::Clear(r, g, b) = a {
            lemma_clear_upto_keep(p.0, logs, p.1, 15, r, g, b, keyss);
        }
        if a is HttpGet || a is ObsScene || a is OscSend {
            assert(s.effects + requested_effects(actions.take(m as int)).push(effect_of(a)) =~= (s.effects
                + requested_effects(actions.take(m as int))).push(effect_of(a)));
        }
    }
}

/// A frame that succeeds hands the outside world exactly, in order, what each request, OBS scene
/// and OSC message among the actions it triggered asks for.
pub proof fn lemma_frame_effects(old: PassView, new: PassView, effects: Seq<EffectView>, result: Result<(), PassError>)
    requires
        frame_outcome(old, new, effects, result),
        result is Ok,
    ensures
        effects == requested_effects(frame_rounds(old, logs_of(new.decks)).0.actions),
{
    let logs = logs_of(new.decks);
    let r = frame_rounds(old, logs);
    lemma_rounds_keep(
        frame_start(old),
        logs,
        log_ends(old),
        old.decks.len(),
        active_entries(old),
        0 <= old.active_page < old.pages.len(),
        deck_keys(old),
    );
    lemma_acts_effects(r.0, logs, r.1, r.0.actions, r.0.actions.len(), deck_keys(old));
    assert(r.0.actions.take(r.0.actions.len() as int) =~= r.0.actions);
    assert(Seq::<EffectView>::empty() + requested_effects(r.0.actions) =~= requested_effects(r.0.actions));
}

/// A frame without decks succeeds, changes no button and no key's state, leaves the program as
/// done as it was, and hands nothing to the outside world.
pub proof fn lemma_frame_without_decks(old: PassView, new: PassView, effects: Seq<EffectView>, result: Result<(), PassError>)
    requires
        frame_outcome(old, new, effects, result),
        old.decks.len() == 0,
    ensures
        result is Ok,
        new.buttons == old.buttons,
        new.pressed == old.pressed,
        new.done == old.done,
        effects == Seq::<EffectView>::empty(),
{
}

/// A key that was held down and still is triggers nothing and changes no button.
pub proof fn lemma_held_key_is_quiet(
    m: Map<Seq<char>, ButtonView>,
    actions: Seq<ActionView>,
    entries: Seq<Option<Seq<char>>>,
    i: int,
)
    ensures
        key_transition(m, actions, entries, i, true, true) == (m, actions),
{
}

/// After one report is taken in, a next report that finds every key it covers as the first
/// left it (a key held down still held down, a key up still up) triggers nothing and leaves the
/// buttons as the first left them.
pub proof fn lemma_next_report_with_same_keys_is_quiet(
    m: Map<Seq<char>, ButtonView>,
    entries: Seq<Option<Seq<char>>>,
    last: Seq<bool>,
    first: Seq<u8>,
    next: Seq<u8>,
)
    requires
        first.len() <= last.len(),
        next.len() <= last.len(),
        forall|i: int| 0 <= i < next.len() ==> (#[trigger] next[i] > 0) == keys_after(last, first)[i],
    ensures
        ({
            let t = take_in_keys(m, entries, last, first);
            take_in_keys(t.0, entries, keys_after(last, first), next) == (t.0, Seq::<ActionView>::empty())
        }),
{
    let t = take_in_keys(m, entries, last, first);
    lemma_steady_keys_trigger_nothing(t.0, entries, keys_after(last, first), next);
}

/// The logs of a list of decks.
pub open spec fn calls_of(v: Seq<AnyDeck>) -> Seq<Seq<DeckCall>> {
    v.map_values(|d: AnyDeck| d.calls())
}

/// Where the log of each of a list of decks stands.
pub open spec fn lens_of(v: Seq<AnyDeck>) -> Seq<int> {
    v.map_values(|d: AnyDeck| d.calls().len() as int)
}

/// Whether each of the logs `g` starts with the corresponding log of `cur`.
pub open spec fn extends(g: Seq<Seq<DeckCall>>, cur: Seq<Seq<DeckCall>>) -> bool {
    g.len() == cur.len() && forall|d: int| 0 <= d < cur.len() ==> is_prefix(#[trigger] cur[d], g[d])
}

/// A deck's part of a frame as it ends, from `s`: the program's buttons and keys' state as in
/// `v`, the actions it triggered (where it did not fail), and where it stopped.
pub open spec fn round_end(s: Sim, v: PassView, r: Result<Vec<Action>, PassError>) -> Sim {
    Sim {
        buttons: v.buttons,
        pressed: v.pressed,
        actions: match r {
            Ok(a) => s.actions + actions_view(a@),
            Err(_) => s.actions,
        },
        stop: match r {
            Ok(_) => None,
            Err(e) => stop_of(e),
        },
        ..s
    }
}

/// An action's part of a frame as it ends, from `s`: whether the program is done as in `v`, the
/// effect it hands on, and where it stopped.
pub open spec fn act_end(s: Sim, v: PassView, r: Result<Option<Effect>, PassError>) -> Sim {
    Sim {
        done: v.done,
        effects: match r {
            Ok(Some(e)) => s.effects.push(e@),
            _ => s.effects,
        },
        stop: match r {
            Ok(_) => None,
            Err(e) => stop_of(e),
        },
        ..s
    }
}

proof fn lemma_prefix_push(a: Seq<DeckCall>, x: DeckCall, c: Seq<DeckCall>)
    requires
        is_prefix(a.push(x), c),
    ensures
        is_prefix(a, c),
        c[a.len() as int] == x,
{
    let n = a.len() as int;
    assert(c.subrange(0, n + 1)[n] == x);
    assert(c.subrange(0, n) =~= a) by {
        assert forall|i: int| 0 <= i < n implies c.subrange(0, n)[i] == a[i] by {
            assert(c.subrange(0, n + 1)[i] == a.push(x)[i]);
        }
    }
}

proof fn lemma_prefix_trans(a: Seq<DeckCall>, b: Seq<DeckCall>, c: Seq<DeckCall>)
    requires
        is_prefix(a, b),
        is_prefix(b, c),
    ensures
        is_prefix(a, c),
{
    let n = a.len() as int;
    assert(c.subrange(0, n) =~= a) by {
        assert forall|i: int| 0 <= i < n implies c.subrange(0, n)[i] == a[i] by {
            assert(c.subrange(0, b.len() as int)[i] == b[i]);
            assert(b.subrange(0, n)[i] == a[i]);
        }
    }
}

proof fn lemma_prefix_refl(a: Seq<DeckCall>)
    ensures
        is_prefix(a, a),
{
    assert(a.subrange(0, a.len() as int) =~= a);
}

/// Logs that extend those of `v` after one more request to deck `k` extend those before it, and
/// hold that request where deck `k`'s log ended.
proof fn lemma_extends_push(v: Seq<AnyDeck>, w: Seq<AnyDeck>, k: int, x: DeckCall, g: Seq<Seq<DeckCall>>)
    requires
        0 <= k < v.len(),
        w.len() == v.len(),
        forall|d: int| 0 <= d < v.len() && d != k ==> (#[trigger] w[d]).calls() == v[d].calls(),
        w[k].calls() == v[k].calls().push(x),
        extends(g, calls_of(w)),
    ensures
        extends(g, calls_of(v)),
        g[k][v[k].calls().len() as int] == x,
        lens_of(w) == lens_of(v).update(k, (v[k].calls().len() + 1) as int),
{
    assert(is_prefix(calls_of(w)[k], g[k]));
    lemma_prefix_push(v[k].calls(), x, g[k]);
    assert forall|d: int| 0 <= d < v.len() implies is_prefix(#[trigger] calls_of(v)[d], g[d]) by {
        assert(is_prefix(calls_of(w)[d], g[d]));
    }
    assert(lens_of(w) =~= lens_of(v).update(k, (v[k].calls().len() + 1) as int));
}

proof fn lemma_files_halted(s: Sim, c: Seq<DeckCall>, at: int, imgs: Seq<(u8, Seq<char>)>, keys: Set<u8>, q: nat, m: nat)
    requires
        q <= m,
        halted(files(s, c, at, imgs, keys, q).0),
    ensures
        files(s, c, at, imgs, keys, m) == files(s, c, at, imgs, keys, q),
    decreases m,
{
    if m > q {
        lemma_files_halted(s, c, at, imgs, keys, q, (m - 1) as nat);
    }
}

proof fn lemma_rounds_halted(
    s: Sim,
    logs: Seq<Seq<DeckCall>>,
    ats: Seq<int>,
    q: nat,
    m: nat,
    entries: Seq<Option<Seq<char>>>,
    active: bool,
    keyss: Seq<Set<u8>>,
)
    requires
        q <= m,
        halted(rounds(s, logs, ats, q, entries, active, keyss).0),
    ensures
        rounds(s, logs, ats, m, entries, active, keyss) == rounds(s, logs, ats, q, entries, active, keyss),
    decreases m,
{
    if m > q {
        lemma_rounds_halted(s, logs, ats, q, (m - 1) as nat, entries, active, keyss);
    }
}

proof fn lemma_clear_decks_halted(
    s: Sim,
    logs: Seq<Seq<DeckCall>>,
    ats: Seq<int>,
    key: u8,
    r: u8,
    g: u8,
    b: u8,
    keyss: Seq<Set<u8>>,
    q: nat,
    m: nat,
)
    requires
        q <= m,
        halted(clear_decks(s, logs, ats, key, r, g, b, keyss, q).0),
    ensures
        clear_decks(s, logs, ats, key, r, g, b, keyss, m) == clear_decks(s, logs, ats, key, r, g, b, keyss, q),
    decreases m,
{
    if m > q {
        lemma_clear_decks_halted(s, logs, ats, key, r, g, b, keyss, q, (m - 1) as nat);
    }
}

proof fn lemma_clear_upto_halted(
    s: Sim,
    logs: Seq<Seq<DeckCall>>,
    ats: Seq<int>,
    q: nat,
    m: nat,
    r: u8,
    g: u8,
    b: u8,
    keyss: Seq<Set<u8>>,
)
    requires
        q <= m,
        halted(clear_upto(s, logs, ats, q, r, g, b, keyss).0),
    ensures
        clear_upto(s, logs, ats, m, r, g, b, keyss) == clear_upto(s, logs, ats, q, r, g, b, keyss),
    decreases m,
{
    if m > q {
        lemma_clear_upto_halted(s, logs, ats, q, (m - 1) as nat, r, g, b, keyss);
    }
}

proof fn lemma_acts_halted(
    s: Sim,
    logs: Seq<Seq<DeckCall>>,
    ats: Seq<int>,
    actions: Seq<ActionView>,
    q: nat,
    m: nat,
    keyss: Seq<Set<u8>>,
)
    requires
        q <= m,
        halted(acts(s, logs, ats, actions, q, keyss).0),
    ensures
        acts(s, logs, ats, actions, m, keyss) == acts(s, logs, ats, actions, q, keyss),
    decreases m,
{
    if m > q {
        lemma_acts_halted(s, logs, ats, actions, q, (m - 1) as nat, keyss);
    }
}

/// What the view of a list of decks says of each of them.
proof fn lemma_deck_views(v: PassView, dv: Seq<AnyDeck>)
    requires
        v.decks == states_of(dv),
    ensures
        v.decks.len() == dv.len(),
        log_ends(v) == lens_of(dv),
        deck_keys(v).len() == dv.len(),
        forall|i: int| 0 <= i < dv.len() ==> #[trigger] deck_keys(v)[i] == keys_at(dv, i),
        logs_of(v.decks) == calls_of(dv),
        forall|i: int| 0 <= i < dv.len() ==> (#[trigger] v.decks[i]).keys == keys_at(dv, i) && v.decks[i].calls == dv[i].calls(),
{
    assert forall|i: int| 0 <= i < dv.len() implies (#[trigger] v.decks[i]).keys == keys_at(dv, i) && v.decks[i].calls
        == dv[i].calls() by {
    }
    assert forall|i: int| 0 <= i < dv.len() implies #[trigger] log_ends(v)[i] == lens_of(dv)[i] by {
        assert(v.decks[i].calls == dv[i].calls());
    }
    assert(log_ends(v) =~= lens_of(dv));
    assert forall|i: int| 0 <= i < dv.len() implies #[trigger] deck_keys(v)[i] == keys_at(dv, i) by {
        assert(v.decks[i].keys == keys_at(dv, i));
    }
    assert forall|i: int| 0 <= i < dv.len() implies #[trigger] logs_of(v.decks)[i]
        == calls_of(dv)[i] by {
        assert(v.decks[i].calls == dv[i].calls());
    }
    assert(logs_of(v.decks) =~= calls_of(dv));
}

/// Where every extension of the decks' final logs `dn` runs the frame from `v0` to `fin`, the
/// frame's outcome is that of `fin`.
proof fn lemma_outcome(
    v0: PassView,
    d0: Seq<AnyDeck>,
    dn: Seq<AnyDeck>,
    now: PassView,
    fin: Sim,
    effs: Seq<Effect>,
    r: Result<(), PassError>,
)
    requires
        v0.decks == states_of(d0),
        dn.len() == d0.len(),
        forall|d: int|
            0 <= d < d0.len() ==> #[trigger] keys_at(dn, d) == keys_at(d0, d) && is_prefix(d0[d].calls(), dn[d].calls()),
        forall|gg: Seq<Seq<DeckCall>>| #[trigger] extends(gg, calls_of(dn)) ==> frame_sim(v0, gg) == (fin, lens_of(dn)),
        fin.fits,
        now.config == v0.config,
        now.pages == v0.pages,
        now.active_page == v0.active_page,
        now.buttons == fin.buttons,
        now.pressed == fin.pressed,
        now.done == fin.done,
        effects_view(effs) == fin.effects,
        match r {
            Ok(()) => fin.stop is None,
            Err(e) => fin.stop is Some && stop_of(e) == fin.stop,
        },
    ensures
        frame_outcome(v0, PassView { decks: states_of(dn), ..now }, effects_view(effs), r),
{
    let new = PassView { decks: states_of(dn), ..now };
    let logs = logs_of(new.decks);
    lemma_deck_views(new, dn);
    lemma_deck_views(v0, d0);
    assert forall|d: int| 0 <= d < dn.len() implies is_prefix(#[trigger] calls_of(dn)[d], logs[d]) by {
        lemma_prefix_refl(dn[d].calls());
    }
    assert(extends(logs, calls_of(dn)));
    assert(frame_sim(v0, logs) == (fin, lens_of(dn)));
    assert forall|d: int| 0 <= d < v0.decks.len() implies {
        &&& (#[trigger] new.decks[d]).keys == v0.decks[d].keys
        &&& is_prefix(v0.decks[d].calls, new.decks[d].calls)
        &&& lens_of(dn)[d] == new.decks[d].calls.len()
    } by {
        assert(keys_at(dn, d) == keys_at(d0, d));
        assert(lens_of(dn)[d] == dn[d].calls().len());
        assert(is_prefix(d0[d].calls(), dn[d].calls()));
    }
}

proof fn lemma_update_entry(v: Seq<(String, Button)>, i: int, e: (String, Button))
    requires
        names_unique(v),
        0 <= i < v.len(),
        e.0@ == v[i].0@,
    ensures
        names_unique(v.update(i, e)),
        entries_map(v.update(i, e)) == entries_map(v).insert(e.0@, e.1@),
{
    let w = v.update(i, e);
    assert forall|a: int, b: int| 0 <= a < w.len() && 0 <= b < w.len() && a != b implies (#[trigger] w[a]).0@
        != (#[trigger] w[b]).0@ by {
        assert(v[a].0@ != v[b].0@);
    }
    assert forall|k: Seq<char>| #[trigger] entries_map(w).contains_key(k) == entries_map(v).insert(
        e.0@,
        e.1@,
    ).contains_key(k) by {
        if exists|j: int| 0 <= j < v.len() && (#[trigger] v[j]).0@ == k {
            let j = choose|j: int| 0 <= j < v.len() && (#[trigger] v[j]).0@ == k;
            assert(w[j].0@ == k);
        }
        if exists|j: int| 0 <= j < w.len() && (#[trigger] w[j]).0@ == k {
            let j = choose|j: int| 0 <= j < w.len() && (#[trigger] w[j]).0@ == k;
            assert(v[j].0@ == k);
        }
        if k == e.0@ {
            assert(w[i].0@ == k);
        }
    }
    assert forall|k: Seq<char>| #[trigger] entries_map(w).contains_key(k) implies entries_map(w)[k]
        == entries_map(v).insert(e.0@, e.1@)[k] by {
        let j = choose|j: int| 0 <= j < w.len() && (#[trigger] w[j]).0@ == k;
        if k == e.0@ {
            assert(w[i].0@ == k);
        } else {
            assert(v[j].0@ == k);
            let jv = choose|j: int| 0 <= j < v.len() && (#[trigger] v[j]).0@ == k;
            assert(jv == j);
        }
    }
    assert(entries_map(w) =~= entries_map(v).insert(e.0@, e.1@));
}

proof fn lemma_push_entry(v: Seq<(String, Button)>, e: (String, Button))
    requires
        names_unique(v),
        !entries_map(v).contains_key(e.0@),
    ensures
        names_unique(v.push(e)),
        entries_map(v.push(e)) == entries_map(v).insert(e.0@, e.1@),
{
    let w = v.push(e);
    assert forall|i: int| 0 <= i < v.len() implies (#[trigger] v[i]).0@ != e.0@ by {
        if v[i].0@ == e.0@ {
            assert(entries_map(v).contains_key(e.0@));
        }
    }
    assert forall|a: int, b: int| 0 <= a < w.len() && 0 <= b < w.len() && a != b implies (#[trigger] w[a]).0@
        != (#[trigger] w[b]).0@ by {
        if a < v.len() && b < v.len() {
            assert(v[a].0@ != v[b].0@);
        } else if a < v.len() {
            assert(v[a].0@ != e.0@);
        } else {
            assert(v[b].0@ != e.0@);
        }
    }
    assert forall|k: Seq<char>| #[trigger] entries_map(w).contains_key(k) == entries_map(v).insert(
        e.0@,
        e.1@,
    ).contains_key(k) by {
        if exists|j: int| 0 <= j < v.len() && (#[trigger] v[j]).0@ == k {
            let j = choose|j: int| 0 <= j < v.len() && (#[trigger] v[j]).0@ == k;
            assert(w[j].0@ == k);
        }
        if exists|j: int| 0 <= j < w.len() && (#[trigger] w[j]).0@ == k {
            let j = choose|j: int| 0 <= j < w.len() && (#[trigger] w[j]).0@ == k;
            if j < v.len() {
                assert(v[j].0@ == k);
            }
        }
        if k == e.0@ {
            assert(w[v.len() as int].0@ == k);
        }
    }
    assert forall|k: Seq<char>| #[trigger] entries_map(w).contains_key(k) implies entries_map(w)[k]
        == entries_map(v).insert(e.0@, e.1@)[k] by {
        let j = choose|j: int| 0 <= j < w.len() && (#[trigger] w[j]).0@ == k;
        if k == e.0@ {
            assert(w[v.len() as int].0@ == k);
        } else {
            assert(v[j].0@ == k);
            let jv = choose|j: int| 0 <= j < v.len() && (#[trigger] v[j]).0@ == k;
            assert(jv == j);
        }
    }
    assert(entries_map(w) =~= entries_map(v).insert(e.0@, e.1@));
}

proof fn lemma_first_unsupported(bcs: Seq<ButtonConfig>, k: int)
    requires
        0 <= k <= bcs.len(),
        forall|j: int| 0 <= j < k ==> button_of(#[trigger] bcs[j]) is Some,
    ensures
        first_unsupported(bcs.take(k)) == k,
        k < bcs.len() && button_of(bcs[k]) is None ==> first_unsupported(bcs.take(k + 1)) == k,
    decreases k,
{
    if k > 0 {
        assert(bcs.take(k).drop_last() == bcs.take(k - 1));
        lemma_first_unsupported(bcs, k - 1);
    }
    if k < bcs.len() {
        assert(bcs.take(k + 1).drop_last() == bcs.take(k));
        assert(bcs.take(k + 1).last() == bcs[k]);
        assert(bcs.take(k + 1).len() == k + 1);
    }
}

proof fn lemma_first_unsupported_prefix(bcs: Seq<ButtonConfig>, k: int)
    requires
        0 <= k <= bcs.len(),
        first_unsupported(bcs.take(k)) < k,
    ensures
        first_unsupported(bcs) == first_unsupported(bcs.take(k)),
    decreases bcs.len() - k,
{
    if k < bcs.len() {
        assert(bcs.take(k + 1).drop_last() == bcs.take(k));
        lemma_first_unsupported_prefix(bcs, k + 1);
    } else {
        assert(bcs.take(k) == bcs);
    }
}

impl ManyCordPass {
    /// Whether the state holds together: no two buttons of the same name.
    pub closed spec fn wf(&self) -> bool {
        names_unique(self.buttons@)
    }

    /// Whether one of the decks has nothing more to do.
    pub closed spec fn any_deck_done(&self) -> bool {
        exists|i: int| 0 <= i < self.deck@.len() && (#[trigger] self.deck@[i]).is_done()
    }

    /// Whether every deck is shut down.
    pub closed spec fn decks_shut_down(&self) -> bool {
        forall|i: int| 0 <= i < self.deck@.len() ==> (#[trigger] self.deck@[i]).is_shut_down()
    }

    /// The decks the program holds, in order.
    pub closed spec fn held(&self) -> Seq<AnyDeck> {
        self.deck@
    }

    pub closed spec fn view_of(&self) -> PassView {
        PassView {
            config: self.config,
            buttons: entries_map(self.buttons@),
            pages: self.pages@.map_values(|p: Page| p@),
            active_page: self.active_page as int,
            decks: states_of(self.deck@),
            pressed: self.pressed_buttons@,
            done: self.done,
        }
    }
}

impl View for ManyCordPass {
    type V = PassView;

    open spec fn view(&self) -> PassView {
        self.view_of()
    }
}

impl Default for ManyCordPass {
    fn default() -> (m: ManyCordPass)
        ensures
            m.wf(),
            m@.config is None,
            m@.buttons == Map::<Seq<char>, ButtonView>::empty(),
            m@.pages == Seq::<PageView>::empty(),
            m@.active_page == 0,
            m@.decks == Seq::<DeckState>::empty(),
            m@.pressed == Seq::<bool>::empty(),
            !m@.done,
            !m.any_deck_done(),
    {
        let m = ManyCordPass {
            config: None,
            buttons: Vec::new(),
            pages: Vec::new(),
            active_page: 0,
            deck: Vec::new(),
            pressed_buttons: Vec::new(),
            done: false,
        };
        assert(m@.buttons =~= Map::<Seq<char>, ButtonView>::empty());
        assert(m@.pages =~= Seq::<PageView>::empty());
        assert(m@.decks =~= Seq::<DeckState>::empty());
        m
    }
}

/// The index of the entry of the button named `name`.
fn find_entry(v: &Vec<(String, Button)>, name: &String) -> (r: Option<usize>)
    requires
        names_unique(v@),
    ensures
        match r {
            Some(i) => i < v@.len() && v@[i as int].0@ == name@ && entries_map(v@).contains_key(name@)
                && entries_map(v@)[name@] == v@[i as int].1@,
            None => !entries_map(v@).contains_key(name@),
        },
{
    let mut i: usize = 0;
    while i < v.len()
        invariant
            names_unique(v@),
            i <= v@.len(),
            forall|j: int| 0 <= j < i ==> (#[trigger] v@[j]).0@ != name@,
        decreases v.len() - i,
    {
        if v[i].0 == *name {
            proof {
                assert(entries_map(v@).contains_key(name@));
                let j = choose|j: int| 0 <= j < v@.len() && (#[trigger] v@[j]).0@ == name@;
                if j != i {
                    assert(v@[j].0@ != v@[i as int].0@);
                }
            }
            return Some(i);
        }
        i = i + 1;
    }
    None
}

/// Puts `button` under `name`, in place of any button of that name.
fn insert_entry(v: &mut Vec<(String, Button)>, name: String, button: Button)
    requires
        names_unique(old(v)@),
    ensures
        names_unique(final(v)@),
        entries_map(final(v)@) == entries_map(old(v)@).insert(name@, button@),
{
    let ghost w = v@;
    let ghost e = (name, button);
    match find_entry(v, &name) {
        Some(i) => {
            proof {
                lemma_update_entry(w, i as int, e);
            }
            v.set(i, (name, button));
        },
        None => {
            proof {
                lemma_push_entry(w, e);
            }
            v.push((name, button));
        },
    }
}

impl ManyCordPass {
    /// Takes in a configuration (read and expanded by the caller).
    pub fn load_config(&mut self, config: Config) -> (r: Result<(), ConfigError>)
        ensures
            r is Ok,
            final(self).wf() == old(self).wf(),
            final(self)@ == (PassView { config: Some(config), ..old(self)@ }),
    {
        self.config = Some(config);
        Ok(())
    }

    /// Makes the buttons and pages that the configuration describes: each button under its
    /// name (a later one of a name in place of an earlier one), the pages after those already
    /// there; then room for the state of 32 keys. A button of an unsupported type stops it
    /// there, with the buttons before it made, and comes back as the error.
    pub fn apply_config(&mut self) -> (r: Result<(), ConfigError>)
        requires
            old(self).wf(),
        ensures
            final(self).wf(),
            final(self).held() == old(self).held(),
            config_applied(old(self)@, final(self)@, r),
    {
        let config = self.config.take();
        let r = match &config {
            Some(c) => self.add_from_config(c),
            None => Ok(()),
        };
        self.config = config;
        if r.is_err() {
            return r;
        }
        self.ready_keys();
        Ok(())
    }

    /// Makes the buttons and then the pages of `c`; the first button of an unsupported type
    /// stops it.
    fn add_from_config(&mut self, c: &Config) -> (r: Result<(), ConfigError>)
        requires
            old(self).wf(),
        ensures
            final(self).wf(),
            final(self).held() == old(self).held(),
            ({
                let bcs = c.button_configs();
                let k = first_unsupported(bcs);
                &&& final(self)@.buttons == with_buttons(old(self)@.buttons, bcs.take(k))
                &&& final(self)@.config == old(self)@.config
                &&& final(self)@.active_page == old(self)@.active_page
                &&& final(self)@.decks == old(self)@.decks
                &&& final(self)@.done == old(self)@.done
                &&& final(self)@.pressed == old(self)@.pressed
                &&& if k < bcs.len() {
                    &&& r matches Err(ConfigError::UnsupportedButtonType(t)) && t@ == bcs[k].ttype@
                    &&& final(self)@.pages == old(self)@.pages
                } else {
                    &&& r is Ok
                    &&& final(self)@.pages == old(self)@.pages + pages_of(c.page_configs())
                }
            }),
    {
        let ghost old_view = self@;
        let bcs = c.buttons();
        let mut i: usize = 0;
        assert(bcs@.take(0) =~= Seq::<ButtonConfig>::empty());
        while i < bcs.len()
            invariant
                self.wf(),
                self.held() == old(self).held(),
                old_view == old(self)@,
                bcs@ == c.button_configs(),
                i <= bcs@.len(),
                forall|j: int| 0 <= j < i ==> button_of(#[trigger] bcs@[j]) is Some,
                self@ == (PassView { buttons: with_buttons(old_view.buttons, bcs@.take(i as int)), ..old_view }),
            decreases bcs.len() - i,
        {
            let bc = &bcs[i];
            let button = match Button::from_config(bc) {
                Ok(b) => b,
                Err(e) => {
                    proof {
                        lemma_first_unsupported(bcs@, i as int);
                        lemma_first_unsupported_prefix(bcs@, i + 1);
                    }
                    return Err(e);
                },
            };
            assert(bcs@.take(i + 1).drop_last() == bcs@.take(i as int));
            insert_entry(&mut self.buttons, bc.name.clone(), button);
            i = i + 1;
        }
        proof {
            lemma_first_unsupported(bcs@, bcs@.len() as int);
            assert(bcs@.take(bcs@.len() as int) == bcs@);
        }
        let pcs = c.pages();
        let mut j: usize = 0;
        assert(pages_of(pcs@.take(0)) =~= Seq::<PageView>::empty());
        assert(old_view.pages + pages_of(pcs@.take(0)) =~= old_view.pages);
        while j < pcs.len()
            invariant
                self.wf(),
                self.held() == old(self).held(),
                pcs@ == c.page_configs(),
                j <= pcs@.len(),
                self@ == (PassView {
                    pages: old_view.pages + pages_of(pcs@.take(j as int)),
                    buttons: with_buttons(old_view.buttons, c.button_configs()),
                    ..old_view
                }),
            decreases pcs.len() - j,
        {
            let page = match Page::from_config(&pcs[j]) {
                Ok(p) => p,
                Err(e) => return Err(e),
            };
            let ghost before = self.pages@;
            self.pages.push(page);
            assert(self.pages@.map_values(|p: Page| p@) == before.map_values(|p: Page| p@).push(page@));
            assert(pages_of(pcs@.take(j + 1)) == pages_of(pcs@.take(j as int)).push(page_of(pcs@[j as int])));
            j = j + 1;
        }
        assert(pcs@.take(pcs@.len() as int) == pcs@);
        Ok(())
    }

    /// Makes room for the state of 32 keys.
    fn ready_keys(&mut self)
        requires
            old(self).wf(),
        ensures
            final(self).wf(),
            final(self).held() == old(self).held(),
            final(self)@ == (PassView { pressed: key_states(old(self)@.pressed, 32), ..old(self)@ }),
    {
        let ghost before_keys = self.pressed_buttons@;
        let ghost s0 = self@;
        if self.pressed_buttons.len() >= 32 {
            self.pressed_buttons.truncate(32);
        } else {
            while self.pressed_buttons.len() < 32
                invariant
                    self.wf(),
                    self.held() == old(self).held(),
                    self@ == (PassView { pressed: self.pressed_buttons@, ..s0 }),
                    before_keys.len() <= self.pressed_buttons@.len() <= 32,
                    self.pressed_buttons@.subrange(0, before_keys.len() as int) == before_keys,
                    forall|i: int|
                        before_keys.len() <= i < self.pressed_buttons@.len() ==> !#[trigger] self.pressed_buttons@[i],
                decreases 32 - self.pressed_buttons.len(),
            {
                self.pressed_buttons.push(false);
            }
        }
        assert(self.pressed_buttons@ == key_states(before_keys, 32));
    }

    /// The pages, in order.
    pub fn pages(&self) -> (r: &Vec<Page>)
        ensures
            r@.map_values(|p: Page| p@) == self@.pages,
    {
        &self.pages
    }

    /// The index of the active page.
    pub fn active_page(&self) -> (r: usize)
        ensures
            r == self@.active_page,
    {
        self.active_page
    }

    /// How many decks the program drives.
    pub fn deck_count(&self) -> (r: usize)
        ensures
            r == self@.decks.len(),
    {
        proof {
            lemma_deck_views(self@, self.deck@);
        }
        self.deck.len()
    }

    /// The state of each key the last time the decks reported it (`true`: held down).
    pub fn pressed_buttons(&self) -> (r: &Vec<bool>)
        ensures
            r@ == self@.pressed,
    {
        &self.pressed_buttons
    }

    /// The configuration taken in.
    pub fn config(&self) -> (r: &Option<Config>)
        ensures
            *r == self@.config,
    {
        &self.config
    }

    /// Starts the decks: the Stream Deck `found`, if any, and then the simulated deck are added
    /// after the decks already there, and every deck is made ready in turn (the first failure
    /// stops it); then the configuration is applied. Hands back what the task that talks to the
    /// Stream Deck needs.
    pub fn run(&mut self, found: Option<Deck_Streamdeck>) -> (r: Result<Option<DeckLink>, PassError>)
        requires
            old(self).wf(),
        ensures
            final(self).wf(),
            ({
                let n = old(self)@.decks.len() as int;
                let new = final(self)@.decks;
                let m = if found is Some { n + 2 } else { n + 1 };
                let held = final(self).held();
                &&& new.len() == m
                &&& held.len() == m
                &&& is_window_deck(held[m - 1])
                &&& found matches Some(_) ==> held[n] is Stream
                &&& match r {
                    Err(PassError::Deck(e)) => {
                        &&& final(self)@ == (PassView { decks: new, ..old(self)@ })
                        &&& exists|i: int| #[trigger] failed_at(old(self)@.decks, new, i, e)
                        &&& found matches Some(f) ==> held[n] == AnyDeck::Stream(f)
                        &&& new[m - 1].calls == Seq::<DeckCall>::empty()
                    },
                    Err(PassError::NoSuchKey(_)) => false,
                    Err(PassError::TooManyKeys) => false,
                    _ => {
                        &&& forall|d: int|
                            0 <= d < n ==> made_ready(old(self)@.decks[d].calls, (#[trigger] new[d]).calls)
                        &&& found matches Some(f) ==> new[n].calls == f.calls().push(DeckCall::Run(Ok(())))
                            && new[n].keys == Set::new(|k: u8| k < 15)
                        &&& new[m - 1].calls == seq![DeckCall::Run(Ok(()))]
                        &&& new[m - 1].keys == Set::new(|k: u8| true)
                        &&& match found {
                            Some(f) => r matches Ok(l) ==> match l {
                                Some(link) => f@.info == Some(link.info),
                                None => f@.info is None,
                            },
                            None => r matches Ok(l) ==> l is None,
                        }
                        &&& match r {
                            Ok(_) => config_applied(PassView { decks: new, ..old(self)@ }, final(self)@, Ok(())),
                            Err(PassError::Config(e)) => config_applied(PassView { decks: new, ..old(self)@ }, final(self)@, Err(e)),
                            Err(_) => false,
                        }
                    },
                }
            }),
    {
        let ghost start = self@;
        let ghost d0 = self.deck@;
        let ghost had = found is Some;
        proof {
            lemma_deck_views(start, d0);
        }
        let n = self.deck.len();
        let mut i: usize = 0;
        while i < n
            invariant
                self.wf(),
                self@ == (PassView { decks: self@.decks, ..start }),
                start.decks == states_of(d0),
                start == old(self)@,
                had == (found is Some),
                n == d0.len(),
                self.deck@.len() == n,
                i <= n,
                forall|d: int| 0 <= d < i ==> made_ready(d0[d].calls(), (#[trigger] self.deck@[d]).calls()),
                forall|d: int|
                    i <= d < n ==> (#[trigger] self.deck@[d]).calls() == d0[d].calls() && keys_at(self.deck@, d) == keys_at(d0, d),
            decreases n - i,
        {
            let res = self.deck[i].run();
            let e = match res {
                Ok(()) => None,
                Err(e) => Some(e),
            };
            let ghost ran = self.deck@;
            proof {
                if e is None {
                    assert(self.deck@[i as int].calls().drop_last() =~= d0[i as int].calls());
                }
                assert forall|d: int| i < d < n implies (#[trigger] self.deck@[d]).calls() == d0[d].calls() && keys_at(
                    self.deck@,
                    d,
                ) == keys_at(d0, d) by {
                    assert(keys_at(self.deck@, d) =~= keys_at(d0, d));
                }
            }
            if let Some(e) = e {
                let ghost failed = self.deck@;
                if let Some(d) = found {
                    let b = AnyDeck::Stream(d);
                    let ghost pre = self.deck@;
                    self.deck.push(b);
                }
                let w = AnyDeck::Window(Deck_Minifb::new("The Deck", 5, 3));
                let ghost pre = self.deck@;
                self.deck.push(w);
                proof {
                    lemma_deck_views(self@, self.deck@);
                    lemma_deck_views(start, d0);
                    assert forall|d: int| 0 <= d < n implies (#[trigger] self.deck@[d]).calls() == failed[d].calls() && keys_at(
                        self.deck@,
                        d,
                    ) == keys_at(failed, d) by {
                        assert(self.deck@[d] == failed[d]);
                        assert(keys_at(self.deck@, d) =~= keys_at(failed, d));
                    }
                    assert forall|d: int| 0 <= d < i implies made_ready(start.decks[d].calls, (#[trigger] self@.decks[d]).calls) by {
                        assert(self.deck@[d].calls() == failed[d].calls());
                    }
                    assert(self@.decks[i as int].calls == start.decks[i as int].calls.push(DeckCall::Run(Err(e)))) by {
                        assert(self.deck@[i as int].calls() == failed[i as int].calls());
                    }
                    assert forall|d: int| i < d < n implies #[trigger] self@.decks[d] == start.decks[d] by {
                        assert(self.deck@[d].calls() == failed[d].calls());
                        assert(keys_at(self.deck@, d) == keys_at(failed, d));
                        assert(failed[d].calls() == d0[d].calls() && keys_at(failed, d) == keys_at(d0, d));
                    }
                    assert(failed_at(start.decks, self@.decks, i as int, e));
                    assert(self@.decks.len() == (if had { n + 2 } else { n + 1 }));
                    assert(self@ == (PassView { decks: self@.decks, ..start }));
                }
                return Err(PassError::Deck(e));
            }
            i = i + 1;
        }
        let mut link: Option<DeckLink> = None;
        if let Some(mut d) = found {
            let _ = d.run();
            link = d.take_link();
            let b = AnyDeck::Stream(d);
            let ghost pre = self.deck@;
            self.deck.push(b);
        }
        let mut w = Deck_Minifb::new("The Deck", 5, 3);
        let _ = w.run();
        let b = AnyDeck::Window(w);
        let ghost pre = self.deck@;
        self.deck.push(b);
        let ghost started = self@;
        proof {
            lemma_deck_views(self@, self.deck@);
        }
        match self.apply_config() {
            Ok(()) => Ok(link),
            Err(e) => Err(PassError::Config(e)),
        }
    }

    /// Lets whatever works for each deck in the background stop.
    pub fn shutdown(&mut self)
        requires
            old(self).wf(),
        ensures
            final(self).wf(),
            final(self)@ == (PassView { decks: final(self)@.decks, ..old(self)@ }),
            final(self)@.decks.len() == old(self)@.decks.len(),
            forall|d: int|
                0 <= d < old(self)@.decks.len() ==> (#[trigger] final(self)@.decks[d]).calls == old(self)@.decks[d].calls.push(
                    DeckCall::Shutdown,
                ),
            final(self).decks_shut_down(),
    {
        let mut i: usize = 0;
        let ghost v = self@;
        let ghost d0 = self.deck@;
        while i < self.deck.len()
            invariant
                self.wf(),
                self@ == (PassView { decks: self@.decks, ..v }),
                v.decks == states_of(d0),
                self.deck@.len() == d0.len(),
                i <= self.deck@.len(),
                forall|j: int| 0 <= j < i ==> (#[trigger] self.deck@[j]).is_shut_down(),
                forall|j: int| 0 <= j < i ==> (#[trigger] self.deck@[j]).calls() == d0[j].calls().push(DeckCall::Shutdown),
                forall|j: int| i <= j < d0.len() ==> (#[trigger] self.deck@[j]).calls() == d0[j].calls(),
            decreases self.deck.len() - i,
        {
            self.deck[i].shutdown();
            i = i + 1;
        }
        proof {
            lemma_deck_views(v, d0);
            lemma_deck_views(self@, self.deck@);
        }
    }

    /// One frame: each deck updates, shows the images of the active page's keys and reports its
    /// keys, which are taken in; then the actions that the reports triggered are carried out, a
    /// `Clear` on every deck here, the others handed back for the outside world. Where something
    /// fails, the frame stops there and the effects of the actions carried out so far come back
    /// with the error.
    pub fn update(&mut self) -> (r: (Vec<Effect>, Result<(), PassError>))
        requires
            old(self).wf(),
            old(self)@.decks.len() > 0 && 0 <= old(self)@.active_page < old(self)@.pages.len() ==> old(self)@.pages[old(self)@.active_page].buttons.len() <= 255,
        ensures
            final(self).wf(),
            frame_outcome(old(self)@, final(self)@, effects_view(r.0@), r.1),
    {
        let ghost start = self@;
        let mut decks: Vec<AnyDeck> = Vec::new();
        std::mem::swap(&mut decks, &mut self.deck);
        proof {
            assert(self@ == PassView { decks: Seq::empty(), ..start }) by {
                assert(states_of(self.deck@) =~= Seq::<DeckState>::empty());
            }
        }
        let r = self.frame(&mut decks);
        self.deck = decks;
        r
    }

    /// One deck's part of a frame, from `s`: the deck updates, the keys of the active page show
    /// their images, and the keys that the deck reports, if it does, are taken in; what they
    /// triggered comes back.
    #[verifier::loop_isolation(false)]
    fn deck_round(&mut self, d: &mut AnyDeck, Ghost(s): Ghost<Sim>, Ghost(keys): Ghost<Set<u8>>) -> (r: Result<
        Vec<Action>,
        PassError,
    >)
        requires
            forall|i: u8| keys.contains(i) == old(d).has_key(i),
            old(self).wf(),
            0 <= old(self)@.active_page < old(self)@.pages.len() ==> old(self)@.pages[old(self)@.active_page].buttons.len() <= 255,
            s.buttons == old(self)@.buttons,
            s.pressed == old(self)@.pressed,
            !halted(s),
        ensures
            final(self).wf(),
            final(self)@ == (PassView { buttons: final(self)@.buttons, pressed: final(self)@.pressed, ..old(self)@ }),
            !(r matches Err(PassError::Config(_))),
            is_prefix(old(d).calls(), final(d).calls()),
            forall|i: u8| final(d).has_key(i) == old(d).has_key(i),
            forall|c: Seq<DeckCall>|
                #[trigger] is_prefix(final(d).calls(), c) ==> round(
                    s,
                    c,
                    old(d).calls().len() as int,
                    active_entries(old(self)@),
                    0 <= old(self)@.active_page < old(self)@.pages.len(),
                    keys,
                ) == (round_end(s, final(self)@, r), final(d).calls().len() as int),
    {
        let ghost at0 = d.calls().len() as int;
        let ghost c0 = d.calls();
        let ghost v0 = self@;
        let ghost entries = active_entries(self@);
        let ghost active = 0 <= self@.active_page < self@.pages.len();
        proof {
            lemma_prefix_refl(c0);
        }
        let u = d.update();
        let ghost uv = u;
        proof {
            lemma_prefix_refl(d.calls());
        }
        if let Err(e) = u {
            proof {
                assert forall|c: Seq<DeckCall>| #[trigger] is_prefix(d.calls(), c) implies round(s, c, at0, entries, active, keys)
                    == (round_end(s, self@, Err(PassError::Deck(e))), d.calls().len() as int) by {
                    lemma_prefix_push(c0, DeckCall::Update(Err(e)), c);
                }
                lemma_prefix_push(c0, DeckCall::Update(Err(e)), d.calls());
            }
            return Err(PassError::Deck(e));
        }
        let ghost c1 = d.calls();
        proof {
            assert(uv is Ok);
            lemma_prefix_refl(c1);
            lemma_prefix_push(c0, DeckCall::Update(uv), c1);
        }
        let images = match self.button_images() {
            Some(images) => images,
            None => {
                let none: Vec<Action> = Vec::new();
                proof {
                    assert(s.actions + actions_view(none@) =~= s.actions);
                    assert forall|c: Seq<DeckCall>| #[trigger] is_prefix(d.calls(), c) implies round(s, c, at0, entries, active, keys)
                        == (round_end(s, self@, Ok(none)), d.calls().len() as int) by {
                        lemma_prefix_push(c0, DeckCall::Update(uv), c);
                    }
                }
                return Ok(none);
            },
        };
        let ghost imgs = page_images(entries, s.buttons);
        assert(images@.map_values(|e: (u8, String)| (e.0, e.1@)) == imgs);
        let mut q: usize = 0;
        while q < images.len()
            invariant
                q <= images@.len(),
                images@.map_values(|e: (u8, String)| (e.0, e.1@)) == imgs,
                d.calls().len() == at0 + 1 + q,
                is_prefix(c0, d.calls()),
                forall|i: u8| d.has_key(i) == keys.contains(i),
                forall|i: u8| #[trigger] d.has_key(i) == old(d).has_key(i),
                forall|c: Seq<DeckCall>|
                    #[trigger] is_prefix(d.calls(), c) ==> files(s, c, at0 + 1, imgs, keys, q as nat) == (
                        s,
                        at0 + 1 + q,
                    ) && c[at0] == DeckCall::Update(uv),
            decreases images.len() - q,
        {
            let index = images[q].0;
            assert(imgs[q as int] == (index, images@[q as int].1@));
            if !d.key_exists(index) {
                proof {
                    assert forall|c: Seq<DeckCall>| #[trigger] is_prefix(d.calls(), c) implies round(s, c, at0, entries, active, keys)
                        == (round_end(s, self@, Err(PassError::NoSuchKey(index))), d.calls().len() as int) by {
                        lemma_files_halted(s, c, at0 + 1, imgs, keys, (q + 1) as nat, imgs.len());
                    }
                }
                return Err(PassError::NoSuchKey(index));
            }
            let ghost cb = d.calls();
            let res = d.set_button_file(index, images[q].1.as_str());
            let ghost call = DeckCall::SetFile(index, imgs[q as int].1, res);
            proof {
                lemma_prefix_refl(d.calls());
                lemma_prefix_push(cb, call, d.calls());
                lemma_prefix_trans(c0, cb, d.calls());
            }
            if let Err(e) = res {
                proof {
                    assert forall|c: Seq<DeckCall>| #[trigger] is_prefix(d.calls(), c) implies round(s, c, at0, entries, active, keys)
                        == (round_end(s, self@, Err(PassError::Deck(e))), d.calls().len() as int) by {
                        lemma_prefix_push(cb, call, c);
                        lemma_files_halted(s, c, at0 + 1, imgs, keys, (q + 1) as nat, imgs.len());
                    }
                }
                return Err(PassError::Deck(e));
            }
            proof {
                assert forall|c: Seq<DeckCall>| #[trigger] is_prefix(d.calls(), c) implies files(s, c, at0 + 1, imgs, keys, (q + 1) as nat)
                    == (s, at0 + 1 + q + 1) && c[at0] == DeckCall::Update(uv) by {
                    lemma_prefix_push(cb, call, c);
                }
            }
            q = q + 1;
        }
        let ghost cr = d.calls();
        let rb = d.read_buttons(Some(6));
        let ghost call = DeckCall::Read(Some(6), crate::deck::report_of(rb));
        proof {
            lemma_prefix_refl(d.calls());
            lemma_prefix_push(cr, call, d.calls());
            lemma_prefix_trans(c0, cr, d.calls());
        }
        match rb {
            Ok(buttons) => {
                if buttons.len() > self.pressed_buttons.len() {
                    proof {
                        assert forall|c: Seq<DeckCall>| #[trigger] is_prefix(d.calls(), c) implies round(s, c, at0, entries, active, keys)
                            == (round_end(s, self@, Err(PassError::TooManyKeys)), d.calls().len() as int) by {
                            lemma_prefix_push(cr, call, c);
                        }
                    }
                    return Err(PassError::TooManyKeys);
                }
                let acts = self.handle_buttons(&buttons);
                proof {
                    assert forall|c: Seq<DeckCall>| #[trigger] is_prefix(d.calls(), c) implies round(s, c, at0, entries, active, keys)
                        == (round_end(s, self@, Ok(acts)), d.calls().len() as int) by {
                        lemma_prefix_push(cr, call, c);
                    }
                }
                Ok(acts)
            },
            Err(_) => {
                let none: Vec<Action> = Vec::new();
                proof {
                    assert(s.actions + actions_view(none@) =~= s.actions);
                    assert forall|c: Seq<DeckCall>| #[trigger] is_prefix(d.calls(), c) implies round(s, c, at0, entries, active, keys)
                        == (round_end(s, self@, Ok(none)), d.calls().len() as int) by {
                        lemma_prefix_push(cr, call, c);
                    }
                }
                Ok(none)
            },
        }
    }

    /// Carries out one action of a frame, from `s`, the decks' logs standing at `ats` and their
    /// keys being `keyss`: a `Clear` fills the keys of every deck here, the actions that need the
    /// outside world come back as effects.
    #[verifier::loop_isolation(false)]
    fn carry_out(
        &mut self,
        action: Action,
        decks: &mut Vec<AnyDeck>,
        Ghost(s): Ghost<Sim>,
        Ghost(keyss): Ghost<Seq<Set<u8>>>,
    ) -> (r: Result<Option<Effect>, PassError>)
        requires
            old(self).wf(),
            !halted(s),
            s.done == old(self)@.done,
            keyss.len() == old(decks)@.len(),
            forall|d: int| 0 <= d < keyss.len() ==> #[trigger] keyss[d] == keys_at(old(decks)@, d),
        ensures
            final(self).wf(),
            final(self)@ == (PassView { done: final(self)@.done, ..old(self)@ }),
            !(r matches Err(PassError::Config(_))),
            final(decks)@.len() == old(decks)@.len(),
            forall|d: int|
                0 <= d < keyss.len() ==> #[trigger] keys_at(final(decks)@, d) == keyss[d] && is_prefix(
                    old(decks)@[d].calls(),
                    final(decks)@[d].calls(),
                ),
            forall|g: Seq<Seq<DeckCall>>|
                #[trigger] extends(g, calls_of(final(decks)@)) ==> act(s, g, lens_of(old(decks)@), action@, keyss) == (
                    act_end(s, final(self)@, r),
                    lens_of(final(decks)@),
                ),
    {
        let ghost a = action@;
        let ghost d0 = decks@;
        let ghost v0 = self@;
        proof {
            assert forall|d: int| 0 <= d < keyss.len() implies is_prefix(d0[d].calls(), decks@[d].calls()) by {
                lemma_prefix_refl(d0[d].calls());
            }
        }
        let e = self.perform(action);
        match e {
            Effect::SetRgb { keys, r, g, b } => {
                let n = decks.len();
                let mut q: usize = 0;
                let ghost mut lq = lens_of(decks@);
                while q < keys.len()
                    invariant
                        self@ == v0,
                        keys@ == clear_keys(),
                        a == ActionView::Clear(r, g, b),
                        decks@.len() == n,
                        q <= keys@.len(),
                        lq == lens_of(decks@),
                        forall|d: int|
                            0 <= d < keyss.len() ==> #[trigger] keys_at(decks@, d) == keyss[d] && is_prefix(
                                d0[d].calls(),
                                decks@[d].calls(),
                            ),
                        forall|gg: Seq<Seq<DeckCall>>|
                            #[trigger] extends(gg, calls_of(decks@)) ==> clear_upto(s, gg, lens_of(d0), q as nat, r, g, b, keyss)
                                == (s, lens_of(decks@)),
                    decreases keys.len() - q,
                {
                    let key = keys[q];
                    assert(key == q as u8);
                    let ghost dq = decks@;
                    let mut c: usize = 0;
                    while c < decks.len()
                        invariant
                            self@ == v0,
                            decks@.len() == n,
                            c <= n,
                            q < 15,
                            key == q as u8,
                            forall|d: int|
                                0 <= d < keyss.len() ==> #[trigger] keys_at(decks@, d) == keyss[d] && is_prefix(
                                    d0[d].calls(),
                                    decks@[d].calls(),
                                ),
                            forall|gg: Seq<Seq<DeckCall>>|
                                #[trigger] extends(gg, calls_of(decks@)) ==> clear_upto(s, gg, lens_of(d0), q as nat, r, g, b, keyss)
                                    == (s, lens_of(dq)) && clear_decks(s, gg, lens_of(dq), key, r, g, b, keyss, c as nat) == (
                                    s,
                                    lens_of(decks@),
                                ),
                        decreases decks.len() - c,
                    {
                        let ghost before = decks@;
                        proof {
                            assert(keys_at(decks@, c as int) == keyss[c as int]);
                        }
                        if !decks[c].key_exists(key) {
                            proof {
                                assert(!keyss[c as int].contains(key));
                                assert forall|gg: Seq<Seq<DeckCall>>| #[trigger] extends(gg, calls_of(decks@)) implies act(
                                    s,
                                    gg,
                                    lens_of(d0),
                                    a,
                                    keyss,
                                ) == (act_end(s, self@, Err(PassError::NoSuchKey(key))), lens_of(decks@)) by {
                                    lemma_clear_decks_halted(s, gg, lens_of(dq), key, r, g, b, keyss, (c + 1) as nat, n as nat);
                                    lemma_clear_upto_halted(s, gg, lens_of(d0), (q + 1) as nat, 15, r, g, b, keyss);
                                }
                            }
                            return Err(PassError::NoSuchKey(key));
                        }
                        let res = decks[c].set_button_rgb(key, r, g, b);
                        let ghost call = DeckCall::SetRgb(key, r, g, b, res);
                        proof {
                            assert forall|d: int| 0 <= d < keyss.len() implies #[trigger] keys_at(decks@, d) == keyss[d] && is_prefix(
                                d0[d].calls(),
                                decks@[d].calls(),
                            ) by {
                                assert(keys_at(before, d) == keyss[d]);
                                if d == c {
                                    assert(keys_at(decks@, d) =~= keys_at(before, d));
                                    lemma_prefix_refl(decks@[d].calls());
                                    lemma_prefix_push(before[d].calls(), call, decks@[d].calls());
                                    lemma_prefix_trans(d0[d].calls(), before[d].calls(), decks@[d].calls());
                                }
                            }
                        }
                        if let Err(err) = res {
                            proof {
                                assert forall|gg: Seq<Seq<DeckCall>>| #[trigger] extends(gg, calls_of(decks@)) implies act(
                                    s,
                                    gg,
                                    lens_of(d0),
                                    a,
                                    keyss,
                                ) == (act_end(s, self@, Err(PassError::Deck(err))), lens_of(decks@)) by {
                                    lemma_extends_push(before, decks@, c as int, call, gg);
                                    lemma_clear_decks_halted(s, gg, lens_of(dq), key, r, g, b, keyss, (c + 1) as nat, n as nat);
                                    lemma_clear_upto_halted(s, gg, lens_of(d0), (q + 1) as nat, 15, r, g, b, keyss);
                                }
                            }
                            return Err(PassError::Deck(err));
                        }
                        proof {
                            assert forall|gg: Seq<Seq<DeckCall>>| #[trigger] extends(gg, calls_of(decks@)) implies clear_upto(
                                s,
                                gg,
                                lens_of(d0),
                                q as nat,
                                r,
                                g,
                                b,
                                keyss,
                            ) == (s, lens_of(dq)) && clear_decks(s, gg, lens_of(dq), key, r, g, b, keyss, (c + 1) as nat) == (
                                s,
                                lens_of(decks@),
                            ) by {
                                lemma_extends_push(before, decks@, c as int, call, gg);
                            }
                        }
                        c = c + 1;
                    }
                    proof {
                        lq = lens_of(decks@);
                    }
                    q = q + 1;
                }
                proof {
                    assert(act_end(s, self@, Ok(None)) == s);
                }
                Ok(None)
            },
            Effect::Nothing => {
                proof {
                    assert forall|gg: Seq<Seq<DeckCall>>| #[trigger] extends(gg, calls_of(decks@)) implies act(s, gg, lens_of(d0), a, keyss) == (
                        act_end(s, self@, Ok(None)),
                        lens_of(decks@),
                    ) by {}
                }
                Ok(None)
            },
            other => {
                proof {
                    assert forall|gg: Seq<Seq<DeckCall>>| #[trigger] extends(gg, calls_of(decks@)) implies act(s, gg, lens_of(d0), a, keyss) == (
                        act_end(s, self@, Ok(Some(other))),
                        lens_of(decks@),
                    ) by {}
                }
                Ok(Some(other))
            },
        }
    }

    /// Gives every button its turn between frames.
    fn update_buttons(&mut self)
        requires
            old(self).wf(),
        ensures
            final(self).wf(),
            final(self)@ == old(self)@,
    {
        let ghost start = self@;
        let mut i: usize = 0;
        while i < self.buttons.len()
            invariant
                self.wf(),
                self@ == start,
                i <= self.buttons@.len(),
            decreases self.buttons.len() - i,
        {
            let ghost v = self.buttons@;
            self.buttons[i].1.update();
            proof {
                lemma_update_entry(v, i as int, self.buttons@[i as int]);
                assert(entries_map(v).contains_key(v[i as int].0@) && entries_map(v)[v[i as int].0@] == v[i as int].1@) by {
                    assert(v[i as int].0@ == v[i as int].0@);
                    let j = choose|j: int| 0 <= j < v.len() && (#[trigger] v[j]).0@ == v[i as int].0@;
                    if j != i as int {
                        assert(v[j].0@ != v[i as int].0@);
                    }
                }
                assert(entries_map(self.buttons@) =~= entries_map(v));
            }
            i = i + 1;
        }
    }

    /// [`ManyCordPass::update`] with the decks held apart.
    fn frame(&mut self, decks: &mut Vec<AnyDeck>) -> (r: (Vec<Effect>, Result<(), PassError>))
        requires
            old(self).wf(),
            old(decks)@.len() > 0 && 0 <= old(self)@.active_page < old(self)@.pages.len() ==> old(self)@.pages[old(self)@.active_page].buttons.len() <= 255,
        ensures
            final(self).wf(),
            final(self)@.decks == old(self)@.decks,
            frame_outcome(
                PassView { decks: states_of(old(decks)@), ..old(self)@ },
                PassView { decks: states_of(final(decks)@), ..final(self)@ },
                effects_view(r.0@),
                r.1,
            ),
    {
        self.update_buttons();
        let ghost self0 = self@;
        let ghost d0 = decks@;
        let ghost v0 = PassView { decks: states_of(d0), ..self0 };
        let ghost keyss = deck_keys(v0);
        let ghost entries = active_entries(v0);
        let ghost active = 0 <= v0.active_page < v0.pages.len();
        let ghost mut sim = frame_start(v0);
        let n = decks.len();
        let mut all_actions: Vec<Action> = Vec::new();
        let mut effects: Vec<Effect> = Vec::new();
        proof {
            lemma_deck_views(v0, d0);
            assert(actions_view(all_actions@) =~= Seq::<ActionView>::empty());
            assert(effects_view(effects@) =~= Seq::<EffectView>::empty());
            assert forall|d: int| 0 <= d < n implies #[trigger] keyss[d] == keys_at(d0, d) by {}
            assert forall|d: int| 0 <= d < n implies is_prefix(#[trigger] d0[d].calls(), decks@[d].calls()) by {
                lemma_prefix_refl(d0[d].calls());
            }
        }
        let mut k: usize = 0;
        while k < n
            invariant
                self.wf(),
                self@ == (PassView { buttons: sim.buttons, pressed: sim.pressed, ..self0 }),
                self0 == old(self)@,
                d0 == old(decks)@,
                v0 == (PassView { decks: states_of(d0), ..self0 }),
                n > 0 && 0 <= self0.active_page < self0.pages.len() ==> self0.pages[self0.active_page].buttons.len() <= 255,
                keyss == deck_keys(v0),
                entries == active_entries(v0),
                active == (0 <= v0.active_page < v0.pages.len()),
                n == d0.len(),
                decks@.len() == n,
                k <= n,
                !halted(sim),
                sim.done == v0.done,
                sim.effects == Seq::<EffectView>::empty(),
                sim.actions == actions_view(all_actions@),
                effects@.len() == 0,
                forall|d: int|
                    0 <= d < n ==> #[trigger] keys_at(decks@, d) == keys_at(d0, d) && is_prefix(d0[d].calls(), decks@[d].calls()),
                forall|d: int| k <= d < n ==> (#[trigger] decks@[d]).calls() == d0[d].calls(),
                forall|gg: Seq<Seq<DeckCall>>|
                    #[trigger] extends(gg, calls_of(decks@)) ==> rounds(frame_start(v0), gg, log_ends(v0), k as nat, entries, active, keyss)
                        == (sim, lens_of(decks@)),
            decreases n - k,
        {
            let ghost before = decks@;
            proof {
                assert(keys_at(decks@, k as int) == keys_at(d0, k as int));
                assert forall|i: u8| keyss[k as int].contains(i) == before[k as int].has_key(i) by {
                    assert(keys_at(before, k as int).contains(i) == before[k as int].has_key(i));
                }
            }
            let round = self.deck_round(&mut decks[k], Ghost(sim), Ghost(keyss[k as int]));
            let ghost after = decks@;
            proof {
                assert(keys_at(after, k as int) =~= keys_at(before, k as int));
                lemma_prefix_trans(d0[k as int].calls(), before[k as int].calls(), after[k as int].calls());
                assert forall|d: int| 0 <= d < n implies #[trigger] keys_at(decks@, d) == keys_at(d0, d) && is_prefix(
                    d0[d].calls(),
                    decks@[d].calls(),
                ) by {
                    assert(keys_at(before, d) == keys_at(d0, d));
                    if d == k {
                        assert(keys_at(decks@, d) =~= keys_at(before, d));
                    } else {
                        assert(decks@[d] == before[d]);
                    }
                }
                assert(keyss[k as int] == keys_at(d0, k as int));
                assert(entries == active_entries(self0));
            }
            match round {
                Err(e) => {
                    let ghost fin = round_end(sim, self@, Err(e));
                    proof {
                        assert forall|gg: Seq<Seq<DeckCall>>| #[trigger] extends(gg, calls_of(decks@)) implies rounds(
                            frame_start(v0),
                            gg,
                            log_ends(v0),
                            n as nat,
                            entries,
                            active,
                            keyss,
                        ) == (fin, lens_of(decks@)) by {
                            assert(extends(gg, calls_of(before))) by {
                                assert forall|d: int| 0 <= d < n implies is_prefix(#[trigger] calls_of(before)[d], gg[d]) by {
                                    assert(is_prefix(calls_of(decks@)[d], gg[d]));
                                    if d == k {
                                        lemma_prefix_trans(before[d].calls(), decks@[d].calls(), gg[d]);
                                    }
                                }
                            }
                            assert(is_prefix(calls_of(decks@)[k as int], gg[k as int]));
                            assert(lens_of(decks@) =~= lens_of(before).update(k as int, decks@[k as int].calls().len() as int));
                            lemma_rounds_halted(frame_start(v0), gg, log_ends(v0), (k + 1) as nat, n as nat, entries, active, keyss);
                        }
                        assert forall|gg: Seq<Seq<DeckCall>>| #[trigger] extends(gg, calls_of(decks@)) implies frame_sim(v0, gg) == (
                            fin,
                            lens_of(decks@),
                        ) by {
                            assert(rounds(frame_start(v0), gg, log_ends(v0), n as nat, entries, active, keyss) == (fin, lens_of(decks@)));
                        }
                        assert(effects_view(effects@) =~= Seq::<EffectView>::empty());
                        lemma_outcome(v0, d0, decks@, self@, fin, effects@, Err(e));
                    }
                    return (effects, Err(e));
                },
                Ok(acts) => {
                    let ghost next = round_end(sim, self@, Ok(acts));
                    proof {
                        assert forall|gg: Seq<Seq<DeckCall>>| #[trigger] extends(gg, calls_of(decks@)) implies rounds(
                            frame_start(v0),
                            gg,
                            log_ends(v0),
                            (k + 1) as nat,
                            entries,
                            active,
                            keyss,
                        ) == (next, lens_of(decks@)) by {
                            assert(extends(gg, calls_of(before))) by {
                                assert forall|d: int| 0 <= d < n implies is_prefix(#[trigger] calls_of(before)[d], gg[d]) by {
                                    assert(is_prefix(calls_of(decks@)[d], gg[d]));
                                    if d == k {
                                        lemma_prefix_trans(before[d].calls(), decks@[d].calls(), gg[d]);
                                    }
                                }
                            }
                            assert(is_prefix(calls_of(decks@)[k as int], gg[k as int]));
                            assert(lens_of(decks@) =~= lens_of(before).update(k as int, decks@[k as int].calls().len() as int));
                        }
                    }
                    let mut acts = acts;
                    all_actions.append(&mut acts);
                    proof {
                        sim = next;
                        assert(actions_view(all_actions@) =~= sim.actions);
                        assert(forall|d: int|
                            0 <= d < n ==> #[trigger] keys_at(decks@, d) == keys_at(d0, d) && is_prefix(d0[d].calls(), decks@[d].calls()));
                    }
                },
            }
            assert(forall|d: int|
                0 <= d < n ==> #[trigger] keys_at(decks@, d) == keys_at(d0, d) && is_prefix(d0[d].calls(), decks@[d].calls()));
            k = k + 1;
        }
        let ghost sim_r = sim;
        let ghost ats_r = lens_of(decks@);
        let ghost acts_all = sim.actions;
        let ghost dr = decks@;
        proof {
            assert forall|gg: Seq<Seq<DeckCall>>| #[trigger] extends(gg, calls_of(decks@)) implies acts(sim_r, gg, ats_r, acts_all, 0, keyss) == (
                sim,
                lens_of(decks@),
            ) by {}
        }
        let mut j: usize = 0;
        while j < all_actions.len()
            invariant
                self.wf(),
                self@ == (PassView { buttons: sim_r.buttons, pressed: sim_r.pressed, done: sim.done, ..self0 }),
                self0 == old(self)@,
                d0 == old(decks)@,
                v0 == (PassView { decks: states_of(d0), ..self0 }),
                keyss == deck_keys(v0),
                n == d0.len(),
                decks@.len() == n,
                j <= all_actions@.len(),
                acts_all == actions_view(all_actions@),
                acts_all == sim_r.actions,
                !halted(sim),
                !halted(sim_r),
                sim.buttons == sim_r.buttons,
                sim.pressed == sim_r.pressed,
                sim.actions == sim_r.actions,
                sim.effects == effects_view(effects@),
                forall|d: int|
                    0 <= d < n ==> #[trigger] keys_at(decks@, d) == keys_at(d0, d) && is_prefix(d0[d].calls(), decks@[d].calls()),
                forall|gg: Seq<Seq<DeckCall>>| #[trigger] extends(gg, calls_of(decks@)) ==> frame_rounds(v0, gg) == (sim_r, ats_r),
                forall|gg: Seq<Seq<DeckCall>>|
                    #[trigger] extends(gg, calls_of(decks@)) ==> acts(sim_r, gg, ats_r, acts_all, j as nat, keyss) == (
                        sim,
                        lens_of(decks@),
                    ),
            decreases all_actions.len() - j,
        {
            let a = all_actions[j].duplicate();
            let ghost before = decks@;
            proof {
                assert forall|d: int| 0 <= d < keyss.len() implies #[trigger] keyss[d] == keys_at(before, d) by {}
            }
            let res = self.carry_out(a, decks, Ghost(sim), Ghost(keyss));
            let ghost next = act_end(sim, self@, res);
            proof {
                assert forall|d: int| 0 <= d < n implies #[trigger] keys_at(decks@, d) == keys_at(d0, d) && is_prefix(
                    d0[d].calls(),
                    decks@[d].calls(),
                ) by {
                    assert(keys_at(before, d) == keys_at(d0, d));
                    assert(keys_at(decks@, d) == keyss[d]);
                    lemma_prefix_trans(d0[d].calls(), before[d].calls(), decks@[d].calls());
                }
                assert forall|gg: Seq<Seq<DeckCall>>| #[trigger] extends(gg, calls_of(decks@)) implies extends(gg, calls_of(before)) by {
                    assert forall|d: int| 0 <= d < n implies is_prefix(#[trigger] calls_of(before)[d], gg[d]) by {
                        assert(is_prefix(calls_of(decks@)[d], gg[d]));
                        assert(keys_at(decks@, d) == keyss[d]);
                        lemma_prefix_trans(before[d].calls(), decks@[d].calls(), gg[d]);
                    }
                }
                assert(acts_all[j as int] == a@);
            }
            match res {
                Err(e) => {
                    proof {
                        assert forall|gg: Seq<Seq<DeckCall>>| #[trigger] extends(gg, calls_of(decks@)) implies frame_sim(v0, gg) == (
                            next,
                            lens_of(decks@),
                        ) by {
                            assert(extends(gg, calls_of(before)));
                            assert(acts(sim_r, gg, ats_r, acts_all, j as nat, keyss) == (sim, lens_of(before)));
                            assert(frame_rounds(v0, gg) == (sim_r, ats_r));
                            assert(acts(sim_r, gg, ats_r, acts_all, (j + 1) as nat, keyss) == (next, lens_of(decks@)));
                            lemma_acts_halted(sim_r, gg, ats_r, acts_all, (j + 1) as nat, acts_all.len(), keyss);
                        }
                        lemma_outcome(v0, d0, decks@, self@, next, effects@, Err(e));
                    }
                    return (effects, Err(e));
                },
                Ok(Some(eff)) => {
                    let ghost eb = effects@;
                    effects.push(eff);
                    proof {
                        assert(effects_view(effects@) =~= effects_view(eb).push(eff@));
                    }
                },
                Ok(None) => {},
            }
            proof {
                assert forall|gg: Seq<Seq<DeckCall>>| #[trigger] extends(gg, calls_of(decks@)) implies acts(
                    sim_r,
                    gg,
                    ats_r,
                    acts_all,
                    (j + 1) as nat,
                    keyss,
                ) == (next, lens_of(decks@)) && frame_rounds(v0, gg) == (sim_r, ats_r) by {
                    assert(extends(gg, calls_of(before)));
                }
                sim = next;
            }
            j = j + 1;
        }
        proof {
            assert forall|gg: Seq<Seq<DeckCall>>| #[trigger] extends(gg, calls_of(decks@)) implies frame_sim(v0, gg) == (
                sim,
                lens_of(decks@),
            ) by {}
            assert(forall|d: int|
                0 <= d < n ==> #[trigger] keys_at(decks@, d) == keys_at(d0, d) && is_prefix(d0[d].calls(), decks@[d].calls()));
            lemma_outcome(v0, d0, decks@, self@, sim, effects@, Ok(()));
        }
        (effects, Ok(()))
    }

    /// Whether the program should stop: a deck is done, or an action asked for it.
    pub fn done(&self) -> (r: bool)
        ensures
            r == (self.any_deck_done() || self@.done),
    {
        let mut i: usize = 0;
        while i < self.deck.len()
            invariant
                i <= self.deck@.len(),
                forall|j: int| 0 <= j < i ==> !(#[trigger] self.deck@[j]).is_done(),
            decreases self.deck.len() - i,
        {
            if self.deck[i].done() {
                return true;
            }
            i = i + 1;
        }
        self.done
    }

    /// The images that the keys of the active page show, key index first; `None` where there is
    /// no active page.
    pub fn button_images(&self) -> (r: Option<Vec<(u8, String)>>)
        requires
            self.wf(),
            0 <= self@.active_page < self@.pages.len() ==> self@.pages[self@.active_page].buttons.len() <= 255,
        ensures
            match r {
                None => self@.active_page >= self@.pages.len(),
                Some(v) => self@.active_page < self@.pages.len() && v@.map_values(
                    |e: (u8, String)| (e.0, e.1@),
                ) == page_images(self@.pages[self@.active_page].buttons, self@.buttons),
            },
    {
        if self.active_page >= self.pages.len() {
            return None;
        }
        let page = &self.pages[self.active_page];
        let entries = page.buttons();
        let ghost es = self@.pages[self@.active_page].buttons;
        assert(es == page@.buttons);
        let mut out: Vec<(u8, String)> = Vec::new();
        let mut index: u8 = 0;
        let mut k: usize = 0;
        assert(out@.map_values(|e: (u8, String)| (e.0, e.1@)) =~= page_images(es.take(0), self@.buttons));
        while k < entries.len()
            invariant
                self.wf(),
                es == entries@.map_values(|b: Option<String>| crate::config::opt_text(b)),
                es.len() <= 255,
                k <= entries@.len(),
                index as int == k,
                out@.map_values(|e: (u8, String)| (e.0, e.1@)) == page_images(es.take(k as int), self@.buttons),
            decreases entries.len() - k,
        {
            let ghost before = out@;
            assert(es.take(k + 1).drop_last() == es.take(k as int));
            assert(es.take(k + 1).last() == es[k as int]);
            if let Some(bn) = &entries[k] {
                if let Some(i) = find_entry(&self.buttons, bn) {
                    if let Some(image) = self.buttons[i].1.image() {
                        out.push((index, String::from_str(image)));
                        assert(out@.map_values(|e: (u8, String)| (e.0, e.1@)) == before.map_values(
                            |e: (u8, String)| (e.0, e.1@),
                        ).push((index, image@)));
                    }
                }
            }
            index = index + 1;
            k = k + 1;
        }
        assert(es.take(es.len() as int) == es);
        Some(out)
    }

    /// Takes in the state of each key that a deck reported (non-zero: held down): a button whose
    /// key went down is pressed, one whose key came up is released, and what they trigger comes
    /// back, key by key.
    pub fn handle_buttons(&mut self, now: &Vec<u8>) -> (actions: Vec<Action>)
        requires
            old(self).wf(),
            0 <= old(self)@.active_page < old(self)@.pages.len(),
            now@.len() <= old(self)@.pressed.len(),
        ensures
            final(self).wf(),
            ({
                let t = take_in_keys(
                    old(self)@.buttons,
                    old(self)@.pages[old(self)@.active_page].buttons,
                    old(self)@.pressed,
                    now@,
                );
                &&& final(self)@ == (PassView {
                    buttons: t.0,
                    pressed: keys_after(old(self)@.pressed, now@),
                    ..old(self)@
                })
                &&& actions_view(actions@) == t.1
            }),
    {
        let ghost old_view = self@;
        let ghost es = old_view.pages[old_view.active_page].buttons;
        let mut all_actions: Vec<Action> = Vec::new();
        let mut i: usize = 0;
        assert(now@.take(0) =~= Seq::<u8>::empty());
        assert(actions_view(all_actions@) =~= Seq::<ActionView>::empty());
        assert(old_view.pressed =~= keys_after(old_view.pressed, now@.take(0)));
        while i < now.len()
            invariant
                self.wf(),
                i <= now@.len(),
                now@.len() <= old_view.pressed.len(),
                self.active_page < self.pages@.len(),
                es == self@.pages[self@.active_page].buttons,
                ({
                    let t = take_in_keys(old_view.buttons, es, old_view.pressed, now@.take(i as int));
                    &&& self@ == (PassView {
                        buttons: t.0,
                        pressed: keys_after(old_view.pressed, now@.take(i as int)),
                        ..old_view
                    })
                    &&& actions_view(all_actions@) == t.1
                }),
            decreases now.len() - i,
        {
            let b = now[i];
            let new_state = b > 0;
            let last_state = if i < self.pressed_buttons.len() { self.pressed_buttons[i] } else { false };
            assert(last_state == old_view.pressed[i as int]);
            assert(now@.take(i + 1).drop_last() == now@.take(i as int));
            let ghost prev = take_in_keys(old_view.buttons, es, old_view.pressed, now@.take(i as int));
            let ghost acts_before = actions_view(all_actions@);
            let page_entries = self.pages[self.active_page].buttons();
            let name = if i < page_entries.len() {
                match &page_entries[i] {
                    Some(n) => Some(n.clone()),
                    None => None,
                }
            } else {
                None
            };
            assert(i < es.len() ==> es[i as int] == crate::config::opt_text(page_entries@[i as int]));
            let found = match &name {
                Some(n) => find_entry(&self.buttons, n),
                None => None,
            };
            if let Some(k) = found {
                let ghost n = name->0;
                let ghost v = self.buttons@;
                let ghost bv = v[k as int].1@;
                if new_state && !last_state {
                    let entry = &mut self.buttons[k];
                    let acts = entry.1.press();
                    let mut q: usize = 0;
                    while q < acts.len()
                        invariant
                            q <= acts@.len(),
                            actions_view(all_actions@) == acts_before + actions_view(acts@.take(q as int)),
                        decreases acts.len() - q,
                    {
                        let ghost before = all_actions@;
                        all_actions.push(acts[q].duplicate());
                        assert(actions_view(all_actions@) == actions_view(before).push(acts@[q as int]@));
                        assert(actions_view(acts@.take(q + 1)) == actions_view(acts@.take(q as int)).push(acts@[q as int]@));
                        q = q + 1;
                    }
                    assert(acts@.take(acts@.len() as int) == acts@);
                    proof {
                        lemma_update_entry(v, k as int, self.buttons@[k as int]);
                    }
                } else if !new_state && last_state {
                    let entry = &mut self.buttons[k];
                    let acts = entry.1.release();
                    let mut q: usize = 0;
                    while q < acts.len()
                        invariant
                            q <= acts@.len(),
                            actions_view(all_actions@) == acts_before + actions_view(acts@.take(q as int)),
                        decreases acts.len() - q,
                    {
                        let ghost before = all_actions@;
                        all_actions.push(acts[q].duplicate());
                        assert(actions_view(all_actions@) == actions_view(before).push(acts@[q as int]@));
                        assert(actions_view(acts@.take(q + 1)) == actions_view(acts@.take(q as int)).push(acts@[q as int]@));
                        q = q + 1;
                    }
                    assert(acts@.take(acts@.len() as int) == acts@);
                    proof {
                        lemma_update_entry(v, k as int, self.buttons@[k as int]);
                    }
                }
            }
            self.pressed_buttons.set(i, new_state);
            assert(keys_after(old_view.pressed, now@.take(i + 1)) == self.pressed_buttons@);
            i = i + 1;
        }
        assert(now@.take(now@.len() as int) == now@);
        all_actions
    }

    /// Carries out the part of an action that is the program's own (a `Shutdown` marks the
    /// program done) and says what the outside world has to do for it.
    pub fn perform(&mut self, action: Action) -> (e: Effect)
        requires
            old(self).wf(),
        ensures
            final(self).wf(),
            e@ == effect_of(action@),
            final(self)@ == (PassView {
                done: old(self)@.done || action@ is Shutdown,
                ..old(self)@
            }),
    {
        match action {
            Action::NoOp => Effect::Nothing,
            Action::Clear(r, g, b) => {
                let mut keys: Vec<u8> = Vec::new();
                let mut k: u8 = 0;
                while k <= 14
                    invariant
                        k <= 15,
                        keys@ == clear_keys().take(k as int),
                    decreases 15 - k,
                {
                    keys.push(k);
                    assert(clear_keys().take(k + 1) == clear_keys().take(k as int).push(k));
                    k = k + 1;
                }
                assert(clear_keys().take(15) == clear_keys());
                Effect::SetRgb { keys, r, g, b }
            },
            Action::Shutdown => {
                self.done = true;
                Effect::Nothing
            },
            Action::ObsScene(address, scene) => {
                let scene = url_decode(scene.as_str());
                Effect::ObsScene { address, scene }
            },
            Action::HttpGet(url) => Effect::HttpGet(url),
            Action::OscSend(host, message) => {
                let packet = match osc_encode(message.as_str()) {
                    Some(p) => p,
                    None => Vec::new(),
                };
                Effect::OscSend { host, packet }
            },
        }
    }
}

} // verus!

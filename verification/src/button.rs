//! A button: what it shows, whether it is held down, and what its events trigger.
use vstd::prelude::*;

use crate::action::{Action, ActionView, action_of};
use crate::config::{ButtonConfig, ConfigError, EventConfig, opt_text, texts};
use crate::text::same_text;

verus! {

#[derive(Debug)]
/// What a button shows, as its configuration gives it.
pub enum ButtonType {
    Blank,
    Simple { image: Option<String>, image_active: Option<String> },
}

impl Default for ButtonType {
    fn default() -> (t: ButtonType)
        ensures
            t matches ButtonType::Blank,
    {
        ButtonType::Blank
    }
}

/// What a button shows: nothing, or one image while up and another while held down.
pub enum ButtonKind {
    Blank,
    Simple { image: Option<Seq<char>>, image_active: Option<Seq<char>> },
}

#[derive(Debug)]
pub struct Button {
    name: String,
    ttype: ButtonType,
    pressed: bool,
    on_press: Vec<Action>,
    on_release: Vec<Action>,
}

/// The value of a [`Button`].
pub struct ButtonView {
    pub name: Seq<char>,
    pub kind: ButtonKind,
    pub pressed: bool,
    pub on_press: Seq<ActionView>,
    pub on_release: Seq<ActionView>,
}

/// The values of a list of actions.
pub open spec fn actions_view(v: Seq<Action>) -> Seq<ActionView> {
    v.map_values(|a: Action| a@)
}

impl View for Button {
    type V = ButtonView;

    closed spec fn view(&self) -> ButtonView {
        ButtonView {
            name: self.name@,
            kind: match self.ttype {
                ButtonType::Blank => ButtonKind::Blank,
                ButtonType::Simple { image, image_active } => ButtonKind::Simple {
                    image: opt_text(image),
                    image_active: opt_text(image_active),
                },
            },
            pressed: self.pressed,
            on_press: actions_view(self.on_press@),
            on_release: actions_view(self.on_release@),
        }
    }
}

/// The actions that an event's configuration lists, each read as an action.
pub open spec fn event_actions(ec: Option<EventConfig>) -> Seq<ActionView> {
    match ec {
        Some(e) => match e.actions {
            Some(a) => texts(a@).map_values(|t: Seq<char>| action_of(t)),
            None => Seq::empty(),
        },
        None => Seq::empty(),
    }
}

/// The button that a button's configuration describes: `None` for a type other than `simple`.
/// Only the release event's actions are taken; the press event triggers nothing.
pub open spec fn button_of(config: ButtonConfig) -> Option<ButtonView> {
    if config.ttype@ == "simple"@ {
        Some(
            ButtonView {
                name: config.name@,
                kind: ButtonKind::Simple {
                    image: opt_text(config.image),
                    image_active: opt_text(config.image_active),
                },
                pressed: false,
                on_press: Seq::empty(),
                on_release: event_actions(config.on_release),
            },
        )
    } else {
        None
    }
}

/// What a button shows in a given state.
pub open spec fn image_of(b: ButtonView) -> Option<Seq<char>> {
    match b.kind {
        ButtonKind::Simple { image, image_active } => if b.pressed {
            image_active
        } else {
            image
        },
        ButtonKind::Blank => None,
    }
}

/// `b` held down (`down`) or let go.
pub open spec fn with_pressed(b: ButtonView, down: bool) -> ButtonView {
    ButtonView { pressed: down, ..b }
}

/// A simple button shows its active image while it is held down and its other image while it
/// is up; a blank one shows nothing either way.
pub proof fn lemma_pressed_state_picks_image(b: ButtonView)
    ensures
        image_of(with_pressed(b, true)) == match b.kind {
            ButtonKind::Simple { image, image_active } => image_active,
            ButtonKind::Blank => None,
        },
        image_of(with_pressed(b, false)) == match b.kind {
            ButtonKind::Simple { image, image_active } => image,
            ButtonKind::Blank => None,
        },
{
}

/// Releasing a button after pressing it leaves it as it was before the press, if it was up.
pub proof fn lemma_release_undoes_press(b: ButtonView)
    requires
        !b.pressed,
    ensures
        with_pressed(with_pressed(b, true), false) == b,
{
}

/// A button made from a configuration triggers nothing when pressed: only its release event's
/// actions are taken, and it starts up.
pub proof fn lemma_configured_press_triggers_nothing(config: ButtonConfig)
    ensures
        button_of(config) matches Some(b) ==> b.on_press.len() == 0 && !b.pressed,
{
}

fn clone_text(o: &Option<String>) -> (r: Option<String>)
    ensures
        r == *o,
{
    match o {
        Some(s) => Some(s.clone()),
        None => None,
    }
}

impl Default for Button {
    fn default() -> (b: Button)
        ensures
            b@.name == Seq::<char>::empty(),
            b@.kind matches ButtonKind::Blank,
            !b@.pressed,
            b@.on_press == Seq::<ActionView>::empty(),
            b@.on_release == Seq::<ActionView>::empty(),
    {
        let b = Button {
            name: String::new(),
            ttype: ButtonType::default(),
            pressed: false,
            on_press: Vec::new(),
            on_release: Vec::new(),
        };
        assert(b@.on_press == Seq::<ActionView>::empty());
        assert(b@.on_release == Seq::<ActionView>::empty());
        b
    }
}

impl Button {
    /// The button that `config` describes; an error for a type other than `simple`.
    pub fn from_config(config: &ButtonConfig) -> (r: Result<Button, ConfigError>)
        ensures
            match r {
                Ok(b) => button_of(*config) == Some(b@),
                Err(ConfigError::UnsupportedButtonType(t)) => button_of(*config) is None && t@ == config.ttype@,
            },
    {
        if !same_text(config.ttype.as_str(), "simple") {
            return Err(ConfigError::UnsupportedButtonType(config.ttype.clone()));
        }
        let mut on_release: Vec<Action> = Vec::new();
        if let Some(event_config) = &config.on_release {
            if let Some(actions) = &event_config.actions {
                let mut i: usize = 0;
                while i < actions.len()
                    invariant
                        i <= actions@.len(),
                        on_release@.len() == i,
                        forall|k: int| 0 <= k < i ==> (#[trigger] on_release@[k])@ == action_of(actions@[k]@),
                    decreases actions.len() - i,
                {
                    on_release.push(Action::from(&actions[i]));
                    i = i + 1;
                }
            }
        }
        let b = Button {
            name: config.name.clone(),
            ttype: ButtonType::Simple {
                image: clone_text(&config.image),
                image_active: clone_text(&config.image_active),
            },
            pressed: false,
            on_press: Vec::new(),
            on_release,
        };
        assert(b@.on_release == event_actions(config.on_release));
        assert(b@.on_press == Seq::<ActionView>::empty());
        Ok(b)
    }

    /// A button has nothing to do between frames.
    pub fn update(&mut self)
        ensures
            final(self)@ == old(self)@,
    {
    }

    /// Holds the button down and hands back what its press triggers.
    pub fn press(&mut self) -> (r: &Vec<Action>)
        ensures
            final(self)@ == with_pressed(old(self)@, true),
            actions_view(r@) == old(self)@.on_press,
    {
        self.pressed = true;
        &self.on_press
    }

    /// Lets the button go and hands back what its release triggers.
    pub fn release(&mut self) -> (r: &Vec<Action>)
        ensures
            final(self)@ == with_pressed(old(self)@, false),
            actions_view(r@) == old(self)@.on_release,
    {
        self.pressed = false;
        &self.on_release
    }

    /// The image the button shows now: the active one while it is held down.
    pub fn image(&self) -> (r: Option<&str>)
        ensures
            match r {
                Some(s) => image_of(self@) == Some(s@),
                None => image_of(self@) is None,
            },
    {
        match &self.ttype {
            ButtonType::Simple { image, image_active } => {
                let chosen = if self.pressed { image_active } else { image };
                match chosen {
                    Some(s) => Some(s.as_str()),
                    None => None,
                }
            },
            _ => None,
        }
    }
}

} // verus!

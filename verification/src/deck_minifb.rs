//! A simulated deck in a window on the screen.
use vstd::prelude::*;

use crate::deck::{Deck, DeckCall, DeckError, report_of};

verus! {

#[allow(non_camel_case_types)]
pub struct Deck_Minifb {
    title: String,
    /// Width, in keys.
    width: u8,
    /// Height, in keys.
    height: u8,
    /// The requests the deck was given, with its answers.
    requests: Ghost<Seq<DeckCall>>,
}

impl Default for Deck_Minifb {
    /// A deck of no keys with an empty title.
    fn default() -> (d: Self)
        ensures
            d.title_text() == Seq::<char>::empty(),
            d.width_keys() == 0,
            d.height_keys() == 0,
            d.calls() == Seq::<DeckCall>::empty(),
    {
        Self { title: String::new(), width: 0, height: 0, requests: Ghost(Seq::empty()) }
    }
}

/// The side of one key on the screen, in pixels.
pub const BUTTON_SIZE: usize = 72;

impl Deck_Minifb {
    /// A simulated deck of `w` by `h` keys in a window titled `title`.
    pub fn new(title: &str, w: u8, h: u8) -> (d: Self)
        ensures
            d.title_text() == title@,
            d.width_keys() == w,
            d.height_keys() == h,
            d.calls() == Seq::<DeckCall>::empty(),
    {
        Self { title: String::from_str(title), width: w, height: h, requests: Ghost(Seq::empty()) }
    }

    pub closed spec fn title_text(&self) -> Seq<char> {
        self.title@
    }

    pub closed spec fn width_keys(&self) -> u8 {
        self.width
    }

    pub closed spec fn height_keys(&self) -> u8 {
        self.height
    }

    /// The title of the window.
    pub fn title(&self) -> (r: &str)
        ensures
            r@ == self.title_text(),
    {
        self.title.as_str()
    }

    /// The size of the window in pixels, width then height: one square of `BUTTON_SIZE` per key.
    pub fn window_size(&self) -> (r: (usize, usize))
        ensures
            r.0 == BUTTON_SIZE * self.width_keys(),
            r.1 == BUTTON_SIZE * self.height_keys(),
    {
        (BUTTON_SIZE * self.width as usize, BUTTON_SIZE * self.height as usize)
    }
}

impl Deck for Deck_Minifb {
    closed spec fn calls(&self) -> Seq<DeckCall> {
        self.requests@
    }

    open spec fn has_key(&self, index: u8) -> bool {
        true
    }

    fn key_exists(&self, index: u8) -> (r: bool) {
        true
    }

    /// Nothing to make ready here.
    fn run(&mut self) -> (r: Result<(), DeckError>)
        ensures
            r == Ok::<(), DeckError>(()),
            final(self).title_text() == old(self).title_text(),
            final(self).width_keys() == old(self).width_keys(),
            final(self).height_keys() == old(self).height_keys(),
    {
        proof {
            self.requests@ = self.requests@.push(DeckCall::Run(Ok(())));
        }
        Ok(())
    }

    /// Nothing happens between frames.
    fn update(&mut self) -> (r: Result<(), DeckError>)
        ensures
            r is Ok,
    {
        proof {
            self.requests@ = self.requests@.push(DeckCall::Update(Ok(())));
        }
        Ok(())
    }

    open spec fn is_done(&self) -> bool {
        false
    }

    fn done(&self) -> (r: bool) {
        false
    }

    /// Nothing works for this deck in the background here.
    open spec fn is_shut_down(&self) -> bool {
        true
    }

    /// There is nothing to stop.
    fn shutdown(&mut self) {
        proof {
            self.requests@ = self.requests@.push(DeckCall::Shutdown);
        }
    }

    /// The window shows no images.
    fn set_button_file(&mut self, index: u8, filename: &str) -> (r: Result<(), DeckError>)
        ensures
            r is Ok,
    {
        proof {
            self.requests@ = self.requests@.push(DeckCall::SetFile(index, filename@, Ok(())));
        }
        Ok(())
    }

    /// The window shows no colours.
    fn set_button_rgb(&mut self, index: u8, r: u8, g: u8, b: u8) -> (res: Result<(), DeckError>)
        ensures
            res is Ok,
    {
        proof {
            self.requests@ = self.requests@.push(DeckCall::SetRgb(index, r, g, b, Ok(())));
        }
        Ok(())
    }

    /// The window reports no keys.
    fn read_buttons(&mut self, timeout_ms: Option<u64>) -> (r: Result<Vec<u8>, DeckError>)
        ensures
            r matches Err(DeckError::NoButtons),
    {
        proof {
            self.requests@ = self.requests@.push(DeckCall::Read(timeout_ms, Err(DeckError::NoButtons)));
        }
        Err(DeckError::NoButtons)
    }
}

} // verus!

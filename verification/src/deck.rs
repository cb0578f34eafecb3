//! What the program asks of a deck of keys, real or simulated.
use vstd::prelude::*;

verus! {

/// Why a deck could not do what was asked.
#[derive(Debug)]
pub enum DeckError {
    /// No Stream Deck among the devices.
    NotFound,
    /// The task that talks to the device is gone.
    Disconnected,
    /// No new state of the keys since the last update (not a failure: nothing happened).
    NoButtonsChanged,
    /// This deck has no keys to read.
    NoButtons,
}

/// One request a deck was given, with its answer.
pub enum DeckCall {
    Run(Result<(), DeckError>),
    Update(Result<(), DeckError>),
    SetFile(u8, Seq<char>, Result<(), DeckError>),
    SetRgb(u8, u8, u8, u8, Result<(), DeckError>),
    /// A read of the keys, waiting at most the given milliseconds: their state (non-zero: held
    /// down), or why there is none.
    Read(Option<u64>, Result<Seq<u8>, DeckError>),
    Shutdown,
}

/// The value of the answer to a read of the keys.
pub open spec fn report_of(r: Result<Vec<u8>, DeckError>) -> Result<Seq<u8>, DeckError> {
    match r {
        Ok(v) => Ok(v@),
        Err(e) => Err(e),
    }
}

/// A deck of keys: it shows images or colours on its keys and reports which are held down.
/// Each deck keeps the requests it was given, in order, with its answers (`calls`).
pub trait Deck {
    /// The requests this deck was given, in order, each with its answer.
    spec fn calls(&self) -> Seq<DeckCall>;

    /// Whether the deck has a key at `index` that images and colours can be set on.
    spec fn has_key(&self, index: u8) -> bool;

    fn key_exists(&self, index: u8) -> (r: bool)
        ensures
            r == self.has_key(index),
    ;

    /// Makes the deck ready.
    fn run(&mut self) -> (r: Result<(), DeckError>)
        ensures
            final(self).calls() == old(self).calls().push(DeckCall::Run(r)),
    ;

    /// Takes in what happened since the last update.
    fn update(&mut self) -> (r: Result<(), DeckError>)
        ensures
            final(self).calls() == old(self).calls().push(DeckCall::Update(r)),
            forall|i: u8| final(self).has_key(i) == old(self).has_key(i),
    ;

    /// Whether the deck has nothing more to do (its window closed, say).
    spec fn is_done(&self) -> bool;

    fn done(&self) -> (r: bool)
        ensures
            r == self.is_done(),
    ;

    /// Whether nothing works for the deck in the background any more (or can be asked to).
    spec fn is_shut_down(&self) -> bool;

    /// Lets whatever works for the deck in the background stop.
    fn shutdown(&mut self)
        ensures
            final(self).is_shut_down(),
            final(self).calls() == old(self).calls().push(DeckCall::Shutdown),
    ;

    /// Shows the image file `filename` on key `index`.
    fn set_button_file(&mut self, index: u8, filename: &str) -> (r: Result<(), DeckError>)
        requires
            old(self).has_key(index),
        ensures
            final(self).calls() == old(self).calls().push(DeckCall::SetFile(index, filename@, r)),
            forall|i: u8| final(self).has_key(i) == old(self).has_key(i),
    ;

    /// Fills key `index` with one colour.
    fn set_button_rgb(&mut self, index: u8, r: u8, g: u8, b: u8) -> (res: Result<(), DeckError>)
        requires
            old(self).has_key(index),
        ensures
            final(self).calls() == old(self).calls().push(DeckCall::SetRgb(index, r, g, b, res)),
            forall|i: u8| final(self).has_key(i) == old(self).has_key(i),
    ;

    /// The state of each key (non-zero: held down), where there is news of it, waiting at most
    /// `timeout_ms` milliseconds.
    fn read_buttons(&mut self, timeout_ms: Option<u64>) -> (r: Result<Vec<u8>, DeckError>)
        ensures
            final(self).calls() == old(self).calls().push(DeckCall::Read(timeout_ms, report_of(r))),
            forall|i: u8| final(self).has_key(i) == old(self).has_key(i),
    ;
}

} // verus!

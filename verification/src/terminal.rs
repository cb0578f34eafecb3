//! Keyboard input from the terminal.
use vstd::prelude::*;

verus! {

#[derive(Debug)]
pub struct Terminal {
    number_key_status: Vec<u8>,
}

/// The state of the ten number keys once the terminal is made ready: the first ten kept, the
/// missing ones up (zero).
pub open spec fn ten_keys(s: Seq<u8>) -> Seq<u8> {
    if s.len() >= 10 {
        s.take(10)
    } else {
        s + Seq::new((10 - s.len()) as nat, |i: int| 0u8)
    }
}

impl Default for Terminal {
    /// A terminal whose number keys are not made ready yet.
    fn default() -> (t: Terminal)
        ensures
            t.key_status() == Seq::<u8>::empty(),
    {
        Terminal { number_key_status: Vec::new() }
    }
}

impl Terminal {
    pub closed spec fn key_status(&self) -> Seq<u8> {
        self.number_key_status@
    }

    /// Makes room for the state of the ten number keys.
    pub fn prepare_keys(&mut self)
        ensures
            final(self).key_status() == ten_keys(old(self).key_status()),
    {
        let ghost before = self.number_key_status@;
        if self.number_key_status.len() >= 10 {
            self.number_key_status.truncate(10);
        } else {
            while self.number_key_status.len() < 10
                invariant
                    before.len() <= self.number_key_status@.len() <= 10,
                    self.number_key_status@.subrange(0, before.len() as int) == before,
                    forall|i: int|
                        before.len() <= i < self.number_key_status@.len() ==> #[trigger] self.number_key_status@[i] == 0,
                decreases 10 - self.number_key_status.len(),
            {
                self.number_key_status.push(0);
            }
        }
        assert(self.number_key_status@ == ten_keys(before));
    }

    /// Whether a key typed on the terminal asks the program to exit: `c` with Control and no
    /// other modifier.
    pub fn exit_requested(code: Option<char>, control_only: bool) -> (r: bool)
        ensures
            r == (code == Some('c') && control_only),
    {
        match code {
            Some(c) => c == 'c' && control_only,
            None => false,
        }
    }

    pub fn number_key_status(&self) -> (r: &Vec<u8>)
        ensures
            r@ == self.key_status(),
    {
        &self.number_key_status
    }
}

} // verus!

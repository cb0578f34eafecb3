//! A page: which button stands on which key.
use vstd::prelude::*;

use crate::config::{PageConfig, ConfigError, opt_text};
use crate::text::same_text;

verus! {

#[derive(Debug)]
pub struct Page {
    name: String,
    buttons: Vec<Option<String>>,
}

/// The value of a [`Page`]: its name and, key by key, the name of the button there.
pub struct PageView {
    pub name: Seq<char>,
    pub buttons: Seq<Option<Seq<char>>>,
}

impl View for Page {
    type V = PageView;

    closed spec fn view(&self) -> PageView {
        PageView { name: self.name@, buttons: self.buttons@.map_values(|b: Option<String>| opt_text(b)) }
    }
}

/// The button a page's entry names: the text `None` names none.
pub open spec fn key_entry(text: Seq<char>) -> Option<Seq<char>> {
    if text == "None"@ {
        None
    } else {
        Some(text)
    }
}

/// The page that a page's configuration describes.
pub open spec fn page_of(config: PageConfig) -> PageView {
    PageView {
        name: config.name@,
        buttons: config.buttons@.map_values(|s: String| key_entry(s@)),
    }
}

impl Default for Page {
    /// A page without a name or keys.
    fn default() -> (p: Page)
        ensures
            p@.name == Seq::<char>::empty(),
            p@.buttons == Seq::<Option<Seq<char>>>::empty(),
    {
        let p = Page { name: String::new(), buttons: Vec::new() };
        assert(p@.buttons =~= Seq::<Option<Seq<char>>>::empty());
        p
    }
}

impl Page {
    /// The page that `config` describes; this never fails.
    pub fn from_config(config: &PageConfig) -> (r: Result<Page, ConfigError>)
        ensures
            r matches Ok(p) && p@ == page_of(*config),
    {
        let mut buttons: Vec<Option<String>> = Vec::new();
        let mut i: usize = 0;
        while i < config.buttons.len()
            invariant
                i <= config.buttons@.len(),
                buttons@.len() == i,
                forall|k: int| 0 <= k < i ==> opt_text(#[trigger] buttons@[k]) == key_entry(config.buttons@[k]@),
            decreases config.buttons.len() - i,
        {
            let bn = &config.buttons[i];
            if same_text(bn.as_str(), "None") {
                buttons.push(None);
            } else {
                buttons.push(Some(bn.clone()));
            }
            i = i + 1;
        }
        let p = Page { name: config.name.clone(), buttons };
        assert(p@.buttons == page_of(*config).buttons);
        Ok(p)
    }

    pub fn name(&self) -> (r: &str)
        ensures
            r@ == self@.name,
    {
        self.name.as_str()
    }

    pub fn buttons(&self) -> (r: &Vec<Option<String>>)
        ensures
            r@.map_values(|b: Option<String>| opt_text(b)) == self@.buttons,
    {
        &self.buttons
    }
}

} // verus!

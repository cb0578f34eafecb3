//! The actions a button can trigger, and the text form they take in a configuration.
use vstd::prelude::*;

use crate::text::{decimal_u8, parse_decimal_u8, same_text};
use crate::trusted::{captures, groups_view, regex_captures};

verus! {

/// Something a button asks the program to do.
#[derive(Debug, Clone)]
pub enum Action {
    NoOp,
    /// Fill every key with one colour (overwritten by the next frame's images).
    Clear(u8, u8, u8),
    Shutdown,
    HttpGet(String),
    /// Switch the OBS instance at the given address to the given (url-encoded) scene.
    ObsScene(String, String),
    /// Send an OSC message (second field: its address pattern) to a host (first field).
    OscSend(String, String),
}

/// The mathematical value of an [`Action`].
pub enum ActionView {
    NoOp,
    Clear(u8, u8, u8),
    Shutdown,
    HttpGet(Seq<char>),
    ObsScene(Seq<char>, Seq<char>),
    OscSend(Seq<char>, Seq<char>),
}

impl View for Action {
    type V = ActionView;

    open spec fn view(&self) -> ActionView {
        match self {
            Action::NoOp => ActionView::NoOp,
            Action::Clear(r, g, b) => ActionView::Clear(*r, *g, *b),
            Action::Shutdown => ActionView::Shutdown,
            Action::HttpGet(u) => ActionView::HttpGet(u@),
            Action::ObsScene(a, s) => ActionView::ObsScene(a@, s@),
            Action::OscSend(h, m) => ActionView::OscSend(h@, m@),
        }
    }
}

impl Default for Action {
    fn default() -> (a: Action)
        ensures
            a@ == ActionView::NoOp,
    {
        Action::NoOp
    }
}

/// The pattern of a `Clear(r, g, b)` action.
pub open spec fn clear_pattern() -> Seq<char> {
    r"^Clear\(\s*(\d+)\s*,\s*(\d+)\s*,\s*(\d+)\s*\)$"@
}

/// The pattern of an `HttpGet(url)` action.
pub open spec fn httpget_pattern() -> Seq<char> {
    r"^HttpGet\(\s*(http://.*)\s*\)$"@
}

/// The pattern of an `ObsScene(address, scene)` action.
pub open spec fn obsscene_pattern() -> Seq<char> {
    r"^ObsScene\(\s*(.+)\s*,\s*(.+)\s*\)$"@
}

/// The pattern of an `OscSend(host, message)` action.
pub open spec fn oscsend_pattern() -> Seq<char> {
    r"^OscSend\(\s*(.+)\s*,\s*(.+)\s*\)$"@
}

/// A colour component of `Clear`: the group read as a decimal `u8`, or `default` where it is
/// not one.
pub open spec fn component_or(group: Seq<char>, default: u8) -> u8 {
    match decimal_u8(group) {
        Some(v) => v,
        None => default,
    }
}

/// The action that the groups of a `Clear` match stand for. `None` where a group that the
/// pattern needs took no part in the match.
pub open spec fn clear_from_groups(c: Seq<Option<Seq<char>>>) -> Option<ActionView> {
    if c.len() == 4 {
        if c[1] is Some && c[2] is Some && c[3] is Some {
            Some(
                ActionView::Clear(
                    component_or(c[1]->0, 200),
                    component_or(c[2]->0, 50),
                    component_or(c[3]->0, 200),
                ),
            )
        } else {
            None
        }
    } else {
        Some(ActionView::Clear(200, 50, 200))
    }
}

/// The action that the groups of an `HttpGet` match stand for.
pub open spec fn httpget_from_groups(c: Seq<Option<Seq<char>>>) -> Option<ActionView> {
    if c.len() == 2 && c[1] is Some {
        Some(ActionView::HttpGet(c[1]->0))
    } else {
        None
    }
}

/// The action that the groups of an `ObsScene` match stand for.
pub open spec fn obsscene_from_groups(c: Seq<Option<Seq<char>>>) -> Option<ActionView> {
    if c.len() == 3 && c[1] is Some && c[2] is Some {
        Some(ActionView::ObsScene(c[1]->0, c[2]->0))
    } else {
        None
    }
}

/// The action that the groups of an `OscSend` match stand for.
pub open spec fn oscsend_from_groups(c: Seq<Option<Seq<char>>>) -> Option<ActionView> {
    if c.len() == 3 && c[1] is Some && c[2] is Some {
        Some(ActionView::OscSend(c[1]->0, c[2]->0))
    } else {
        None
    }
}

/// The action that `text` reads as, given what each of the four patterns captures in it.
pub open spec fn action_from_matches(
    text: Seq<char>,
    clear: Option<Seq<Option<Seq<char>>>>,
    httpget: Option<Seq<Option<Seq<char>>>>,
    obsscene: Option<Seq<Option<Seq<char>>>>,
    oscsend: Option<Seq<Option<Seq<char>>>>,
) -> ActionView {
    if text == "Clear"@ {
        ActionView::Clear(0, 0, 0)
    } else if text == "Shutdown"@ {
        ActionView::Shutdown
    } else if clear is Some && clear_from_groups(clear->0) is Some {
        clear_from_groups(clear->0)->0
    } else if httpget is Some && httpget_from_groups(httpget->0) is Some {
        httpget_from_groups(httpget->0)->0
    } else if obsscene is Some && obsscene_from_groups(obsscene->0) is Some {
        obsscene_from_groups(obsscene->0)->0
    } else if oscsend is Some && oscsend_from_groups(oscsend->0) is Some {
        oscsend_from_groups(oscsend->0)->0
    } else {
        ActionView::NoOp
    }
}

/// The action that the text of a configuration entry reads as.
pub open spec fn action_of(text: Seq<char>) -> ActionView {
    action_from_matches(
        text,
        regex_captures(clear_pattern(), text),
        regex_captures(httpget_pattern(), text),
        regex_captures(obsscene_pattern(), text),
        regex_captures(oscsend_pattern(), text),
    )
}

/// Text that is neither keyword, where the `Clear` pattern captures three groups that read as
/// the decimal numbers `r`, `g` and `b`, reads as `Clear(r, g, b)`: each colour is the number
/// written, zero included, whatever the other patterns find.
pub proof fn lemma_clear_reads_its_numbers(
    text: Seq<char>,
    groups: Seq<Option<Seq<char>>>,
    httpget: Option<Seq<Option<Seq<char>>>>,
    obsscene: Option<Seq<Option<Seq<char>>>>,
    oscsend: Option<Seq<Option<Seq<char>>>>,
    r: u8,
    g: u8,
    b: u8,
)
    requires
        text != "Clear"@,
        text != "Shutdown"@,
        groups.len() == 4,
        groups[1] is Some && decimal_u8(groups[1]->0) == Some(r),
        groups[2] is Some && decimal_u8(groups[2]->0) == Some(g),
        groups[3] is Some && decimal_u8(groups[3]->0) == Some(b),
    ensures
        action_from_matches(text, Some(groups), httpget, obsscene, oscsend) == ActionView::Clear(r, g, b),
{
}

/// The value of a capture group that took part in the match.
fn group(c: &Vec<Option<String>>, i: usize) -> (r: Option<String>)
    requires
        i < c@.len(),
    ensures
        match r {
            Some(s) => c@[i as int] is Some && s@ == (c@[i as int]->0)@,
            None => c@[i as int] is None,
        },
{
    match &c[i] {
        Some(s) => Some(s.clone()),
        None => None,
    }
}

fn clear_from_captures(c: Option<Vec<Option<String>>>) -> (r: Option<Action>)
    ensures
        match groups_view(c) {
            None => r is None,
            Some(g) => match clear_from_groups(g) {
                None => r is None,
                Some(a) => r matches Some(x) && x@ == a,
            },
        },
{
    let c = match c {
        Some(c) => c,
        None => return None,
    };
    let ghost g = groups_view(Some(c))->0;
    assert(g.len() == c@.len());
    if c.len() == 4 {
        let r = group(&c, 1);
        let gr = group(&c, 2);
        let b = group(&c, 3);
        assert(g[1] == (match c@[1] { Some(s) => Some(s@), None => None::<Seq<char>> }));
        assert(g[2] == (match c@[2] { Some(s) => Some(s@), None => None::<Seq<char>> }));
        assert(g[3] == (match c@[3] { Some(s) => Some(s@), None => None::<Seq<char>> }));
        match (r, gr, b) {
            (Some(r), Some(gr), Some(b)) => {
                let r = match parse_decimal_u8(r.as_str()) { Some(v) => v, None => 200 };
                let gr = match parse_decimal_u8(gr.as_str()) { Some(v) => v, None => 50 };
                let b = match parse_decimal_u8(b.as_str()) { Some(v) => v, None => 200 };
                Some(Action::Clear(r, gr, b))
            },
            _ => None,
        }
    } else {
        Some(Action::Clear(200, 50, 200))
    }
}

fn httpget_from_captures(c: Option<Vec<Option<String>>>) -> (r: Option<Action>)
    ensures
        match groups_view(c) {
            None => r is None,
            Some(g) => match httpget_from_groups(g) {
                None => r is None,
                Some(a) => r matches Some(x) && x@ == a,
            },
        },
{
    let c = match c {
        Some(c) => c,
        None => return None,
    };
    let ghost g = groups_view(Some(c))->0;
    assert(g.len() == c@.len());
    if c.len() == 2 {
        assert(g[1] == (match c@[1] { Some(s) => Some(s@), None => None::<Seq<char>> }));
        match group(&c, 1) {
            Some(url) => Some(Action::HttpGet(url)),
            None => None,
        }
    } else {
        None
    }
}

/// The two groups of a match of a two-argument pattern, where both took part.
fn two_groups(c: &Vec<Option<String>>) -> (r: Option<(String, String)>)
    ensures
        match groups_view(Some(*c)) {
            Some(g) => if g.len() == 3 && g[1] is Some && g[2] is Some {
                r matches Some(p) && p.0@ == g[1]->0 && p.1@ == g[2]->0
            } else {
                r is None
            },
            None => false,
        },
{
    let ghost g = groups_view(Some(*c))->0;
    assert(g.len() == c@.len());
    if c.len() == 3 {
        assert(g[1] == (match c@[1] { Some(s) => Some(s@), None => None::<Seq<char>> }));
        assert(g[2] == (match c@[2] { Some(s) => Some(s@), None => None::<Seq<char>> }));
        match (group(c, 1), group(c, 2)) {
            (Some(a), Some(b)) => Some((a, b)),
            _ => None,
        }
    } else {
        None
    }
}

fn obsscene_from_captures(c: Option<Vec<Option<String>>>) -> (r: Option<Action>)
    ensures
        match groups_view(c) {
            None => r is None,
            Some(g) => match obsscene_from_groups(g) {
                None => r is None,
                Some(a) => r matches Some(x) && x@ == a,
            },
        },
{
    match c {
        Some(c) => match two_groups(&c) {
            Some((address, scene)) => Some(Action::ObsScene(address, scene)),
            None => None,
        },
        None => None,
    }
}

fn oscsend_from_captures(c: Option<Vec<Option<String>>>) -> (r: Option<Action>)
    ensures
        match groups_view(c) {
            None => r is None,
            Some(g) => match oscsend_from_groups(g) {
                None => r is None,
                Some(a) => r matches Some(x) && x@ == a,
            },
        },
{
    match c {
        Some(c) => match two_groups(&c) {
            Some((host, message)) => Some(Action::OscSend(host, message)),
            None => None,
        },
        None => None,
    }
}

impl Action {
    /// The action that `v` reads as, given the groups that each of the four patterns captures
    /// in it (`None` where a pattern does not match): `Clear` and `Shutdown` by name, then the
    /// patterns in turn; text that none of them fits is [`Action::NoOp`].
    pub fn from_matches(
        v: &str,
        clear: Option<Vec<Option<String>>>,
        httpget: Option<Vec<Option<String>>>,
        obsscene: Option<Vec<Option<String>>>,
        oscsend: Option<Vec<Option<String>>>,
    ) -> (a: Action)
        ensures
            a@ == action_from_matches(
                v@,
                groups_view(clear),
                groups_view(httpget),
                groups_view(obsscene),
                groups_view(oscsend),
            ),
    {
        if same_text(v, "Clear") {
            Action::Clear(0, 0, 0)
        } else if same_text(v, "Shutdown") {
            Action::Shutdown
        } else if let Some(a) = clear_from_captures(clear) {
            a
        } else if let Some(a) = httpget_from_captures(httpget) {
            a
        } else if let Some(a) = obsscene_from_captures(obsscene) {
            a
        } else if let Some(a) = oscsend_from_captures(oscsend) {
            a
        } else {
            Action::NoOp
        }
    }

    /// Reads the text of a configuration entry as an action: `Clear` and `Shutdown` by name,
    /// then the four patterns in turn; text that none of them fits is [`Action::NoOp`].
    pub fn parse(v: &str) -> (a: Action)
        ensures
            a@ == action_of(v@),
    {
        let clear = captures(r"^Clear\(\s*(\d+)\s*,\s*(\d+)\s*,\s*(\d+)\s*\)$", v);
        let httpget = captures(r"^HttpGet\(\s*(http://.*)\s*\)$", v);
        let obsscene = captures(r"^ObsScene\(\s*(.+)\s*,\s*(.+)\s*\)$", v);
        let oscsend = captures(r"^OscSend\(\s*(.+)\s*,\s*(.+)\s*\)$", v);
        Action::from_matches(v, clear, httpget, obsscene, oscsend)
    }

    /// [`Action::parse`] on the text of a `String`.
    pub fn parse_string(v: &String) -> (a: Action)
        ensures
            a@ == action_of(v@),
    {
        Action::parse(v.as_str())
    }

    /// A copy of this action with the same value.
    pub fn duplicate(&self) -> (a: Action)
        ensures
            a@ == self@,
    {
        match self {
            Action::NoOp => Action::NoOp,
            Action::Clear(r, g, b) => Action::Clear(*r, *g, *b),
            Action::Shutdown => Action::Shutdown,
            Action::HttpGet(u) => Action::HttpGet(u.clone()),
            Action::ObsScene(a, s) => Action::ObsScene(a.clone(), s.clone()),
            Action::OscSend(h, m) => Action::OscSend(h.clone(), m.clone()),
        }
    }
}

impl<'a> From<&'a str> for Action {
    /// [`Action::parse`].
    fn from(v: &'a str) -> (a: Action)
        ensures
            a@ == action_of(v@),
    {
        Action::parse(v)
    }
}

impl<'a> vstd::std_specs::convert::FromSpecImpl<&'a str> for Action {
    /// The value of an action is pinned down by `from`'s own contract; no `Action` value (with
    /// its strings) is written out here.
    open spec fn obeys_from_spec() -> bool {
        false
    }

    open spec fn from_spec(v: &'a str) -> Action {
        Action::NoOp
    }
}

impl<'a> From<&'a String> for Action {
    /// [`Action::parse_string`].
    fn from(v: &'a String) -> (a: Action)
        ensures
            a@ == action_of(v@),
    {
        Action::parse_string(v)
    }
}

impl<'a> vstd::std_specs::convert::FromSpecImpl<&'a String> for Action {
    open spec fn obeys_from_spec() -> bool {
        false
    }

    open spec fn from_spec(v: &'a String) -> Action {
        Action::NoOp
    }
}

} // verus!

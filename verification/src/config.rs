//! The configuration: buttons and pages, and the expansion of `${env:NAME}` references in the
//! actions of a button's events.
use vstd::prelude::*;

use crate::trusted::{captures, groups_view, regex_captures};

verus! {

/// The actions of one event of a button (a press or a release).
#[derive(Debug)]
pub struct EventConfig {
    pub http_request: Option<String>,
    pub actions: Option<Vec<String>>,
}

/// One button as the configuration describes it.
#[derive(Debug)]
pub struct ButtonConfig {
    pub name: String,
    /// The button's kind (`type` in the configuration file).
    pub ttype: String,
    pub image: Option<String>,
    pub image_active: Option<String>,
    pub on_press: Option<EventConfig>,
    pub on_release: Option<EventConfig>,
}

/// One page: a name and, key by key, the name of the button shown there (`"None"` for none).
#[derive(Debug)]
pub struct PageConfig {
    pub name: String,
    pub buttons: Vec<String>,
}

/// The whole configuration.
#[derive(Debug)]
pub struct Config {
    buttons: Vec<ButtonConfig>,
    pages: Vec<PageConfig>,
}

impl Default for EventConfig {
    fn default() -> (e: EventConfig)
        ensures
            e.http_request is None,
            e.actions is None,
    {
        EventConfig { http_request: None, actions: None }
    }
}

impl Default for ButtonConfig {
    fn default() -> (b: ButtonConfig)
        ensures
            b.name@ == Seq::<char>::empty(),
            b.ttype@ == Seq::<char>::empty(),
            b.image is None,
            b.image_active is None,
            b.on_press is None,
            b.on_release is None,
    {
        ButtonConfig {
            name: String::new(),
            ttype: String::new(),
            image: None,
            image_active: None,
            on_press: None,
            on_release: None,
        }
    }
}

impl Default for PageConfig {
    fn default() -> (p: PageConfig)
        ensures
            p.name@ == Seq::<char>::empty(),
            p.buttons@ == Seq::<String>::empty(),
    {
        PageConfig { name: String::new(), buttons: Vec::new() }
    }
}

/// An environment variable as it was found when the configuration was read.
pub type EnvEntry = (String, String);

/// Why an expansion of `${env:NAME}` failed.
#[derive(Debug)]
pub enum ExpandError {
    /// The environment has no variable of this name.
    MissingVariable(String),
    /// The pattern matched without one of the groups that the expansion reads.
    MalformedMatch,
    /// The count of expansions in one action would overflow an `i32`.
    TooManyExpansions,
}

/// Why a part of the configuration cannot become a button or a page.
#[derive(Debug)]
pub enum ConfigError {
    /// A button of a type other than `simple`.
    UnsupportedButtonType(String),
}

/// The value of an [`ExpandError`].
pub enum ExpandFailure {
    MissingVariable(Seq<char>),
    MalformedMatch,
    TooManyExpansions,
}

impl View for ExpandError {
    type V = ExpandFailure;

    open spec fn view(&self) -> ExpandFailure {
        match self {
            ExpandError::MissingVariable(n) => ExpandFailure::MissingVariable(n@),
            ExpandError::MalformedMatch => ExpandFailure::MalformedMatch,
            ExpandError::TooManyExpansions => ExpandFailure::TooManyExpansions,
        }
    }
}

/// The texts of a list of strings.
pub open spec fn texts(v: Seq<String>) -> Seq<Seq<char>> {
    v.map_values(|s: String| s@)
}

/// The text of an optional string.
pub open spec fn opt_text(o: Option<String>) -> Option<Seq<char>> {
    match o {
        Some(s) => Some(s@),
        None => None,
    }
}

/// The pattern of a reference to an environment variable inside an action.
pub open spec fn env_pattern() -> Seq<char> {
    r"^(.*)(\$\{env:(.+)\})(.*)$"@
}

/// What the pattern finds in a text: nothing, a match without the groups that the expansion
/// reads, or the text before the reference, the variable's name and the text after it.
pub enum EnvReference {
    Absent,
    Malformed,
    Found(Seq<char>, Seq<char>, Seq<char>),
}

/// The reference that the groups captured by the pattern stand for (`None`: no match).
pub open spec fn reference_in(groups: Option<Seq<Option<Seq<char>>>>) -> EnvReference {
    match groups {
        None => EnvReference::Absent,
        Some(c) => if c.len() >= 5 && c[1] is Some && c[3] is Some && c[4] is Some {
            EnvReference::Found(c[1]->0, c[3]->0, c[4]->0)
        } else {
            EnvReference::Malformed
        },
    }
}

/// The reference to an environment variable that `text` holds.
pub open spec fn env_reference(text: Seq<char>) -> EnvReference {
    reference_in(regex_captures(env_pattern(), text))
}

/// The text that one replacement of the reference found by a match makes, or why there is none.
pub open spec fn replaced(groups: Seq<Option<Seq<char>>>, env: Seq<EnvEntry>) -> Result<Seq<char>, ExpandFailure> {
    match reference_in(Some(groups)) {
        EnvReference::Found(prefix, name, suffix) => match env_lookup(env, name) {
            None => Err(ExpandFailure::MissingVariable(name)),
            Some(value) => Ok(prefix + value + suffix),
        },
        _ => Err(ExpandFailure::MalformedMatch),
    }
}

/// The value of the first variable of the environment named `name`.
pub open spec fn env_lookup(env: Seq<EnvEntry>, name: Seq<char>) -> Option<Seq<char>>
    decreases env.len(),
{
    if env.len() == 0 {
        None
    } else if env[0].0@ == name {
        Some(env[0].1@)
    } else {
        env_lookup(env.drop_first(), name)
    }
}

/// The text that `text` becomes once every reference is replaced, one at a time, by the
/// variable's value, `count` expansions having been made already.
pub open spec fn expand_text(text: Seq<char>, env: Seq<EnvEntry>, count: int) -> Result<
    Seq<char>,
    ExpandFailure,
>
    decreases i32::MAX - count,
{
    match env_reference(text) {
        EnvReference::Absent => Ok(text),
        EnvReference::Malformed => Err(ExpandFailure::MalformedMatch),
        EnvReference::Found(prefix, name, suffix) => match env_lookup(env, name) {
            None => Err(ExpandFailure::MissingVariable(name)),
            Some(value) => if count < 0 || count >= i32::MAX {
                Err(ExpandFailure::TooManyExpansions)
            } else {
                expand_text(prefix + value + suffix, env, count + 1)
            },
        },
    }
}

/// The texts that a list of actions becomes; the first failure, in order, where one fails.
pub open spec fn expand_all(actions: Seq<Seq<char>>, env: Seq<EnvEntry>) -> Result<
    Seq<Seq<char>>,
    ExpandFailure,
>
    decreases actions.len(),
{
    if actions.len() == 0 {
        Ok(Seq::empty())
    } else {
        match expand_all(actions.drop_last(), env) {
            Err(e) => Err(e),
            Ok(done) => match expand_text(actions.last(), env, 0) {
                Err(e) => Err(e),
                Ok(t) => Ok(done.push(t)),
            },
        }
    }
}

/// Where an event's actions fail to expand: the first failure, if any.
pub open spec fn event_failure(ec: Option<EventConfig>, env: Seq<EnvEntry>) -> Option<
    ExpandFailure,
> {
    match ec {
        Some(e) => match e.actions {
            Some(a) => match expand_all(texts(a@), env) {
                Err(f) => Some(f),
                Ok(_) => None,
            },
            None => None,
        },
        None => None,
    }
}

/// `new` is `old` with its actions expanded.
pub open spec fn event_expanded(old: Option<EventConfig>, new: Option<EventConfig>, env: Seq<EnvEntry>) -> bool {
    match old {
        None => new is None,
        Some(o) => new matches Some(n) && n.http_request == o.http_request && match o.actions {
            None => n.actions is None,
            Some(a) => n.actions matches Some(b) && expand_all(texts(a@), env) == Ok::<
                Seq<Seq<char>>,
                ExpandFailure,
            >(texts(b@)),
        },
    }
}

/// The first failure in a button's events: its press first, then its release.
pub open spec fn button_failure(bc: ButtonConfig, env: Seq<EnvEntry>) -> Option<ExpandFailure> {
    match event_failure(bc.on_press, env) {
        Some(f) => Some(f),
        None => event_failure(bc.on_release, env),
    }
}

/// `new` is `old` with the actions of both its events expanded.
pub open spec fn button_expanded(old: ButtonConfig, new: ButtonConfig, env: Seq<EnvEntry>) -> bool {
    &&& new.name == old.name
    &&& new.ttype == old.ttype
    &&& new.image == old.image
    &&& new.image_active == old.image_active
    &&& event_expanded(old.on_press, new.on_press, env)
    &&& event_expanded(old.on_release, new.on_release, env)
}

/// The first failure among the buttons, in order.
pub open spec fn buttons_failure(bcs: Seq<ButtonConfig>, env: Seq<EnvEntry>) -> Option<
    ExpandFailure,
>
    decreases bcs.len(),
{
    if bcs.len() == 0 {
        None
    } else {
        match buttons_failure(bcs.drop_last(), env) {
            Some(f) => Some(f),
            None => button_failure(bcs.last(), env),
        }
    }
}

/// While fewer than `i32::MAX` expansions have been made, expanding a text that holds a
/// reference to a variable of `env` is expanding the text with that reference replaced by the
/// variable's value; so a text with any number of references below that limit, all to known
/// variables, never fails for their number.
pub proof fn lemma_expansion_step(
    text: Seq<char>,
    env: Seq<EnvEntry>,
    count: int,
    prefix: Seq<char>,
    name: Seq<char>,
    suffix: Seq<char>,
    value: Seq<char>,
)
    requires
        0 <= count < i32::MAX,
        env_reference(text) == EnvReference::Found(prefix, name, suffix),
        env_lookup(env, name) == Some(value),
    ensures
        expand_text(text, env, count) == expand_text(prefix + value + suffix, env, count + 1),
{
}

/// A reference to a variable that `env` lacks fails with that variable's name, whatever the
/// count of expansions made.
pub proof fn lemma_missing_variable_fails(text: Seq<char>, env: Seq<EnvEntry>, count: int, prefix: Seq<char>, name: Seq<char>, suffix: Seq<char>)
    requires
        env_reference(text) == EnvReference::Found(prefix, name, suffix),
        forall|i: int| 0 <= i < env.len() ==> (#[trigger] env[i]).0@ != name,
    ensures
        expand_text(text, env, count) == Err::<Seq<char>, ExpandFailure>(ExpandFailure::MissingVariable(name)),
{
    lemma_lookup_first(env, name);
}

/// Looking a name up in `env` gives the value of the first variable of that name, and nothing
/// where there is none.
pub proof fn lemma_lookup_first(env: Seq<EnvEntry>, name: Seq<char>)
    ensures
        match env_lookup(env, name) {
            Some(v) => exists|i: int|
                0 <= i < env.len() && (#[trigger] env[i]).0@ == name && env[i].1@ == v && forall|j: int|
                    0 <= j < i ==> (#[trigger] env[j]).0@ != name,
            None => forall|i: int| 0 <= i < env.len() ==> (#[trigger] env[i]).0@ != name,
        },
    decreases env.len(),
{
    if env.len() > 0 {
        let rest = env.drop_first();
        lemma_lookup_first(rest, name);
        if env[0].0@ != name {
            match env_lookup(rest, name) {
                Some(v) => {
                    let i = choose|i: int|
                        0 <= i < rest.len() && (#[trigger] rest[i]).0@ == name && rest[i].1@ == v && forall|j: int|
                            0 <= j < i ==> (#[trigger] rest[j]).0@ != name;
                    assert(env[i + 1] == rest[i]);
                    assert forall|j: int| 0 <= j < i + 1 implies (#[trigger] env[j]).0@ != name by {
                        if j > 0 {
                            assert(env[j] == rest[j - 1]);
                        }
                    }
                },
                None => {
                    assert forall|i: int| 0 <= i < env.len() implies (#[trigger] env[i]).0@ != name by {
                        if i > 0 {
                            assert(env[i] == rest[i - 1]);
                        }
                    }
                },
            }
        }
    }
}

/// A text without a reference to an environment variable expands to itself.
pub proof fn lemma_plain_text_unchanged(text: Seq<char>, env: Seq<EnvEntry>, count: int)
    requires
        env_reference(text) is Absent,
    ensures
        expand_text(text, env, count) == Ok::<Seq<char>, ExpandFailure>(text),
{
}

/// What a successful expansion gives holds no reference to an environment variable any more.
pub proof fn lemma_expansion_leaves_no_reference(text: Seq<char>, env: Seq<EnvEntry>, count: int)
    ensures
        expand_text(text, env, count) matches Ok(r) ==> env_reference(r) is Absent,
    decreases i32::MAX - count,
{
    match env_reference(text) {
        EnvReference::Found(prefix, name, suffix) => {
            if let Some(value) = env_lookup(env, name) {
                if 0 <= count < i32::MAX {
                    lemma_expansion_leaves_no_reference(prefix + value + suffix, env, count + 1);
                }
            }
        },
        _ => {},
    }
}

/// Expanding a list of actions keeps their number and order: each is expanded on its own.
pub proof fn lemma_expand_all_each(actions: Seq<Seq<char>>, env: Seq<EnvEntry>)
    ensures
        expand_all(actions, env) matches Ok(r) ==> r.len() == actions.len() && forall|i: int|
            0 <= i < actions.len() ==> expand_text(#[trigger] actions[i], env, 0) == Ok::<
                Seq<char>,
                ExpandFailure,
            >(r[i]),
    decreases actions.len(),
{
    if actions.len() > 0 {
        lemma_expand_all_each(actions.drop_last(), env);
        if let Ok(r) = expand_all(actions, env) {
            assert forall|i: int| 0 <= i < actions.len() implies expand_text(#[trigger] actions[i], env, 0) == Ok::<
                Seq<char>,
                ExpandFailure,
            >(r[i]) by {
                if i < actions.len() - 1 {
                    assert(actions.drop_last()[i] == actions[i]);
                }
            }
        }
    }
}

/// What a successful expansion of a list of actions gives expands to itself.
pub proof fn lemma_expanded_list_is_fixed(actions: Seq<Seq<char>>, env: Seq<EnvEntry>)
    ensures
        expand_all(actions, env) matches Ok(r) ==> expand_all(r, env) == Ok::<Seq<Seq<char>>, ExpandFailure>(r),
    decreases actions.len(),
{
    if actions.len() > 0 {
        lemma_expanded_list_is_fixed(actions.drop_last(), env);
        if let Ok(r) = expand_all(actions, env) {
            let done = expand_all(actions.drop_last(), env)->Ok_0;
            let t = r.last();
            assert(r == done.push(t));
            assert(r.drop_last() == done);
            lemma_expansion_leaves_no_reference(actions.last(), env, 0);
            lemma_plain_text_unchanged(t, env, 0);
        }
    }
}

/// The first failure among buttons none of which fails is none.
proof fn lemma_no_button_fails(bcs: Seq<ButtonConfig>, env: Seq<EnvEntry>)
    requires
        forall|i: int| 0 <= i < bcs.len() ==> button_failure(#[trigger] bcs[i], env) is None,
    ensures
        buttons_failure(bcs, env) is None,
    decreases bcs.len(),
{
    if bcs.len() > 0 {
        let shorter = bcs.drop_last();
        assert forall|i: int| 0 <= i < shorter.len() implies button_failure(#[trigger] shorter[i], env) is None by {
            assert(shorter[i] == bcs[i]);
        }
        lemma_no_button_fails(shorter, env);
        assert(button_failure(bcs[bcs.len() - 1], env) is None);
    }
}

/// Where the buttons as a whole do not fail, none of them does.
proof fn lemma_each_button_succeeds(bcs: Seq<ButtonConfig>, env: Seq<EnvEntry>)
    requires
        buttons_failure(bcs, env) is None,
    ensures
        forall|i: int| 0 <= i < bcs.len() ==> button_failure(#[trigger] bcs[i], env) is None,
    decreases bcs.len(),
{
    if bcs.len() > 0 {
        let shorter = bcs.drop_last();
        lemma_each_button_succeeds(shorter, env);
        assert forall|i: int| 0 <= i < bcs.len() implies button_failure(#[trigger] bcs[i], env) is None by {
            if i < shorter.len() {
                assert(shorter[i] == bcs[i]);
            }
        }
    }
}

/// An event whose actions were expanded expands again to itself.
proof fn lemma_event_fixed(old: Option<EventConfig>, new: Option<EventConfig>, env: Seq<EnvEntry>)
    requires
        event_failure(old, env) is None,
        event_expanded(old, new, env),
    ensures
        event_failure(new, env) is None,
        event_expanded(new, new, env),
{
    if let Some(o) = old {
        if let Some(a) = o.actions {
            lemma_expanded_list_is_fixed(texts(a@), env);
        }
    }
}

/// Expanding a configuration whose expansion succeeded changes nothing: every button expands
/// again to itself, and nothing fails.
pub proof fn lemma_expand_twice_is_once(old: Seq<ButtonConfig>, new: Seq<ButtonConfig>, env: Seq<EnvEntry>)
    requires
        buttons_failure(old, env) is None,
        new.len() == old.len(),
        forall|i: int| 0 <= i < old.len() ==> button_expanded(#[trigger] old[i], new[i], env),
    ensures
        buttons_failure(new, env) is None,
        forall|i: int| 0 <= i < new.len() ==> button_expanded(#[trigger] new[i], new[i], env),
{
    lemma_each_button_succeeds(old, env);
    assert forall|i: int| 0 <= i < new.len() implies button_failure(#[trigger] new[i], env) is None
        && button_expanded(new[i], new[i], env) by {
        assert(button_expanded(old[i], new[i], env));
        assert(button_failure(old[i], env) is None);
        lemma_event_fixed(old[i].on_press, new[i].on_press, env);
        lemma_event_fixed(old[i].on_release, new[i].on_release, env);
    }
    lemma_no_button_fails(new, env);
}

proof fn lemma_expand_all_prefix(actions: Seq<Seq<char>>, k: int, env: Seq<EnvEntry>)
    requires
        0 <= k <= actions.len(),
        expand_all(actions.take(k), env) is Err,
    ensures
        expand_all(actions, env) == expand_all(actions.take(k), env),
    decreases actions.len() - k,
{
    if k < actions.len() {
        assert(actions.take(k + 1).drop_last() == actions.take(k));
        lemma_expand_all_prefix(actions, k + 1, env);
    } else {
        assert(actions.take(k) == actions);
    }
}

proof fn lemma_buttons_failure_prefix(bcs: Seq<ButtonConfig>, k: int, env: Seq<EnvEntry>)
    requires
        0 <= k <= bcs.len(),
        buttons_failure(bcs.take(k), env) is Some,
    ensures
        buttons_failure(bcs, env) == buttons_failure(bcs.take(k), env),
    decreases bcs.len() - k,
{
    if k < bcs.len() {
        assert(bcs.take(k + 1).drop_last() == bcs.take(k));
        lemma_buttons_failure_prefix(bcs, k + 1, env);
    } else {
        assert(bcs.take(k) == bcs);
    }
}

fn clone_text(o: &Option<String>) -> (r: Option<String>)
    ensures
        r == *o,
{
    match o {
        Some(s) => Some(s.clone()),
        None => None,
    }
}

/// The value of the first variable of `env` named `name`.
fn lookup(env: &Vec<EnvEntry>, name: &String) -> (r: Option<String>)
    ensures
        opt_text(r) == env_lookup(env@, name@),
{
    let mut i: usize = 0;
    assert(env@.skip(0) == env@);
    while i < env.len()
        invariant
            i <= env@.len(),
            env_lookup(env@, name@) == env_lookup(env@.skip(i as int), name@),
        decreases env.len() - i,
    {
        assert(env@.skip(i as int).drop_first() == env@.skip(i + 1));
        if env[i].0 == *name {
            return Some(env[i].1.clone());
        }
        i = i + 1;
    }
    None
}

/// Given the groups that the pattern captured in a text, the text with that reference replaced
/// by the variable's value: the text before it, the value, then the text after it.
pub fn replace_reference(groups: &Vec<Option<String>>, env: &Vec<EnvEntry>) -> (r: Result<String, ExpandError>)
    ensures
        match r {
            Ok(t) => replaced(groups_view(Some(*groups))->0, env@) == Ok::<Seq<char>, ExpandFailure>(t@),
            Err(e) => replaced(groups_view(Some(*groups))->0, env@) == Err::<Seq<char>, ExpandFailure>(e@),
        },
{
    let ghost g = groups_view(Some(*groups))->0;
    assert(g.len() == groups@.len());
    if groups.len() < 5 {
        return Err(ExpandError::MalformedMatch);
    }
    assert(g[1] == opt_text(groups@[1]));
    assert(g[3] == opt_text(groups@[3]));
    assert(g[4] == opt_text(groups@[4]));
    let (prefix, name, suffix) = match (clone_text(&groups[1]), clone_text(&groups[3]), clone_text(&groups[4])) {
        (Some(p), Some(n), Some(s)) => (p, n, s),
        _ => return Err(ExpandError::MalformedMatch),
    };
    let value = match lookup(env, &name) {
        Some(v) => v,
        None => return Err(ExpandError::MissingVariable(name)),
    };
    Ok(prefix.concat(value.as_str()).concat(suffix.as_str()))
}

/// `text` with every reference to an environment variable replaced by the variable's value.
pub fn expand_action(text: &String, env: &Vec<EnvEntry>) -> (r: Result<String, ExpandError>)
    ensures
        match r {
            Ok(t) => expand_text(text@, env@, 0) == Ok::<Seq<char>, ExpandFailure>(t@),
            Err(e) => expand_text(text@, env@, 0) == Err::<Seq<char>, ExpandFailure>(e@),
        },
{
    let mut cur = text.clone();
    let mut count: i32 = 0;
    loop
        invariant
            0 <= count <= i32::MAX,
            expand_text(cur@, env@, count as int) == expand_text(text@, env@, 0),
        decreases i32::MAX - count,
    {
        let c = match captures(r"^(.*)(\$\{env:(.+)\})(.*)$", cur.as_str()) {
            None => return Ok(cur),
            Some(c) => c,
        };
        let next = replace_reference(&c, env)?;
        if count == i32::MAX {
            return Err(ExpandError::TooManyExpansions);
        }
        cur = next;
        count = count + 1;
    }
}

/// Every action of a list with its references expanded; the first failure, where one fails.
fn expand_actions(actions: &Vec<String>, env: &Vec<EnvEntry>) -> (r: Result<Vec<String>, ExpandError>)
    ensures
        match r {
            Ok(v) => expand_all(texts(actions@), env@) == Ok::<Seq<Seq<char>>, ExpandFailure>(texts(v@)),
            Err(e) => expand_all(texts(actions@), env@) == Err::<Seq<Seq<char>>, ExpandFailure>(e@),
        },
{
    let mut out: Vec<String> = Vec::new();
    let mut i: usize = 0;
    assert(texts(actions@.take(0)) == Seq::<Seq<char>>::empty());
    assert(texts(out@) == Seq::<Seq<char>>::empty());
    while i < actions.len()
        invariant
            i <= actions@.len(),
            expand_all(texts(actions@.take(i as int)), env@) == Ok::<Seq<Seq<char>>, ExpandFailure>(texts(out@)),
        decreases actions.len() - i,
    {
        let t = expand_action(&actions[i], env);
        assert(texts(actions@.take(i + 1)).drop_last() == texts(actions@.take(i as int)));
        assert(texts(actions@.take(i + 1)).last() == actions@[i as int]@);
        match t {
            Ok(t) => {
                let ghost before = out@;
                out.push(t);
                assert(texts(out@) == texts(before).push(t@));
            },
            Err(e) => {
                proof {
                    lemma_expand_all_prefix(texts(actions@), i + 1, env@);
                    assert(texts(actions@).take(i + 1) == texts(actions@.take(i + 1)));
                }
                return Err(e);
            },
        }
        i = i + 1;
    }
    assert(actions@.take(actions@.len() as int) == actions@);
    Ok(out)
}

impl EventConfig {
    /// This event with the references in its actions expanded.
    pub fn expanded(&self, env: &Vec<EnvEntry>) -> (r: Result<EventConfig, ExpandError>)
        ensures
            match r {
                Ok(n) => event_failure(Some(*self), env@) is None && event_expanded(Some(*self), Some(n), env@),
                Err(e) => event_failure(Some(*self), env@) == Some(e@),
            },
    {
        let actions = match &self.actions {
            Some(a) => Some(expand_actions(a, env)?),
            None => None,
        };
        Ok(EventConfig { http_request: clone_text(&self.http_request), actions })
    }

    /// Replaces each `${env:NAME}` in the actions by the value of the variable `NAME` in `env`,
    /// again and again until none is left. Where one fails, nothing changes and the first failure
    /// comes back. Two inputs get an error here instead of stopping the program or looping
    /// forever: a variable that `env` lacks is `MissingVariable`, and a reference that keeps
    /// coming back, such as a variable whose value names itself, is `TooManyExpansions` once the
    /// count of expansions in one action would pass `i32::MAX`. The program that reads its
    /// configuration stops on either, a missing variable with `Env var NAME not found`.
    pub fn expand(&mut self, env: &Vec<EnvEntry>) -> (r: Result<(), ExpandError>)
        ensures
            match r {
                Ok(()) => event_failure(Some(*old(self)), env@) is None
                    && event_expanded(Some(*old(self)), Some(*final(self)), env@),
                Err(e) => event_failure(Some(*old(self)), env@) == Some(e@) && *final(self) == *old(self),
            },
    {
        let n = self.expanded(env)?;
        *self = n;
        Ok(())
    }
}

fn expanded_event(ec: &Option<EventConfig>, env: &Vec<EnvEntry>) -> (r: Result<Option<EventConfig>, ExpandError>)
    ensures
        match r {
            Ok(n) => event_failure(*ec, env@) is None && event_expanded(*ec, n, env@),
            Err(e) => event_failure(*ec, env@) == Some(e@),
        },
{
    match ec {
        Some(e) => Ok(Some(e.expanded(env)?)),
        None => Ok(None),
    }
}

impl ButtonConfig {
    /// This button with the references in the actions of both its events expanded.
    pub fn expanded(&self, env: &Vec<EnvEntry>) -> (r: Result<ButtonConfig, ExpandError>)
        ensures
            match r {
                Ok(n) => button_failure(*self, env@) is None && button_expanded(*self, n, env@),
                Err(e) => button_failure(*self, env@) == Some(e@),
            },
    {
        let on_press = expanded_event(&self.on_press, env)?;
        let on_release = expanded_event(&self.on_release, env)?;
        Ok(ButtonConfig {
            name: self.name.clone(),
            ttype: self.ttype.clone(),
            image: clone_text(&self.image),
            image_active: clone_text(&self.image_active),
            on_press,
            on_release,
        })
    }

    /// Expands the actions of the press event, then those of the release event. Where one
    /// fails, nothing changes and the first failure comes back.
    pub fn expand(&mut self, env: &Vec<EnvEntry>) -> (r: Result<(), ExpandError>)
        ensures
            match r {
                Ok(()) => button_failure(*old(self), env@) is None
                    && button_expanded(*old(self), *final(self), env@),
                Err(e) => button_failure(*old(self), env@) == Some(e@) && *final(self) == *old(self),
            },
    {
        let n = self.expanded(env)?;
        *self = n;
        Ok(())
    }
}

impl PageConfig {
    /// A page holds nothing to expand.
    pub fn expand(&mut self) -> (r: Result<(), ExpandError>)
        ensures
            r is Ok,
            *final(self) == *old(self),
    {
        Ok(())
    }
}

impl Default for Config {
    /// A configuration without buttons or pages.
    fn default() -> (c: Config)
        ensures
            c.button_configs() == Seq::<ButtonConfig>::empty(),
            c.page_configs() == Seq::<PageConfig>::empty(),
    {
        Config { buttons: Vec::new(), pages: Vec::new() }
    }
}

impl Config {
    /// A configuration of these buttons and pages.
    pub fn new(buttons: Vec<ButtonConfig>, pages: Vec<PageConfig>) -> (c: Config)
        ensures
            c.button_configs() == buttons@,
            c.page_configs() == pages@,
    {
        Config { buttons, pages }
    }

    /// The buttons of the configuration, in order.
    pub closed spec fn button_configs(&self) -> Seq<ButtonConfig> {
        self.buttons@
    }

    /// The pages of the configuration, in order.
    pub closed spec fn page_configs(&self) -> Seq<PageConfig> {
        self.pages@
    }

    pub fn buttons(&self) -> (r: &Vec<ButtonConfig>)
        ensures
            r@ == self.button_configs(),
    {
        &self.buttons
    }

    pub fn pages(&self) -> (r: &Vec<PageConfig>)
        ensures
            r@ == self.page_configs(),
    {
        &self.pages
    }

    /// Expands the references in the actions of every button, in order (pages hold none).
    /// Where one fails, nothing changes and the first failure comes back.
    pub fn expand(&mut self, env: &Vec<EnvEntry>) -> (r: Result<(), ExpandError>)
        ensures
            final(self).page_configs() == old(self).page_configs(),
            match r {
                Ok(()) => {
                    &&& buttons_failure(old(self).button_configs(), env@) is None
                    &&& final(self).button_configs().len() == old(self).button_configs().len()
                    &&& forall|i: int|
                        0 <= i < old(self).button_configs().len() ==> button_expanded(
                            #[trigger] old(self).button_configs()[i],
                            final(self).button_configs()[i],
                            env@,
                        )
                },
                Err(e) => buttons_failure(old(self).button_configs(), env@) == Some(e@)
                    && final(self).button_configs() == old(self).button_configs(),
            },
    {
        let mut out: Vec<ButtonConfig> = Vec::new();
        let mut i: usize = 0;
        while i < self.buttons.len()
            invariant
                i <= self.buttons@.len(),
                out@.len() == i,
                buttons_failure(self.buttons@.take(i as int), env@) is None,
                forall|k: int| 0 <= k < i ==> button_expanded(#[trigger] self.buttons@[k], out@[k], env@),
            decreases self.buttons.len() - i,
        {
            assert(self.buttons@.take(i + 1).drop_last() == self.buttons@.take(i as int));
            let b = match self.buttons[i].expanded(env) {
                Ok(b) => b,
                Err(e) => {
                    proof {
                        lemma_buttons_failure_prefix(self.buttons@, i + 1, env@);
                    }
                    return Err(e);
                },
            };
            out.push(b);
            i = i + 1;
        }
        assert(self.buttons@.take(self.buttons@.len() as int) == self.buttons@);
        self.buttons = out;
        Ok(())
    }
}

} // verus!

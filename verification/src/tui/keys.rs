//! Which key does what. Keys follow ncdu wherever it has one.

use vstd::prelude::*;

use crate::tui::app::{Action, Sort};

verus! {

/// A key on the keyboard.
#[derive(Clone, Copy, Debug, PartialEq, Eq, Structural)]
pub enum Key {
    Char(char),
    Up,
    Down,
    Left,
    Right,
    PageUp,
    PageDown,
    Home,
    End,
    Enter,
    Backspace,
    Esc,
    Other,
}

/// A key press, with or without Control held.
#[derive(Clone, Copy, Debug, PartialEq, Eq, Structural)]
pub struct Press {
    pub key: Key,
    pub ctrl: bool,
}

impl Press {
    /// Whether this is what gets one out of anything.
    pub open spec fn is_interrupt(self) -> bool {
        self.key == Key::Char('c') && self.ctrl
    }
}

/// What a key types into a prompt.
pub open spec fn typed(key: Key) -> Option<Action> {
    match key {
        Key::Char(c) => Some(Action::Input(c)),
        Key::Backspace => Some(Action::Backspace),
        Key::Enter => Some(Action::Submit),
        Key::Esc => Some(Action::Dismiss),
        _ => None,
    }
}

/// What a letter stands for outside a prompt.
pub open spec fn letter_command(c: char) -> Option<Action> {
    match c {
        'j' => Some(Action::Down),
        'k' => Some(Action::Up),
        'l' => Some(Action::Enter),
        'h' => Some(Action::Leave),
        's' => Some(Action::Sort(Sort::Size)),
        'n' => Some(Action::Sort(Sort::Name)),
        'C' => Some(Action::Sort(Sort::Items)),
        'M' => Some(Action::Sort(Sort::Mtime)),
        'a' => Some(Action::ToggleApparent),
        'g' => Some(Action::CycleGraph),
        'i' => Some(Action::ToggleInfo),
        '?' => Some(Action::ToggleHelp),
        ' ' => Some(Action::Mark),
        'd' => Some(Action::StageDelete),
        'm' => Some(Action::StageMove),
        'u' => Some(Action::Unstage),
        'p' => Some(Action::TogglePlan),
        'w' => Some(Action::SavePlan),
        'c' => Some(Action::Commit),
        'y' => Some(Action::Confirm),
        't' => Some(Action::ToggleTreemap),
        'D' => Some(Action::ToggleDupes),
        'A' => Some(Action::StageGroupRest),
        'q' => Some(Action::Quit),
        _ => None,
    }
}

/// What a key stands for outside a prompt.
pub open spec fn command(key: Key) -> Option<Action> {
    match key {
        Key::Char(c) => letter_command(c),
        Key::Down => Some(Action::Down),
        Key::Up => Some(Action::Up),
        Key::PageDown => Some(Action::PageDown),
        Key::PageUp => Some(Action::PageUp),
        Key::Home => Some(Action::Top),
        Key::End => Some(Action::Bottom),
        Key::Enter | Key::Right => Some(Action::Enter),
        Key::Left | Key::Backspace => Some(Action::Leave),
        Key::Esc => Some(Action::Dismiss),
        Key::Other => None,
    }
}

/// What a key press means.
pub open spec fn meaning(press: Press, prompting: bool) -> Option<Action> {
    if press.is_interrupt() {
        Some(Action::Quit)
    } else if prompting {
        typed(press.key)
    } else {
        command(press.key)
    }
}

/// Whether a key press cuts a scan short.
pub fn is_quit(press: &Press) -> (r: bool)
    ensures
        r == (press.key == Key::Char('q') || press.key == Key::Esc || press.is_interrupt()),
{
    press.key == Key::Char('q') || press.key == Key::Esc || (press.key == Key::Char('c')
        && press.ctrl)
}

fn letter(c: char) -> (r: Option<Action>)
    ensures
        r == letter_command(c),
{
    match c {
        'j' => Some(Action::Down),
        'k' => Some(Action::Up),
        'l' => Some(Action::Enter),
        'h' => Some(Action::Leave),
        's' => Some(Action::Sort(Sort::Size)),
        'n' => Some(Action::Sort(Sort::Name)),
        'C' => Some(Action::Sort(Sort::Items)),
        'M' => Some(Action::Sort(Sort::Mtime)),
        'a' => Some(Action::ToggleApparent),
        'g' => Some(Action::CycleGraph),
        'i' => Some(Action::ToggleInfo),
        '?' => Some(Action::ToggleHelp),
        ' ' => Some(Action::Mark),
        'd' => Some(Action::StageDelete),
        'm' => Some(Action::StageMove),
        'u' => Some(Action::Unstage),
        'p' => Some(Action::TogglePlan),
        'w' => Some(Action::SavePlan),
        'c' => Some(Action::Commit),
        'y' => Some(Action::Confirm),
        't' => Some(Action::ToggleTreemap),
        'D' => Some(Action::ToggleDupes),
        'A' => Some(Action::StageGroupRest),
        'q' => Some(Action::Quit),
        _ => None,
    }
}

/// Map a key press onto an action.
///
/// While a prompt is open almost every key is text, so only the few that steer the prompt are
/// interpreted; otherwise typing a path named `dst` would stage three deletions.
pub fn translate(press: &Press, prompting: bool) -> (r: Option<Action>)
    ensures
        r == meaning(*press, prompting),
{
    if press.key == Key::Char('c') && press.ctrl {
        return Some(Action::Quit);
    }
    if prompting {
        return match press.key {
            Key::Char(c) => Some(Action::Input(c)),
            Key::Backspace => Some(Action::Backspace),
            Key::Enter => Some(Action::Submit),
            Key::Esc => Some(Action::Dismiss),
            _ => None,
        };
    }
    match press.key {
        Key::Char(c) => letter(c),
        Key::Down => Some(Action::Down),
        Key::Up => Some(Action::Up),
        Key::PageDown => Some(Action::PageDown),
        Key::PageUp => Some(Action::PageUp),
        Key::Home => Some(Action::Top),
        Key::End => Some(Action::Bottom),
        Key::Enter | Key::Right => Some(Action::Enter),
        Key::Left | Key::Backspace => Some(Action::Leave),
        Key::Esc => Some(Action::Dismiss),
        Key::Other => None,
    }
}

/// While a prompt is open, no key stands for a command: each is text, steers the prompt, means
/// nothing, or is the one that gets one out of anything.
pub proof fn law_a_prompt_turns_commands_into_text(press: Press)
    ensures
        press.is_interrupt() ==> meaning(press, true) == Some(Action::Quit),
        !press.is_interrupt() && press.key is Char ==> meaning(press, true) == Some(
            Action::Input(press.key->Char_0),
        ),
        meaning(press, true) matches Some(a) ==> a is Input || a is Backspace || a is Submit
            || a is Dismiss || (a is Quit && press.is_interrupt()),
{
}

/// What the keys are for, while nothing is being typed.
pub proof fn law_what_the_keys_do()
    ensures
        ({
            let does = |key: Key| meaning(Press { key, ctrl: false }, false);
            &&& does(Key::Char('s')) == Some(Action::Sort(Sort::Size))
            &&& does(Key::Char('n')) == Some(Action::Sort(Sort::Name))
            &&& does(Key::Char('C')) == Some(Action::Sort(Sort::Items))
            &&& does(Key::Char('M')) == Some(Action::Sort(Sort::Mtime))
            &&& does(Key::Char('a')) == Some(Action::ToggleApparent)
            &&& does(Key::Char('g')) == Some(Action::CycleGraph)
            &&& does(Key::Char('i')) == Some(Action::ToggleInfo)
            &&& does(Key::Char('?')) == Some(Action::ToggleHelp)
            &&& does(Key::Char(' ')) == Some(Action::Mark)
            &&& does(Key::Char('d')) == Some(Action::StageDelete)
            &&& does(Key::Char('m')) == Some(Action::StageMove)
            &&& does(Key::Char('u')) == Some(Action::Unstage)
            &&& does(Key::Char('p')) == Some(Action::TogglePlan)
            &&& does(Key::Char('w')) == Some(Action::SavePlan)
            &&& does(Key::Char('c')) == Some(Action::Commit)
            &&& does(Key::Char('y')) == Some(Action::Confirm)
            &&& does(Key::Char('t')) == Some(Action::ToggleTreemap)
            &&& does(Key::Char('D')) == Some(Action::ToggleDupes)
            &&& does(Key::Char('A')) == Some(Action::StageGroupRest)
            &&& does(Key::Char('q')) == Some(Action::Quit)
            &&& does(Key::Char('j')) == Some(Action::Down) && does(Key::Down) == Some(Action::Down)
            &&& does(Key::Char('k')) == Some(Action::Up) && does(Key::Up) == Some(Action::Up)
            &&& does(Key::Char('l')) == Some(Action::Enter) && does(Key::Right) == Some(
                Action::Enter,
            ) && does(Key::Enter) == Some(Action::Enter)
            &&& does(Key::Char('h')) == Some(Action::Leave) && does(Key::Left) == Some(
                Action::Leave,
            ) && does(Key::Backspace) == Some(Action::Leave)
            &&& does(Key::PageDown) == Some(Action::PageDown)
            &&& does(Key::PageUp) == Some(Action::PageUp)
            &&& does(Key::Home) == Some(Action::Top)
            &&& does(Key::End) == Some(Action::Bottom)
            &&& does(Key::Esc) == Some(Action::Dismiss)
        }),
        meaning(Press { key: Key::Char('c'), ctrl: true }, false) == Some(Action::Quit),
        meaning(Press { key: Key::Char('c'), ctrl: true }, true) == Some(Action::Quit),
{
}

/// No two letters mean the same thing.
pub proof fn law_every_letter_means_something_else(a: char, b: char)
    requires
        letter_command(a) == letter_command(b),
        letter_command(a) is Some,
    ensures
        a == b,
{
}

} // verus!

//! What a terminal driver decides: which menu a key selects, which menu is
//! shown next, and when a tick is due. The driver itself reads the terminal
//! and draws; it hands these functions plain values.

use vstd::prelude::*;

verus! {

/// A key of the keyboard, as far as the driver tells keys apart.
#[derive(Copy, Clone, Debug, PartialEq, Eq, Structural)]
pub enum Key {
    /// A key that types a character.
    Char(char),
    /// Any other key.
    Other,
}

/// Where the pointer was when a mouse event came.
#[derive(Copy, Clone, Debug, PartialEq, Eq, Structural)]
pub struct Pointer {
    pub column: u16,
    pub row: u16,
}

/// What the input side of a driver hands to its drawing side.
#[derive(Copy, Clone, Debug, PartialEq, Eq, Structural)]
pub enum GoLEvent {
    /// The tick rate has passed without input.
    Tick,
    /// A key was pressed.
    Input(Key),
    /// The mouse was moved or clicked.
    Mouse(Pointer),
}

/// The screens of the driver.
#[derive(Copy, Clone, Debug, PartialEq, Eq, Structural)]
pub enum MenuItem {
    Home,
    Preparation,
    Run,
    Quit,
}

/// The place of a menu item among the tabs.
pub open spec fn tab_index(item: MenuItem) -> usize {
    match item {
        MenuItem::Preparation => 0,
        MenuItem::Run => 1,
        MenuItem::Home => 2,
        MenuItem::Quit => 3,
    }
}

impl From<MenuItem> for usize {
    /// The place of a menu item among the tabs.
    fn from(input: MenuItem) -> (index: usize) {
        match input {
            MenuItem::Preparation => 0,
            MenuItem::Run => 1,
            MenuItem::Home => 2,
            MenuItem::Quit => 3,
        }
    }
}

impl vstd::std_specs::convert::FromSpecImpl<MenuItem> for usize {
    open spec fn obeys_from_spec() -> bool {
        true
    }

    open spec fn from_spec(input: MenuItem) -> usize {
        tab_index(input)
    }
}

/// The menu item that an event selects, if it selects one: `q` quits, `r`
/// runs, `p` prepares; nothing else selects anything.
pub open spec fn menu_choice(event: GoLEvent) -> Option<MenuItem> {
    match event {
        GoLEvent::Input(Key::Char(c)) => if c == 'q' {
            Some(MenuItem::Quit)
        } else if c == 'r' {
            Some(MenuItem::Run)
        } else if c == 'p' {
            Some(MenuItem::Preparation)
        } else {
            None
        },
        _ => None,
    }
}

/// The menu item that an event selects, if it selects one.
pub fn event_controller(event: GoLEvent) -> (choice: Option<MenuItem>)
    ensures
        choice == menu_choice(event),
{
    match event {
        GoLEvent::Input(Key::Char(c)) => if c == 'q' {
            Some(MenuItem::Quit)
        } else if c == 'r' {
            Some(MenuItem::Run)
        } else if c == 'p' {
            Some(MenuItem::Preparation)
        } else {
            None
        },
        GoLEvent::Input(Key::Other) => None,
        GoLEvent::Mouse(_) => None,
        GoLEvent::Tick => None,
    }
}

/// What the driver does after a choice: it shows the chosen screen, stays
/// where it is without a choice, and leaves when `Quit` was chosen. The
/// result is the screen to show and whether to leave.
pub fn next_screen(active: MenuItem, choice: Option<MenuItem>) -> (next: (MenuItem, bool))
    ensures
        next.1 == (choice == Some(MenuItem::Quit)),
        next.0 == match choice {
            Some(MenuItem::Quit) | None => active,
            Some(item) => item,
        },
{
    match choice {
        Some(MenuItem::Quit) => (active, true),
        Some(item) => (item, false),
        None => (active, false),
    }
}

/// How long the driver may wait for input before the next tick is due,
/// `elapsed` after the last one: the rest of the tick rate, or nothing if
/// the tick rate has passed. Both are given in the same unit.
pub fn poll_timeout(tick_rate: u128, elapsed: u128) -> (timeout: u128)
    ensures
        timeout == if elapsed <= tick_rate {
            tick_rate - elapsed
        } else {
            0
        },
{
    if elapsed <= tick_rate {
        tick_rate - elapsed
    } else {
        0
    }
}

/// Whether a tick is due, `elapsed` after the last one.
pub fn tick_due(tick_rate: u128, elapsed: u128) -> (due: bool)
    ensures
        due == (elapsed >= tick_rate),
{
    elapsed >= tick_rate
}

} // verus!

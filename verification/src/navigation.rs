//! Keyboard navigation through the list of results: a selection counter
//! that is read modulo the number of results, and what each key does.

use vstd::prelude::*;

verus! {

/// The keys that the search box reacts to.
#[derive(Debug, Clone, Copy, PartialEq, Eq, Structural)]
pub enum Key {
    ArrowDown,
    ArrowUp,
    Home,
    End,
    Enter,
    Escape,
    Tab,
    Other,
}

/// What a key press asks for.
#[derive(Debug, Clone, Copy, PartialEq, Eq, Structural)]
pub enum KeyAction {
    /// Set the selection counter; `prevent_default` says whether the key's
    /// usual effect is to be suppressed.
    Select { selection: i32, prevent_default: bool },
    /// Open the selected result and close the search box.
    OpenSelected,
    /// Close the search box.
    Close,
    /// Put the selected result into the search field.
    Complete,
    /// Nothing.
    Ignore,
}

/// The key with the given name.
pub open spec fn key_of(name: Seq<char>) -> Key {
    if name == "ArrowDown"@ {
        Key::ArrowDown
    } else if name == "ArrowUp"@ {
        Key::ArrowUp
    } else if name == "Home"@ {
        Key::Home
    } else if name == "End"@ {
        Key::End
    } else if name == "Enter"@ {
        Key::Enter
    } else if name == "Escape"@ {
        Key::Escape
    } else if name == "Tab"@ {
        Key::Tab
    } else {
        Key::Other
    }
}

/// What a key asks for at a selection counter: the arrows move it by one,
/// Home sets it to the first result and End, with -1, to the last.
pub open spec fn action_of(selection: i32, key: Key) -> KeyAction {
    match key {
        Key::ArrowDown => KeyAction::Select {
            selection: (selection + 1) as i32,
            prevent_default: true,
        },
        Key::ArrowUp => KeyAction::Select {
            selection: (selection - 1) as i32,
            prevent_default: true,
        },
        Key::Home => KeyAction::Select { selection: 0i32, prevent_default: false },
        Key::End => KeyAction::Select { selection: -1i32, prevent_default: false },
        Key::Enter => KeyAction::OpenSelected,
        Key::Escape => KeyAction::Close,
        Key::Tab => KeyAction::Complete,
        Key::Other => KeyAction::Ignore,
    }
}

/// The result that a selection counter points at: the counter modulo the
/// number of results, and none where there is no result.
pub open spec fn index_of(selection: i32, len: nat) -> Option<usize> {
    if len == 0 {
        None
    } else {
        Some((selection as int % len as int) as usize)
    }
}

fn same_text(left: &str, right: &str) -> (same: bool)
    ensures
        same == (left@ == right@),
{
    left.to_owned() == right.to_owned()
}

/// Reads the name of a key as the browser reports it.
pub fn key_named(name: &str) -> (key: Key)
    ensures
        key == key_of(name@),
{
    if same_text(name, "ArrowDown") {
        Key::ArrowDown
    } else if same_text(name, "ArrowUp") {
        Key::ArrowUp
    } else if same_text(name, "Home") {
        Key::Home
    } else if same_text(name, "End") {
        Key::End
    } else if same_text(name, "Enter") {
        Key::Enter
    } else if same_text(name, "Escape") {
        Key::Escape
    } else if same_text(name, "Tab") {
        Key::Tab
    } else {
        Key::Other
    }
}

/// What a key press asks for at the given selection counter.
pub fn on_key(selection: i32, key: Key) -> (action: KeyAction)
    requires
        key == Key::ArrowDown ==> selection < i32::MAX,
        key == Key::ArrowUp ==> selection > i32::MIN,
    ensures
        action == action_of(selection, key),
{
    match key {
        Key::ArrowDown => KeyAction::Select { selection: selection + 1, prevent_default: true },
        Key::ArrowUp => KeyAction::Select { selection: selection - 1, prevent_default: true },
        Key::Home => KeyAction::Select { selection: 0, prevent_default: false },
        Key::End => KeyAction::Select { selection: -1, prevent_default: false },
        Key::Enter => KeyAction::OpenSelected,
        Key::Escape => KeyAction::Close,
        Key::Tab => KeyAction::Complete,
        Key::Other => KeyAction::Ignore,
    }
}

/// The result that the selection counter points at among `len` results.
pub fn selected_index(selection: i32, len: usize) -> (index: Option<usize>)
    requires
        len <= i32::MAX,
    ensures
        index == index_of(selection, len as nat),
        index matches Some(at) ==> at < len,
{
    if len == 0 {
        return None;
    }
    let count: i32 = len as i32;
    match selection.checked_rem_euclid(count) {
        Some(at) => {
            assert(0 <= (selection as int) % (count as int) < (count as int)) by (nonlinear_arith)
                requires
                    count > 0,
            ;
            Some(at as usize)
        },
        None => {
            assert(0 <= (selection as int) % (count as int) < (count as int)) by (nonlinear_arith)
                requires
                    count > 0,
            ;
            assert(false);
            None
        },
    }
}

} // verus!

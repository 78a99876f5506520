use lemons_search::navigation::{key_named, on_key, selected_index, Key, KeyAction};

#[test]
fn keys_by_name() {
    assert_eq!(key_named("ArrowDown"), Key::ArrowDown);
    assert_eq!(key_named("ArrowUp"), Key::ArrowUp);
    assert_eq!(key_named("Home"), Key::Home);
    assert_eq!(key_named("End"), Key::End);
    assert_eq!(key_named("Enter"), Key::Enter);
    assert_eq!(key_named("Escape"), Key::Escape);
    assert_eq!(key_named("Tab"), Key::Tab);
    assert_eq!(key_named("a"), Key::Other);
    assert_eq!(key_named("arrowdown"), Key::Other);
    assert_eq!(key_named(""), Key::Other);
}

#[test]
fn arrows_move_the_selection_by_one() {
    assert_eq!(
        on_key(3, Key::ArrowDown),
        KeyAction::Select { selection: 4, prevent_default: true }
    );
    assert_eq!(
        on_key(0, Key::ArrowUp),
        KeyAction::Select { selection: -1, prevent_default: true }
    );
}

#[test]
fn home_and_end_jump() {
    assert_eq!(on_key(7, Key::Home), KeyAction::Select { selection: 0, prevent_default: false });
    assert_eq!(on_key(7, Key::End), KeyAction::Select { selection: -1, prevent_default: false });
}

#[test]
fn other_keys() {
    assert_eq!(on_key(2, Key::Enter), KeyAction::OpenSelected);
    assert_eq!(on_key(2, Key::Escape), KeyAction::Close);
    assert_eq!(on_key(2, Key::Tab), KeyAction::Complete);
    assert_eq!(on_key(2, Key::Other), KeyAction::Ignore);
}

#[test]
fn selection_wraps_around() {
    assert_eq!(selected_index(0, 5), Some(0));
    assert_eq!(selected_index(4, 5), Some(4));
    assert_eq!(selected_index(5, 5), Some(0));
    assert_eq!(selected_index(7, 5), Some(2));
    assert_eq!(selected_index(-1, 5), Some(4));
    assert_eq!(selected_index(-6, 5), Some(4));
    assert_eq!(selected_index(i32::MIN, 1), Some(0));
    assert_eq!(selected_index(i32::MAX, 2), Some(1));
}

#[test]
fn no_results_no_selection() {
    assert_eq!(selected_index(0, 0), None);
    assert_eq!(selected_index(-3, 0), None);
}

use game_of_life::components::{
    event_controller, next_screen, poll_timeout, tick_due, GoLEvent, Key, MenuItem, Pointer,
};

#[test]
fn keys_select_menu_items() {
    assert_eq!(event_controller(GoLEvent::Input(Key::Char('q'))), Some(MenuItem::Quit));
    assert_eq!(event_controller(GoLEvent::Input(Key::Char('r'))), Some(MenuItem::Run));
    assert_eq!(event_controller(GoLEvent::Input(Key::Char('p'))), Some(MenuItem::Preparation));
}

#[test]
fn other_events_select_nothing() {
    assert_eq!(event_controller(GoLEvent::Input(Key::Char('h'))), None);
    assert_eq!(event_controller(GoLEvent::Input(Key::Char('Q'))), None);
    assert_eq!(event_controller(GoLEvent::Input(Key::Char(' '))), None);
    assert_eq!(event_controller(GoLEvent::Input(Key::Other)), None);
    assert_eq!(event_controller(GoLEvent::Mouse(Pointer { column: 3, row: 4 })), None);
    assert_eq!(event_controller(GoLEvent::Tick), None);
}

#[test]
fn menu_items_have_their_place_among_the_tabs() {
    assert_eq!(usize::from(MenuItem::Preparation), 0);
    assert_eq!(usize::from(MenuItem::Run), 1);
    assert_eq!(usize::from(MenuItem::Home), 2);
    assert_eq!(usize::from(MenuItem::Quit), 3);
    let index: usize = MenuItem::Run.into();
    assert_eq!(index, 1);
}

#[test]
fn a_choice_changes_the_screen() {
    assert_eq!(next_screen(MenuItem::Home, Some(MenuItem::Run)), (MenuItem::Run, false));
    assert_eq!(
        next_screen(MenuItem::Run, Some(MenuItem::Preparation)),
        (MenuItem::Preparation, false)
    );
    assert_eq!(next_screen(MenuItem::Run, Some(MenuItem::Home)), (MenuItem::Home, false));
    assert_eq!(next_screen(MenuItem::Run, Some(MenuItem::Run)), (MenuItem::Run, false));
}

#[test]
fn no_choice_keeps_the_screen() {
    assert_eq!(next_screen(MenuItem::Home, None), (MenuItem::Home, false));
    assert_eq!(next_screen(MenuItem::Preparation, None), (MenuItem::Preparation, false));
}

#[test]
fn quit_leaves_from_any_screen() {
    assert_eq!(next_screen(MenuItem::Home, Some(MenuItem::Quit)), (MenuItem::Home, true));
    assert_eq!(next_screen(MenuItem::Run, Some(MenuItem::Quit)), (MenuItem::Run, true));
}

#[test]
fn the_poll_waits_for_the_rest_of_the_tick() {
    assert_eq!(poll_timeout(200, 0), 200);
    assert_eq!(poll_timeout(200, 150), 50);
    assert_eq!(poll_timeout(200, 200), 0);
    assert_eq!(poll_timeout(200, 201), 0);
    assert_eq!(poll_timeout(0, 5), 0);
    assert_eq!(poll_timeout(u128::MAX, 1), u128::MAX - 1);
}

#[test]
fn a_tick_is_due_when_the_rate_has_passed() {
    assert!(!tick_due(200, 0));
    assert!(!tick_due(200, 199));
    assert!(tick_due(200, 200));
    assert!(tick_due(200, 1000));
    assert!(tick_due(0, 0));
}

use rsakura::input::{decide, Action, InputEvent, Key, KeyKind};

fn key(key: Key, ctrl: bool, kind: KeyKind) -> InputEvent {
    InputEvent::Key { key, ctrl, kind }
}

#[test]
fn quit_keys() {
    assert_eq!(decide(key(Key::Char('q'), false, KeyKind::Press)), Action::Quit);
    assert_eq!(decide(key(Key::Char('Q'), false, KeyKind::Repeat)), Action::Quit);
    assert_eq!(decide(key(Key::Esc, false, KeyKind::Press)), Action::Quit);
    assert_eq!(decide(key(Key::Char('c'), true, KeyKind::Press)), Action::Quit);
    assert_eq!(decide(key(Key::Char('q'), true, KeyKind::Press)), Action::Quit);
}

#[test]
fn other_keys_and_releases_go_on() {
    assert_eq!(decide(key(Key::Char('c'), false, KeyKind::Press)), Action::Continue);
    assert_eq!(decide(key(Key::Char('C'), true, KeyKind::Press)), Action::Continue);
    assert_eq!(decide(key(Key::Char('q'), false, KeyKind::Release)), Action::Continue);
    assert_eq!(decide(key(Key::Esc, false, KeyKind::Release)), Action::Continue);
    assert_eq!(decide(key(Key::Other, true, KeyKind::Press)), Action::Continue);
    assert_eq!(decide(InputEvent::Other), Action::Continue);
}

#[test]
fn resize_reports_the_new_size() {
    assert_eq!(decide(InputEvent::Resize(80, 24)), Action::Resize { width: 80, height: 24 });
    assert_eq!(decide(InputEvent::Resize(0, 0)), Action::Resize { width: 0, height: 0 });
}

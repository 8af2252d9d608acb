use vimdow::neovim::codec::encode;
use vimdow::neovim::value::TaggedValue;
use vimdow::neovim::{keyevent_to_nvim_symbol, Key, KeyEvent, Modifier, NeovimClient};

fn press(key: Key, ch: char) -> KeyEvent {
    KeyEvent { key, ch, pressed: true }
}

fn release(key: Key, ch: char) -> KeyEvent {
    KeyEvent { key, ch, pressed: false }
}

fn symbol(key: Key, ch: char) -> String {
    keyevent_to_nvim_symbol(&press(key, ch))
}

#[test]
fn named_keys_map_to_their_symbols() {
    assert_eq!(symbol(Key::Backspace, '\u{8}'), "<BS>");
    assert_eq!(symbol(Key::Tab, '\t'), "<Tab>");
    assert_eq!(symbol(Key::Enter, '\r'), "<CR>");
    assert_eq!(symbol(Key::Escape, '\u{1b}'), "<Esc>");
    assert_eq!(symbol(Key::Space, ' '), "<Space>");
    assert_eq!(symbol(Key::Delete, '\u{7f}'), "<Del>");
    assert_eq!(symbol(Key::Up, '\0'), "<Up>");
    assert_eq!(symbol(Key::Down, '\0'), "<Down>");
    assert_eq!(symbol(Key::Left, '\0'), "<Left>");
    assert_eq!(symbol(Key::Right, '\0'), "<Right>");
    assert_eq!(symbol(Key::PageUp, '\0'), "<PageUp>");
    assert_eq!(symbol(Key::PageDown, '\0'), "<PageDown>");
}

#[test]
fn function_keys_carry_their_number() {
    assert_eq!(symbol(Key::Function(1), '\0'), "<F1>");
    assert_eq!(symbol(Key::Function(9), '\0'), "<F9>");
    assert_eq!(symbol(Key::Function(12), '\0'), "<F12>");
    assert_eq!(symbol(Key::Function(35), '\0'), "<F35>");
}

#[test]
fn other_keys_are_their_character() {
    assert_eq!(symbol(Key::Character, 'a'), "a");
    assert_eq!(symbol(Key::Character, 'ß'), "ß");
}

#[test]
fn modifiers_wrap_the_character() {
    assert_eq!(Modifier::Ctrl.modify('a'), "<C-a>");
    assert_eq!(Modifier::Shift.modify('x'), "<S-x>");
    assert_eq!(Modifier::Alt.modify('b'), "<A-b>");
    assert_eq!(Modifier::Super.modify('p'), "<D-p>");
}

fn expect_input(c: &mut NeovimClient, id: i64, text: &str) {
    let bytes = c.pop_outgoing().unwrap();
    let expected = encode(&TaggedValue::Array(vec![
        TaggedValue::Int(0),
        TaggedValue::Int(id),
        TaggedValue::Str("nvim_input".to_string()),
        TaggedValue::Array(vec![TaggedValue::Str(text.to_string())]),
    ]));
    assert_eq!(bytes, expected);
}

#[test]
fn an_enter_press_sends_cr() {
    let mut c = NeovimClient::new();
    c.start();
    assert_eq!(c.unhandled_key_input(press(Key::Enter, '\r')), 0);
    expect_input(&mut c, 0, "<CR>");
}

#[test]
fn ctrl_then_a_sends_the_modified_symbol() {
    let mut c = NeovimClient::new();
    c.start();
    assert_eq!(c.unhandled_key_input(press(Key::Ctrl, '\0')), -1);
    assert!(c.pop_outgoing().is_none());
    assert_eq!(c.unhandled_key_input(press(Key::Character, 'a')), 0);
    expect_input(&mut c, 0, "<C-a>");
}

#[test]
fn releasing_the_modifier_clears_it() {
    let mut c = NeovimClient::new();
    c.start();
    c.unhandled_key_input(press(Key::Ctrl, '\0'));
    c.unhandled_key_input(release(Key::Ctrl, '\0'));
    c.unhandled_key_input(press(Key::Character, 'a'));
    expect_input(&mut c, 0, "a");
}

#[test]
fn releases_of_ordinary_keys_send_nothing() {
    let mut c = NeovimClient::new();
    c.start();
    assert_eq!(c.unhandled_key_input(release(Key::Character, 'a')), -1);
    assert!(c.pop_outgoing().is_none());
}

#[test]
fn input_without_a_process_is_ignored() {
    let mut c = NeovimClient::new();
    assert_eq!(c.unhandled_key_input(press(Key::Enter, '\r')), -1);
}

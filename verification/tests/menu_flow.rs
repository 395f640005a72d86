use config_store::bounded::ByteBuf;
use config_store::configs::{ConfigEntry, ConfigMenu};
use config_store::key::make_key;
use config_store::line::LineReader;
use config_store::menu::{parse_usize, Effect, MenuState};

fn fresh_menu() -> ConfigMenu {
    let token = ConfigEntry::new(b"token".to_vec(), 16, b"Token value".to_vec(), false);
    ConfigMenu::new(vec![token], make_key(b"passphrase"))
}

fn read_value(menu: &mut ConfigMenu, name: &[u8]) -> Result<Vec<u8>, ()> {
    let mut buf = ByteBuf::new(32);
    menu.read_entry(name, &mut buf)?;
    Ok(buf.into_vec())
}

#[test]
fn menu_flow_set_value_by_index() {
    let mut menu = fresh_menu();
    let state = MenuState::Idle;
    let (state, fx) = state.got_line(&mut menu, b"m");
    assert!(matches!(state, MenuState::Menu));
    assert_eq!(fx, vec![Effect::RenderMenu]);
    let (state, fx) = state.got_line(&mut menu, b"3");
    assert!(matches!(state, MenuState::SelectChange));
    assert_eq!(fx, vec![Effect::SelectValuesNote]);
    let (state, fx) = state.got_line(&mut menu, b"0");
    assert!(matches!(&state, MenuState::NewValue(name) if name == b"token"));
    assert!(fx.is_empty());
    let (state, fx) = state.got_line(&mut menu, b"hello");
    assert!(matches!(state, MenuState::Menu));
    assert!(fx.is_empty());
    assert_eq!(read_value(&mut menu, b"token"), Ok(b"hello".to_vec()));
}

#[test]
fn menu_flow_reset_needs_confirmation() {
    let mut menu = fresh_menu();
    assert_eq!(menu.store_entry(b"token", b"keepme"), Ok(()));
    let state = MenuState::Menu;
    let (state, fx) = state.got_line(&mut menu, b"4");
    assert!(matches!(state, MenuState::ConfirmingReset));
    assert!(fx.is_empty());
    let prompts = state.run_state(&menu);
    assert_eq!(prompts, vec![Effect::ConfirmPrompt]);
    // Declining leaves every entry untouched.
    let (state, _) = state.got_line(&mut menu, b"n");
    assert!(matches!(state, MenuState::Menu));
    assert_eq!(read_value(&mut menu, b"token"), Ok(b"keepme".to_vec()));
    // Confirming wipes every entry.
    let (state, _) = state.got_line(&mut menu, b"4");
    let (state, _) = state.got_line(&mut menu, b"y");
    assert!(matches!(state, MenuState::Menu));
    assert_eq!(read_value(&mut menu, b"token"), Ok(Vec::new()));
    assert_eq!(read_value(&mut menu, b"wifi_ssid"), Ok(Vec::new()));
}

#[test]
fn idle_ignores_everything_but_m() {
    let mut menu = fresh_menu();
    let (state, fx) = MenuState::Idle.got_line(&mut menu, b"hello");
    assert!(matches!(state, MenuState::Idle));
    assert!(fx.is_empty());
    let (state, _) = MenuState::Idle.got_line(&mut menu, b"");
    assert!(matches!(state, MenuState::Idle));
    // Any line starting with the menu letter opens the menu.
    let (state, _) = MenuState::Idle.got_line(&mut menu, b"menu please");
    assert!(matches!(state, MenuState::Menu));
}

#[test]
fn menu_unknown_option_exits() {
    let mut menu = fresh_menu();
    let (state, fx) = MenuState::Menu.got_line(&mut menu, b"7");
    assert!(matches!(state, MenuState::Idle));
    assert!(fx.is_empty());
    let (state, _) = MenuState::Menu.got_line(&mut menu, b"12");
    assert!(matches!(state, MenuState::Idle));
}

#[test]
fn menu_help_renders_menu_again() {
    let mut menu = fresh_menu();
    let (state, fx) = MenuState::Menu.got_line(&mut menu, b"1");
    assert!(matches!(state, MenuState::Menu));
    assert_eq!(fx, vec![Effect::RenderMenu]);
}

#[test]
fn select_unknown_name_reports_not_found() {
    let mut menu = fresh_menu();
    let (state, _) = MenuState::SelectChange.got_line(&mut menu, b"nosuch");
    assert!(matches!(&state, MenuState::NewValue(name) if name == b"nosuch"));
    let prompts = state.run_state(&menu);
    assert_eq!(prompts, vec![Effect::NotFound { name: b"nosuch".to_vec() }]);
    // Storing into the unresolved target fails silently and returns to the menu.
    let (state, fx) = state.got_line(&mut menu, b"whatever");
    assert!(matches!(state, MenuState::Menu));
    assert!(fx.is_empty());
}

#[test]
fn select_invalid_index_is_taken_literally() {
    let mut menu = fresh_menu();
    let (state, _) = MenuState::SelectChange.got_line(&mut menu, b"99");
    assert!(matches!(&state, MenuState::NewValue(name) if name == b"99"));
}

#[test]
fn update_prompt_shows_the_entry_question() {
    let menu = fresh_menu();
    let state = MenuState::NewValue(b"token".to_vec());
    let prompts = state.run_state(&menu);
    assert_eq!(
        prompts,
        vec![Effect::UpdatePrompt { name: b"token".to_vec(), question: b"Token value".to_vec() }]
    );
}

#[test]
fn listing_redacts_secret_entries() {
    let mut menu = fresh_menu();
    assert_eq!(menu.store_entry(b"token", b"abc123"), Ok(()));
    assert_eq!(menu.store_entry(b"wifi_pass", b"hushhush"), Ok(()));
    assert_eq!(menu.store_entry(b"wifi_ssid", b"net"), Ok(()));
    let (state, fx) = MenuState::Menu.got_line(&mut menu, b"2");
    assert!(matches!(state, MenuState::Menu));
    assert_eq!(fx.len(), 4);
    assert_eq!(
        fx[0],
        Effect::EntryLine {
            index: 0,
            name: b"token".to_vec(),
            capacity: 16,
            value: Some(b"abc123".to_vec()),
        }
    );
    assert_eq!(
        fx[1],
        Effect::EntryLine {
            index: 1,
            name: b"wifi_ssid".to_vec(),
            capacity: 32,
            value: Some(b"net".to_vec()),
        }
    );
    // The secret entry's value never appears in the listing.
    assert_eq!(
        fx[2],
        Effect::EntryLine {
            index: 2,
            name: b"wifi_pass".to_vec(),
            capacity: 64,
            value: None,
        }
    );
    // An entry that was never written reads back as a failure.
    assert_eq!(fx[3], Effect::ReadFailure { name: b"wifi_autostart".to_vec() });
}

#[test]
fn connect_hands_off_stored_credentials() {
    let mut menu = fresh_menu();
    let (state, fx) = MenuState::Menu.got_line(&mut menu, b"5");
    assert!(matches!(state, MenuState::Menu));
    assert_eq!(fx, vec![Effect::WifiNoSsid]);
    assert_eq!(menu.store_entry(b"wifi_ssid", b"net"), Ok(()));
    let (_, fx) = MenuState::Menu.got_line(&mut menu, b"5");
    assert_eq!(fx, vec![Effect::WifiNoPass]);
    assert_eq!(menu.store_entry(b"wifi_pass", b"secret"), Ok(()));
    let (_, fx) = MenuState::Menu.got_line(&mut menu, b"5");
    assert_eq!(
        fx,
        vec![Effect::Handoff { ssid: b"net".to_vec(), pass: b"secret".to_vec() }]
    );
}

#[test]
fn secret_echo_follows_the_target_entry() {
    let menu = fresh_menu();
    assert!(MenuState::NewValue(b"wifi_pass".to_vec()).secret_echo(&menu));
    assert!(!MenuState::NewValue(b"token".to_vec()).secret_echo(&menu));
    assert!(!MenuState::NewValue(b"nosuch".to_vec()).secret_echo(&menu));
    assert!(!MenuState::Menu.secret_echo(&menu));
    assert!(!MenuState::Idle.secret_echo(&menu));
}

#[test]
fn masked_echo_hides_every_typed_byte() {
    let mut reader = LineReader::new(8);
    let (echo, done) = reader.feed(b's', true);
    assert_eq!(echo, b'*');
    assert!(done.is_none());
    let (echo, done) = reader.feed(b'!', true);
    assert_eq!(echo, b'*');
    assert!(done.is_none());
    let (echo, done) = reader.feed(13, true);
    assert_eq!(echo, 13);
    assert_eq!(done, Some(b"s!".to_vec()));
}

#[test]
fn plain_echo_returns_the_typed_byte() {
    let mut reader = LineReader::new(8);
    let (echo, done) = reader.feed(b'a', false);
    assert_eq!(echo, b'a');
    assert!(done.is_none());
    let (echo, done) = reader.feed(13, false);
    assert_eq!(echo, 13);
    assert_eq!(done, Some(b"a".to_vec()));
}

#[test]
fn overlong_line_is_truncated_not_failed() {
    let mut reader = LineReader::new(4);
    assert_eq!(reader.feed(b'a', false), (b'a', None));
    assert_eq!(reader.feed(b'b', false), (b'b', None));
    assert_eq!(reader.feed(b'c', false), (b'c', None));
    // The byte that fills the buffer completes the line as a truncated prefix.
    assert_eq!(reader.feed(b'd', false), (b'd', Some(b"abcd".to_vec())));
    // The reader is empty again and keeps working.
    assert_eq!(reader.feed(b'e', false), (b'e', None));
    assert_eq!(reader.feed(13, false), (13, Some(b"e".to_vec())));
}

#[test]
fn empty_line_on_immediate_terminator() {
    let mut reader = LineReader::new(4);
    assert_eq!(reader.feed(13, true), (13, Some(Vec::new())));
}

#[test]
fn parse_usize_accepts_plain_and_signed_decimals() {
    assert_eq!(parse_usize(b"0"), Some(0));
    assert_eq!(parse_usize(b"42"), Some(42));
    assert_eq!(parse_usize(b"+7"), Some(7));
    assert_eq!(parse_usize(b""), None);
    assert_eq!(parse_usize(b"+"), None);
    assert_eq!(parse_usize(b"4x"), None);
    assert_eq!(parse_usize(b"-1"), None);
    assert_eq!(parse_usize(b"99999999999999999999999999999"), None);
    assert_eq!(parse_usize(b"18446744073709551615"), Some(usize::MAX));
}

/// Drives a whole conversation the way the session loop does: bytes in, one
/// echo byte out per typed byte, lines handed to the state machine.
fn run_script(menu: &mut ConfigMenu, script: &[u8]) -> (MenuState, Vec<u8>) {
    let mut reader = LineReader::new(32);
    let mut state = MenuState::Idle;
    let mut echoes = Vec::new();
    for &byte in script {
        let masked = state.secret_echo(menu);
        let (echo, done) = reader.feed(byte, masked);
        echoes.push(echo);
        if let Some(line) = done {
            let (next, _effects) = state.got_line(menu, &line);
            state = next;
            let _prompts = state.run_state(menu);
        }
    }
    (state, echoes)
}

#[test]
fn scripted_session_sets_a_value() {
    let mut menu = fresh_menu();
    let (state, _) = run_script(&mut menu, b"m\r3\r0\rhello\r");
    assert!(matches!(state, MenuState::Menu));
    assert_eq!(read_value(&mut menu, b"token"), Ok(b"hello".to_vec()));
}

#[test]
fn scripted_session_masks_secret_input() {
    let mut menu = fresh_menu();
    // Open the menu, select the change flow, pick the secret entry by name,
    // then type its new value: only the value is masked.
    let script = b"m\r3\rwifi_pass\rhush\r";
    let (state, echoes) = run_script(&mut menu, script);
    assert!(matches!(state, MenuState::Menu));
    let expected: Vec<u8> = b"m\r3\rwifi_pass\r****\r".to_vec();
    assert_eq!(echoes, expected);
    let mut buf = ByteBuf::new(64);
    assert_eq!(menu.read_entry(b"wifi_pass", &mut buf), Ok(()));
    assert_eq!(buf.into_vec(), b"hush".to_vec());
}

use config_store::bounded::ByteBuf;
use config_store::configs::{ConfigEntry, ConfigMenu};
use config_store::key::make_key;
use config_store::medium::Medium;

fn token_entry() -> ConfigEntry {
    ConfigEntry::new(b"token".to_vec(), 16, b"Token value".to_vec(), false)
}

fn wide_entry() -> ConfigEntry {
    ConfigEntry::new(b"wide".to_vec(), 32, b"Wide value".to_vec(), false)
}

fn fresh_menu() -> ConfigMenu {
    ConfigMenu::new(vec![token_entry(), wide_entry()], make_key(b"passphrase"))
}

fn read_value(menu: &mut ConfigMenu, name: &[u8], cap: usize) -> Result<Vec<u8>, ()> {
    let mut buf = ByteBuf::new(cap);
    menu.read_entry(name, &mut buf)?;
    Ok(buf.into_vec())
}

#[test]
fn basic_set_get() {
    let mut menu = fresh_menu();
    assert_eq!(menu.store_entry(b"token", b"abc123"), Ok(()));
    assert_eq!(read_value(&mut menu, b"token", 32), Ok(b"abc123".to_vec()));
}

#[test]
fn overflow_rejection_keeps_prior_value() {
    let mut menu = fresh_menu();
    assert_eq!(menu.store_entry(b"token", b"abc123"), Ok(()));
    // One byte over the single-block span must be rejected outright.
    assert_eq!(menu.store_entry(b"token", b"01234567890123456"), Err(()));
    assert_eq!(read_value(&mut menu, b"token", 32), Ok(b"abc123".to_vec()));
}

#[test]
fn round_trip_full_block() {
    let mut menu = fresh_menu();
    assert_eq!(menu.store_entry(b"token", b"0123456789abcdef"), Ok(()));
    assert_eq!(
        read_value(&mut menu, b"token", 32),
        Ok(b"0123456789abcdef".to_vec())
    );
}

#[test]
fn round_trip_two_blocks() {
    let mut menu = fresh_menu();
    assert_eq!(menu.store_entry(b"wide", b"a-longer-value-spanning-blocks"), Ok(()));
    assert_eq!(
        read_value(&mut menu, b"wide", 32),
        Ok(b"a-longer-value-spanning-blocks".to_vec())
    );
}

#[test]
fn round_trip_empty_value() {
    let mut menu = fresh_menu();
    assert_eq!(menu.store_entry(b"token", b""), Ok(()));
    assert_eq!(read_value(&mut menu, b"token", 32), Ok(Vec::new()));
}

#[test]
fn reset_is_idempotent() {
    let mut menu = fresh_menu();
    assert_eq!(menu.store_entry(b"token", b"abc123"), Ok(()));
    assert_eq!(menu.store_entry(b"token", b""), Ok(()));
    assert_eq!(read_value(&mut menu, b"token", 32), Ok(Vec::new()));
    // Repeating the reset is a no-op: same bytes, same read.
    let before = menu.into_medium().into_bytes();
    let mut menu = ConfigMenu::with_medium(
        vec![token_entry(), wide_entry()],
        make_key(b"passphrase"),
        Medium::from_bytes(before.clone()),
    );
    assert_eq!(menu.store_entry(b"token", b""), Ok(()));
    let after = menu.into_medium().into_bytes();
    assert_eq!(before, after);
}

#[test]
fn reset_all_clears_every_entry() {
    let mut menu = fresh_menu();
    assert_eq!(menu.store_entry(b"token", b"abc123"), Ok(()));
    assert_eq!(menu.store_entry(b"wide", b"other"), Ok(()));
    assert_eq!(menu.store_entry(b"wifi_ssid", b"net"), Ok(()));
    menu.reset_all();
    assert_eq!(read_value(&mut menu, b"token", 32), Ok(Vec::new()));
    assert_eq!(read_value(&mut menu, b"wide", 32), Ok(Vec::new()));
    assert_eq!(read_value(&mut menu, b"wifi_ssid", 32), Ok(Vec::new()));
    assert_eq!(read_value(&mut menu, b"wifi_pass", 64), Ok(Vec::new()));
    assert_eq!(read_value(&mut menu, b"wifi_autostart", 32), Ok(Vec::new()));
}

#[test]
fn wrong_key_fails_the_ascii_check() {
    let mut menu = fresh_menu();
    assert_eq!(menu.store_entry(b"token", b"abc123"), Ok(()));
    let bytes = menu.into_medium().into_bytes();
    // The same persisted bytes under a different passphrase-derived key.
    let mut other = ConfigMenu::with_medium(
        vec![token_entry(), wide_entry()],
        make_key(b"a different passphrase"),
        Medium::from_bytes(bytes),
    );
    assert_eq!(read_value(&mut other, b"token", 32), Err(()));
}

#[test]
fn ciphertext_differs_from_plaintext() {
    let mut menu = fresh_menu();
    assert_eq!(menu.store_entry(b"token", b"abc123"), Ok(()));
    let bytes = menu.into_medium().into_bytes();
    let mut padded = b"abc123".to_vec();
    padded.resize(16, 0);
    // The first entry's span starts at offset zero; it must be enciphered.
    assert_ne!(&bytes[0..16], padded.as_slice());
}

#[test]
fn output_capacity_overflow_is_an_error() {
    let mut menu = fresh_menu();
    assert_eq!(menu.store_entry(b"wide", b"twenty-bytes-long-xx"), Ok(()));
    // A 16-byte output buffer cannot hold the 20-byte value.
    assert_eq!(read_value(&mut menu, b"wide", 16), Err(()));
    assert_eq!(
        read_value(&mut menu, b"wide", 32),
        Ok(b"twenty-bytes-long-xx".to_vec())
    );
}

#[test]
fn unknown_name_is_not_found() {
    let mut menu = fresh_menu();
    assert_eq!(menu.store_entry(b"missing", b"x"), Err(()));
    assert_eq!(read_value(&mut menu, b"missing", 32), Err(()));
    assert!(menu.get_entry(b"missing").is_err());
}

#[test]
fn lookup_by_index_and_name() {
    let menu = fresh_menu();
    assert_eq!(menu.get_entry_index(0).unwrap().name, b"token".to_vec());
    assert_eq!(menu.get_entry_index(1).unwrap().name, b"wide".to_vec());
    assert!(menu.get_entry_index(2).is_err());
    assert_eq!(menu.get_entry(b"wide").unwrap().n_blocks, 2);
    assert_eq!(menu.get_entry(b"wifi_pass").unwrap().n_blocks, 4);
    assert!(menu.get_entry(b"wifi_pass").unwrap().secret);
}

#[test]
fn offsets_follow_declaration_order() {
    let menu = fresh_menu();
    // token: 1 block at 0; wide: 2 blocks at 16; built-ins follow.
    assert_eq!(menu.entries[0].offset, 0);
    assert_eq!(menu.entries[1].offset, 16);
    assert_eq!(menu.wifi_ssid.offset, 48);
    assert_eq!(menu.wifi_pass.offset, 48 + 32);
    assert_eq!(menu.wifi_autostart.offset, 48 + 32 + 64);
}

#[test]
fn duplicate_names_resolve_to_the_first() {
    let first = ConfigEntry::new(b"dup".to_vec(), 16, b"First".to_vec(), false);
    let second = ConfigEntry::new(b"dup".to_vec(), 16, b"Second".to_vec(), false);
    let mut menu = ConfigMenu::new(vec![first, second], make_key(b"passphrase"));
    assert_eq!(menu.store_entry(b"dup", b"one"), Ok(()));
    assert_eq!(menu.get_entry(b"dup").unwrap().question, b"First".to_vec());
    assert_eq!(read_value(&mut menu, b"dup", 32), Ok(b"one".to_vec()));
    // The second slot never saw the write: its span still reads as unset.
    assert_eq!(menu.entries[1].offset, 16);
}

#[test]
fn declared_entry_shadows_builtin_name() {
    let shadow = ConfigEntry::new(b"wifi_ssid".to_vec(), 16, b"Shadow".to_vec(), false);
    let mut menu = ConfigMenu::new(vec![shadow], make_key(b"passphrase"));
    assert_eq!(menu.store_entry(b"wifi_ssid", b"mine"), Ok(()));
    assert_eq!(menu.get_entry(b"wifi_ssid").unwrap().question, b"Shadow".to_vec());
    assert_eq!(read_value(&mut menu, b"wifi_ssid", 32), Ok(b"mine".to_vec()));
}

#[test]
fn block_count_is_rounded_up() {
    assert_eq!(ConfigEntry::new(b"a".to_vec(), 1, b"q".to_vec(), false).n_blocks, 1);
    assert_eq!(ConfigEntry::new(b"a".to_vec(), 16, b"q".to_vec(), false).n_blocks, 1);
    assert_eq!(ConfigEntry::new(b"a".to_vec(), 17, b"q".to_vec(), false).n_blocks, 2);
    assert_eq!(ConfigEntry::new(b"a".to_vec(), 64, b"q".to_vec(), true).n_blocks, 4);
}

#[test]
fn check_name_compares_bytes() {
    let e = token_entry();
    assert!(e.check_name(b"token"));
    assert!(!e.check_name(b"toke"));
    assert!(!e.check_name(b"tokens"));
}

#[test]
fn derived_key_matches_reference_digest() {
    // SHA-256 of the passphrase bytes followed by the fixed salt, first half.
    assert_eq!(
        make_key(b"abc"),
        vec![25u8, 36, 175, 48, 206, 44, 73, 236, 111, 37, 237, 184, 223, 177, 143, 52]
    );
    assert_eq!(
        make_key(b""),
        vec![74u8, 31, 189, 197, 175, 35, 220, 226, 140, 95, 105, 4, 40, 93, 241, 76]
    );
    // Deterministic across calls.
    assert_eq!(make_key(b"hunter2"), make_key(b"hunter2"));
}

#[test]
fn autostart_hands_off_credentials_only_when_enabled() {
    let mut menu = fresh_menu();
    assert!(menu.autostart().is_none());
    assert_eq!(menu.store_entry(b"wifi_ssid", b"net"), Ok(()));
    assert_eq!(menu.store_entry(b"wifi_pass", b"secret"), Ok(()));
    assert!(menu.autostart().is_none());
    assert_eq!(menu.store_entry(b"wifi_autostart", b"yes"), Ok(()));
    let creds = menu.autostart().expect("autostart enabled with both entries set");
    assert_eq!(creds.ssid, b"net".to_vec());
    assert_eq!(creds.pass, b"secret".to_vec());
    // Anything but the enabling value disables the handoff.
    assert_eq!(menu.store_entry(b"wifi_autostart", b"no"), Ok(()));
    assert!(menu.autostart().is_none());
}

#[test]
fn medium_survives_rebuilding_the_store() {
    let mut menu = fresh_menu();
    assert_eq!(menu.store_entry(b"token", b"persist"), Ok(()));
    let bytes = menu.into_medium().into_bytes();
    let mut again = ConfigMenu::with_medium(
        vec![token_entry(), wide_entry()],
        make_key(b"passphrase"),
        Medium::from_bytes(bytes),
    );
    assert_eq!(read_value(&mut again, b"token", 32), Ok(b"persist".to_vec()));
}

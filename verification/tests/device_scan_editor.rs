use pico2w_shell::datetime::{DateTime, DayOfWeek};
use pico2w_shell::device::{ap_passkey_string, ap_ssid_string, short_uid_string, uid_string};
use pico2w_shell::editor::{EditEvent, LineEditor};
use pico2w_shell::logfile::{log_line, needs_rotation};
use pico2w_shell::scan::{chunks_of, scan_json, ScanEntry};

const UID: u64 = 0xE661_4C31_1B2A_5F22;

#[test]
fn id_text_is_sixteen_uppercase_hex_digits() {
    assert_eq!(uid_string(UID), "E6614C311B2A5F22");
    assert_eq!(uid_string(0), "0000000000000000");
    assert_eq!(uid_string(u64::MAX), "FFFFFFFFFFFFFFFF");
}

#[test]
fn names_derived_from_the_id() {
    assert_eq!(short_uid_string(UID), "2A5F22");
    assert_eq!(ap_ssid_string(UID), "Pico_2W_Shell_1B2A5F22");
    assert_eq!(ap_passkey_string(UID), "1B2A5F22");
}

fn entry(ssid: &[u8], rssi: i16) -> ScanEntry {
    ScanEntry { ssid: ssid.to_vec(), rssi }
}

#[test]
fn scan_report_lists_named_networks() {
    let es = vec![
        entry(b"Home", -40),
        entry(b"", -50),
        entry(b"  ", -60),
        entry(&[0xff], -70),
        entry("Café".as_bytes(), 5),
    ];
    assert_eq!(
        scan_json(&es),
        "[{\"ssid\":\"Home\",\"rssi\":-40},{\"ssid\":\"Unknown\",\"rssi\":-70},{\"ssid\":\"Café\",\"rssi\":5}]"
    );
    assert_eq!(scan_json(&Vec::new()), "[]");
}

#[test]
fn scan_report_drops_objects_that_do_not_fit() {
    let es: Vec<ScanEntry> = (0..40).map(|_| entry(&[b'a'; 32], -10)).collect();
    let json = scan_json(&es);
    assert_eq!(json.matches("{\"ssid\"").count(), 37);
    assert!(json.ends_with("},,,]"));
    assert_eq!(json.len(), 2039);
}

#[test]
fn scan_report_never_exceeds_its_buffer() {
    let es: Vec<ScanEntry> = (0..100).map(|_| entry(&[b'a'; 32], -10)).collect();
    let json = scan_json(&es);
    assert_eq!(json.len(), 2048);
    assert!(json.ends_with(','));
}

#[test]
fn report_is_sent_in_chunks_of_64() {
    let data: Vec<u8> = (0..130u32).map(|i| i as u8).collect();
    let chunks = chunks_of(&data);
    assert_eq!(chunks.len(), 3);
    assert_eq!(chunks[0], data[0..64].to_vec());
    assert_eq!(chunks[1], data[64..128].to_vec());
    assert_eq!(chunks[2], data[128..130].to_vec());
    assert_eq!(chunks.concat(), data);
    assert!(chunks_of(&[]).is_empty());
    assert_eq!(chunks_of(&[7u8; 64]).len(), 1);
}

fn feed_all(ed: &mut LineEditor, bytes: &[u8]) -> Vec<EditEvent> {
    bytes.iter().map(|&b| ed.feed(b)).collect()
}

#[test]
fn typed_line_is_echoed_and_submitted() {
    let mut ed = LineEditor::new();
    let evs = feed_all(&mut ed, b"help");
    assert!(evs.iter().zip(b"help".iter()).all(|(e, &c)| matches!(e, EditEvent::Echo(x) if *x == c)));
    match ed.feed(b'\r') {
        EditEvent::Submit(Some(line)) => assert_eq!(line, "help"),
        _ => panic!("expected the line"),
    }
    assert!(matches!(ed.feed(b'\n'), EditEvent::Submit(None)));
}

#[test]
fn erase_removes_the_last_byte() {
    let mut ed = LineEditor::new();
    assert!(matches!(ed.feed(0x08), EditEvent::Ignore));
    feed_all(&mut ed, b"lx");
    assert!(matches!(ed.feed(0x7f), EditEvent::Erase));
    feed_all(&mut ed, b"s");
    match ed.feed(b'\n') {
        EditEvent::Submit(Some(line)) => assert_eq!(line, "ls"),
        _ => panic!("expected the line"),
    }
}

#[test]
fn full_line_ignores_further_bytes() {
    let mut ed = LineEditor::new();
    feed_all(&mut ed, &[b'a'; 64]);
    assert!(matches!(ed.feed(b'b'), EditEvent::Ignore));
    match ed.feed(b'\r') {
        EditEvent::Submit(Some(line)) => assert_eq!(line, "a".repeat(64)),
        _ => panic!("expected the line"),
    }
}

#[test]
fn line_that_is_not_utf8_is_dropped() {
    let mut ed = LineEditor::new();
    assert!(matches!(ed.feed(0xff), EditEvent::Echo(0xff)));
    assert!(matches!(ed.feed(b'\r'), EditEvent::Submit(None)));
    feed_all(&mut ed, b"ok");
    match ed.feed(b'\r') {
        EditEvent::Submit(Some(line)) => assert_eq!(line, "ok"),
        _ => panic!("expected the line"),
    }
}

#[test]
fn log_rotation_threshold() {
    assert!(!needs_rotation(512000));
    assert!(needs_rotation(512001));
    assert!(!needs_rotation(0));
}

#[test]
fn log_line_with_and_without_clock() {
    assert_eq!(log_line(None, 1234, b"boot"), b"[1234 ms] boot\r\n".to_vec());
    let dt = DateTime {
        year: 2024,
        month: 1,
        day: 2,
        day_of_week: DayOfWeek::Tuesday,
        hour: 3,
        minute: 4,
        second: 5,
    };
    assert_eq!(log_line(Some(dt), 99, b"WiFi up"), b"[2024-01-02 03:04:05] WiFi up\r\n".to_vec());
}

#[test]
fn host_name_and_passkey_share_the_short_id() {
    let uid = uid_string(UID);
    let (head, _) = pico2w_shell::cli::info_report(&uid, None, None, None);
    let short = short_uid_string(UID);
    assert!(head.contains(&format!("Hostname: pico-{}.local\r\n", short)));
    let args = vec![short.clone()];
    let (outcome, _) = pico2w_shell::cli::auth_plan(&args, &uid);
    assert!(matches!(outcome, pico2w_shell::cli::AuthOutcome::Granted));
    assert!(uid.ends_with(&ap_passkey_string(UID)));
}

#[test]
fn different_times_give_different_dates() {
    let a = pico2w_shell::datetime::unix_to_datetime(1_000_000_000).unwrap();
    let b = pico2w_shell::datetime::unix_to_datetime(1_000_000_001).unwrap();
    assert_ne!(a, b);
    assert_eq!(a.second + 1, b.second);
}

#[test]
fn typing_then_erasing_restores_the_line() {
    let mut ed = LineEditor::new();
    feed_all(&mut ed, b"ab");
    ed.feed(b'c');
    ed.feed(0x08);
    match ed.feed(b'\r') {
        EditEvent::Submit(Some(line)) => assert_eq!(line, "ab"),
        _ => panic!("expected the line"),
    }
}

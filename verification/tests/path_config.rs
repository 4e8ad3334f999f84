use pico2w_shell::cli::lfs_path_str;
use pico2w_shell::config::{
    ntp_conf_bytes, read_ntp_conf, read_tz_conf, read_wifi_conf, tz_conf_bytes, utf8_newlines,
    wifi_conf_bytes,
};
use pico2w_shell::path::resolve_path_str;

#[test]
fn relative_path_with_parent_step() {
    assert_eq!(resolve_path_str("/", "a/b/../c"), "/a/c");
}

#[test]
fn parent_of_top_directory_is_root() {
    assert_eq!(resolve_path_str("/x", ".."), "/");
    assert_eq!(resolve_path_str("/", "../../x"), "/x");
}

#[test]
fn absolute_path_ignores_working_directory() {
    assert_eq!(resolve_path_str("/x", "/y/./z/"), "/y/z");
    assert_eq!(resolve_path_str("/elsewhere", "/y/./z/"), "/y/z");
}

#[test]
fn working_directory_with_or_without_trailing_slash() {
    assert_eq!(resolve_path_str("/a/", "b"), "/a/b");
    assert_eq!(resolve_path_str("/a", "b"), "/a/b");
    assert_eq!(resolve_path_str("", "b"), "/b");
}

#[test]
fn resolving_a_resolved_path_changes_nothing() {
    let once = resolve_path_str("/docs", "notes/../logs//today");
    assert_eq!(once, "/docs/logs/today");
    assert_eq!(resolve_path_str("/other", &once), once);
}

#[test]
fn file_system_form_drops_leading_slash() {
    assert_eq!(lfs_path_str("/a/c"), "a/c");
    assert_eq!(lfs_path_str("/"), "/");
}

#[test]
fn wifi_file_is_two_lines() {
    assert_eq!(wifi_conf_bytes("home", "secret"), b"home\nsecret".to_vec());
}

#[test]
fn wifi_file_fields_are_trimmed() {
    let c = read_wifi_conf(b"  home \n secret \r").unwrap();
    assert_eq!(c.ssid, "home");
    assert_eq!(c.pass, "secret");
}

#[test]
fn wifi_file_without_newline_or_empty_is_absent() {
    assert!(read_wifi_conf(b"no newline").is_none());
    assert!(read_wifi_conf(b"").is_none());
    assert!(read_wifi_conf(&[0xff, b'\n', 0x41]).is_none());
}

#[test]
fn wifi_credentials_survive_write_and_read() {
    let bytes = wifi_conf_bytes("My Net", "p4ss word");
    let c = read_wifi_conf(&bytes).unwrap();
    assert_eq!(c.ssid, "My Net");
    assert_eq!(c.pass, "p4ss word");
}

#[test]
fn newline_count_of_file_bytes() {
    assert_eq!(utf8_newlines(b"a\nb\nc"), 2);
    assert_eq!(utf8_newlines(&[0xff, b'\n']), 0);
}

#[test]
fn ntp_file_round_trip() {
    assert_eq!(ntp_conf_bytes("pool.example"), b"pool.example".to_vec());
    assert_eq!(read_ntp_conf(b" time.nist.gov \n").unwrap().server, "time.nist.gov");
    assert!(read_ntp_conf(b"").is_none());
    assert_eq!(read_ntp_conf(&ntp_conf_bytes("a.b")).unwrap().server, "a.b");
}

#[test]
fn tz_file_round_trip() {
    assert_eq!(tz_conf_bytes(-330), b"-330".to_vec());
    assert_eq!(tz_conf_bytes(0), b"0".to_vec());
    assert_eq!(read_tz_conf(b"540\n").unwrap().offset_minutes, 540);
    assert!(read_tz_conf(b"abc").is_none());
    assert!(read_tz_conf(b"").is_none());
    assert_eq!(read_tz_conf(&tz_conf_bytes(i32::MIN)).unwrap().offset_minutes, i32::MIN);
}

#[test]
fn resolved_paths_are_fixed_points_even_from_relative_directories() {
    let once = resolve_path_str("rel", "x/./y/..");
    assert_eq!(once, "/rel/x");
    assert_eq!(resolve_path_str("", &once), once);
    assert!(resolve_path_str("a", "../../..").starts_with('/'));
}

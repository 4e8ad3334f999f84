use pico2w_shell::config::NtpConfig;
use pico2w_shell::datetime::{ntp_to_local, push_datetime, unix_to_datetime, DateTime, DayOfWeek};
use pico2w_shell::ntp::{ntp_request, ntp_server, ntp_sync_outcome, ntp_sync_text, transmit_seconds};

fn dt(year: u16, month: u8, day: u8, dow: DayOfWeek, hour: u8, minute: u8, second: u8) -> DateTime {
    DateTime { year, month, day, day_of_week: dow, hour, minute, second }
}

fn text_of(d: &DateTime) -> String {
    let mut out = Vec::new();
    push_datetime(&mut out, d);
    out.iter().collect()
}

#[test]
fn epoch_is_thursday_first_of_january_1970() {
    assert_eq!(unix_to_datetime(0), Some(dt(1970, 1, 1, DayOfWeek::Thursday, 0, 0, 0)));
}

#[test]
fn end_of_first_day() {
    assert_eq!(unix_to_datetime(86399), Some(dt(1970, 1, 1, DayOfWeek::Thursday, 23, 59, 59)));
}

#[test]
fn leap_day_of_2000() {
    assert_eq!(unix_to_datetime(951782400), Some(dt(2000, 2, 29, DayOfWeek::Tuesday, 0, 0, 0)));
}

#[test]
fn a_recent_time() {
    assert_eq!(unix_to_datetime(1700000000), Some(dt(2023, 11, 14, DayOfWeek::Tuesday, 22, 13, 20)));
}

#[test]
fn largest_32_bit_time() {
    assert_eq!(unix_to_datetime(u32::MAX), Some(dt(2106, 2, 7, DayOfWeek::Sunday, 6, 28, 15)));
}

#[test]
fn date_text_is_zero_padded() {
    assert_eq!(text_of(&dt(2024, 3, 5, DayOfWeek::Tuesday, 7, 8, 9)), "2024-03-05 07:08:09");
}

#[test]
fn ntp_times_before_unix_epoch_are_rejected() {
    assert_eq!(ntp_to_local(0, None), None);
    assert_eq!(ntp_to_local(2208988800, Some(60)), None);
}

#[test]
fn ntp_time_without_offset_is_utc() {
    assert_eq!(ntp_to_local(2208988900, None), Some((100, false)));
}

#[test]
fn ntp_time_with_offsets() {
    assert_eq!(ntp_to_local(2208988900, Some(60)), Some((3700, true)));
    assert_eq!(ntp_to_local(2208988900, Some(-60)), Some((4294963796, true)));
}

#[test]
fn request_packet_is_client_mode_version_3() {
    let p = ntp_request();
    assert_eq!(p.len(), 48);
    assert_eq!(p[0], 0x1B);
    assert!(p[1..].iter().all(|&b| b == 0));
}

#[test]
fn transmit_timestamp_is_read_big_endian() {
    let mut resp = [0u8; 48];
    resp[40] = 0xE9;
    resp[41] = 0x0F;
    resp[42] = 0x3B;
    resp[43] = 0x80;
    assert_eq!(transmit_seconds(&resp, 48), Some(3910089600));
    assert_eq!(transmit_seconds(&resp, 47), None);
}

#[test]
fn configured_or_default_server() {
    assert_eq!(ntp_server(&None), "pool.ntp.org");
    let conf = Some(NtpConfig { server: "time.example".to_string() });
    assert_eq!(ntp_server(&conf), "time.example");
}

#[test]
fn sync_message_names_the_zone() {
    let d = dt(2023, 8, 3, DayOfWeek::Thursday, 6, 20, 0);
    assert_eq!(ntp_sync_text(&d, true), "NTP Sync: 2023-08-03 06:20:00 Local");
    assert_eq!(ntp_sync_text(&d, false), "NTP Sync: 2023-08-03 06:20:00 UTC");
}

#[test]
fn sync_outcome_with_time_zone() {
    let (d, msg) = ntp_sync_outcome(3900000000, Some(540)).unwrap();
    assert_eq!(d, dt(2023, 8, 3, DayOfWeek::Thursday, 6, 20, 0));
    assert_eq!(msg, "NTP Sync: 2023-08-03 06:20:00 Local");
    assert!(ntp_sync_outcome(1000, None).is_none());
}

#[test]
fn later_times_give_later_fields() {
    let times = [0u32, 59, 60, 3599, 3600, 86399, 86400, 951782399, 951782400, 4102444800];
    let fields: Vec<(u16, u8, u8, u8, u8, u8)> = times
        .iter()
        .map(|&t| {
            let d = unix_to_datetime(t).unwrap();
            (d.year, d.month, d.day, d.hour, d.minute, d.second)
        })
        .collect();
    for w in fields.windows(2) {
        assert!(w[0] < w[1]);
    }
}

use pico2w_shell::dhcp::{answer_request, build_reply, reply_kind_exec, request_in_bounds_exec};
use pico2w_shell::http::{fixed_reply, is_routable, ok_header_text, read_finished, route, HttpRoute};
use pico2w_shell::zeroconf::{link_local_address, mdns_answer_packet, query_matches, query_needle_bytes};

fn dhcp_request(options: &[u8]) -> [u8; 512] {
    let mut buf = [0u8; 512];
    buf[0] = 1;
    buf[4..8].copy_from_slice(&[0xde, 0xad, 0xbe, 0xef]);
    for i in 0..16 {
        buf[28 + i] = 0x10 + i as u8;
    }
    buf[240..240 + options.len()].copy_from_slice(options);
    buf
}

#[test]
fn discover_gets_an_offer() {
    let buf = dhcp_request(&[53, 1, 1, 255]);
    assert_eq!(reply_kind_exec(&buf, 300), Some(true));
    let r = answer_request(&buf, 300, [192, 168, 4, 1]).unwrap();
    assert_eq!(r.len(), 274);
    assert_eq!(&r[0..4], &[2, 1, 6, 0]);
    assert_eq!(&r[4..8], &[0xde, 0xad, 0xbe, 0xef]);
    assert_eq!(&r[16..20], &[192, 168, 4, 2]);
    assert_eq!(&r[20..24], &[192, 168, 4, 1]);
    assert_eq!(&r[28..44], &buf[28..44]);
    assert!(r[44..236].iter().all(|&b| b == 0));
    assert_eq!(&r[236..240], &[99, 130, 83, 99]);
    assert_eq!(&r[240..243], &[53, 1, 2]);
    assert_eq!(&r[243..249], &[54, 4, 192, 168, 4, 1]);
    assert_eq!(&r[249..255], &[51, 4, 0, 0, 14, 16]);
    assert_eq!(&r[255..261], &[1, 4, 255, 255, 255, 0]);
    assert_eq!(&r[261..267], &[3, 4, 192, 168, 4, 1]);
    assert_eq!(&r[267..273], &[6, 4, 192, 168, 4, 1]);
    assert_eq!(r[273], 255);
}

#[test]
fn request_gets_an_ack_after_padding() {
    let buf = dhcp_request(&[0, 0, 12, 2, b'p', b'c', 53, 1, 3, 255]);
    assert_eq!(reply_kind_exec(&buf, 512), Some(false));
    let r = build_reply(&buf, [10, 0, 0, 1], false);
    assert_eq!(&r[240..243], &[53, 1, 5]);
}

#[test]
fn packets_not_answered() {
    let mut buf = dhcp_request(&[53, 1, 1, 255]);
    assert_eq!(reply_kind_exec(&buf, 239), None);
    buf[0] = 2;
    assert!(answer_request(&buf, 300, [192, 168, 4, 1]).is_none());
    let buf = dhcp_request(&[12, 2, b'a', b'b', 255]);
    assert_eq!(reply_kind_exec(&buf, 300), None);
    let buf = dhcp_request(&[53, 1, 8, 255]);
    assert_eq!(reply_kind_exec(&buf, 300), None);
}

#[test]
fn options_running_past_the_buffer() {
    let buf = dhcp_request(&[12]);
    assert!(!request_in_bounds_exec(&buf[..241], 241));
    assert!(request_in_bounds_exec(&buf, 300));
    let short = [0u8; 10];
    assert!(request_in_bounds_exec(&short, 10));
}

#[test]
fn mdns_needle_for_short_id() {
    assert_eq!(query_needle_bytes("2A5F22"), b"\x0bpico-2A5F22\x05local".to_vec());
}

#[test]
fn mdns_query_matches_any_letter_case() {
    let needle = query_needle_bytes("2A5F22");
    let mut q = vec![0u8, 0, 0, 0, 0, 1, 0, 0, 0, 0, 0, 0];
    q.extend_from_slice(b"\x0bPICO-2a5f22\x05LOCAL\x00\x00\x01\x00\x01");
    assert!(query_matches(&q, &needle));
    let mut other = vec![0u8; 12];
    other.extend_from_slice(b"\x0bpico-000000\x05local\x00");
    assert!(!query_matches(&other, &needle));
    assert!(!query_matches(b"short", &needle));
}

#[test]
fn mdns_answer_layout() {
    let a = mdns_answer_packet(b"2A5F22", [192, 168, 0, 42]);
    let mut expected = vec![0x00u8, 0x00, 0x84, 0x00, 0x00, 0x00, 0x00, 0x01, 0x00, 0x00, 0x00, 0x00];
    expected.extend_from_slice(b"\x0bpico-2A5F22\x05local\x00");
    expected.extend_from_slice(&[0x00, 0x01, 0x00, 0x01, 0x00, 0x00, 0x00, 0x78, 0x00, 0x04]);
    expected.extend_from_slice(&[192, 168, 0, 42]);
    assert_eq!(a, expected);
    assert_eq!(a.len(), 45);
}

#[test]
fn link_local_address_from_mac() {
    assert_eq!(link_local_address([0, 1, 2, 3, 253, 7]), [169, 254, 254, 7]);
    assert_eq!(link_local_address([0, 1, 2, 3, 254, 9]), [169, 254, 1, 9]);
    assert_eq!(link_local_address([0, 1, 2, 3, 0, 0]), [169, 254, 1, 0]);
}

#[test]
fn get_request_is_complete_at_blank_line() {
    assert!(read_finished(b"GET / HTTP/1.1\r\nHost: x\r\n\r\n", 2048));
    assert!(!read_finished(b"GET / HTTP/1.1\r\nHost: x\r\n", 2048));
    assert!(read_finished(b"GET", 3));
}

#[test]
fn post_request_waits_for_declared_body() {
    assert!(read_finished(b"POST /cmd HTTP/1.1\r\nContent-Length: 4\r\n\r\nhelp", 2048));
    assert!(!read_finished(b"POST /cmd HTTP/1.1\r\nContent-Length: 4\r\n\r\nhel", 2048));
    assert!(read_finished(b"POST /cmd HTTP/1.1\r\ncontent-length:  2 \r\n\r\nab", 2048));
    assert!(!read_finished(b"POST /cmd HTTP/1.1\r\nContent-length: 3\r\n\r\nab", 2048));
    assert!(read_finished(b"POST /cmd HTTP/1.1\r\nContent-Length: x\r\n\r\n", 2048));
    assert!(read_finished(b"POST /cmd HTTP/1.1\r\nHost: y\r\n\r\n", 2048));
    assert!(!read_finished(&[b'P', b'O', 0xff], 2048));
    assert!(read_finished("POST / HTTP/1.1\r\nContent-Length: 2\r\n\r\né".as_bytes(), 2048));
}

#[test]
fn routing_in_station_mode() {
    assert!(matches!(route(b"GET / HTTP/1.1\r\n\r\n", true), HttpRoute::Page));
    assert!(matches!(route(b"GET /scan HTTP/1.1\r\n\r\n", true), HttpRoute::NotFound));
    match route(b"POST /cmd HTTP/1.1\r\nContent-Length: 12\r\n\r\n  led on \0\0", true) {
        HttpRoute::Command(c) => assert_eq!(c, "led on"),
        _ => panic!("expected a command"),
    }
    assert!(matches!(route(b"POST /cmd HTTP/1.1\r\n\r\n \r\n", true), HttpRoute::EmptyCommand));
    assert!(matches!(route(b"POST /cmd HTTP/1.1\r\n", true), HttpRoute::MissingBody));
    let mut long = b"POST /cmd HTTP/1.1\r\n\r\n".to_vec();
    long.extend_from_slice(&[b'e'; 257]);
    match route(&long, true) {
        HttpRoute::Command(c) => assert_eq!(c, ""),
        _ => panic!("expected a command"),
    }
    assert!(matches!(route(b"POST /connect HTTP/1.1\r\n\r\na\nb", true), HttpRoute::NotFound));
    assert!(matches!(route(b"", true), HttpRoute::Silent));
    assert!(matches!(route(&[0xff, 0xfe], true), HttpRoute::Silent));
}

#[test]
fn routing_in_setup_mode() {
    assert!(matches!(route(b"GET / HTTP/1.1\r\n\r\n", false), HttpRoute::Page));
    assert!(matches!(route(b"GET /scan HTTP/1.1\r\n\r\n", false), HttpRoute::Scan));
    match route(b"POST /connect HTTP/1.1\r\n\r\n My Net \n s3cret \0", false) {
        HttpRoute::Connect { ssid, pass } => {
            assert_eq!(ssid, "My Net");
            assert_eq!(pass, "s3cret");
        }
        _ => panic!("expected credentials"),
    }
    assert!(matches!(route(b"POST /connect HTTP/1.1\r\n\r\nonlyone", false), HttpRoute::InvalidBody));
    assert!(matches!(route(b"POST /connect HTTP/1.1\r\n", false), HttpRoute::Silent));
    assert!(matches!(route(b"POST /cmd HTTP/1.1\r\n\r\nhelp", false), HttpRoute::NotFound));
    assert!(matches!(route(b"DELETE / HTTP/1.1\r\n\r\n", false), HttpRoute::NotFound));
}

#[test]
fn three_line_connect_body_is_not_routable() {
    assert!(!is_routable(b"POST /connect HTTP/1.1\r\n\r\na\nb\nc", false));
    assert!(is_routable(b"POST /connect HTTP/1.1\r\n\r\na\nb", false));
    assert!(is_routable(b"POST /connect HTTP/1.1\r\n\r\na\nb\nc", true));
    assert!(is_routable(b"GET / HTTP/1.1\r\n\r\na\nb\nc", false));
}

#[test]
fn success_header_carries_length() {
    assert_eq!(
        ok_header_text(true, 17),
        "HTTP/1.1 200 OK\r\nConnection: close\r\nContent-Type: application/json; charset=utf-8\r\nContent-Length: 17\r\n\r\n"
    );
    assert_eq!(
        ok_header_text(false, 0),
        "HTTP/1.1 200 OK\r\nConnection: close\r\nContent-Type: text/plain; charset=utf-8\r\nContent-Length: 0\r\n\r\n"
    );
}

#[test]
fn fixed_replies() {
    let c = HttpRoute::Connect { ssid: "a".to_string(), pass: "b".to_string() };
    assert_eq!(fixed_reply(&c, true).unwrap(), "HTTP/1.1 200 OK\r\nConnection: close\r\n\r\nSuccess");
    assert_eq!(
        fixed_reply(&c, false).unwrap(),
        "HTTP/1.1 500 Internal Server Error\r\nConnection: close\r\n\r\nFS Error"
    );
    assert_eq!(
        fixed_reply(&HttpRoute::InvalidBody, true).unwrap(),
        "HTTP/1.1 400 Bad Request\r\nConnection: close\r\n\r\nInvalid Body"
    );
    assert_eq!(
        fixed_reply(&HttpRoute::EmptyCommand, true).unwrap(),
        "HTTP/1.1 200 OK\r\nConnection: close\r\n\r\n[Empty command ignored]\r\n"
    );
    assert_eq!(
        fixed_reply(&HttpRoute::MissingBody, true).unwrap(),
        "HTTP/1.1 400 Bad Request\r\nConnection: close\r\n\r\nMissing Body"
    );
    assert_eq!(
        fixed_reply(&HttpRoute::NotFound, true).unwrap(),
        "HTTP/1.1 404 Not Found\r\nConnection: close\r\n\r\n"
    );
    assert!(fixed_reply(&HttpRoute::Page, true).is_none());
    assert!(fixed_reply(&HttpRoute::Silent, true).is_none());
}

#[test]
fn posted_credentials_are_read_back_after_reboot() {
    match route(b"POST /connect HTTP/1.1\r\nContent-Length: 19\r\n\r\n Cafe Net \n pw 123 ", false) {
        HttpRoute::Connect { ssid, pass } => {
            let stored = pico2w_shell::config::wifi_conf_bytes(&ssid, &pass);
            let read = pico2w_shell::config::read_wifi_conf(&stored).unwrap();
            assert_eq!(read.ssid, "Cafe Net");
            assert_eq!(read.pass, "pw 123");
        }
        _ => panic!("expected credentials"),
    }
}

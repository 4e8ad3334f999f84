use pico2w_shell::cli::{
    auth_plan, buffer_output, cat_dir_error_text, cat_plan, cd_plan, commands, dispatch, echo_text,
    find_command, help_text, info_report, is_root, led_plan, level_name_of, local_time_line, log_plan,
    ls_entry_text, ls_header_text, ls_plan, mkdir_plan, ntp_plan, ntp_show_text, push_dir_entry, pwd,
    token_count, tz_set_argument, wifi_reset_requested, AuthCommand, AuthOutcome, Command,
    CommandEnum, DirEntryInfo, Dispatch, FsPlan, HelpCommand, LedCommand, LogAction, NtpAction,
    TzCommand,
};
use pico2w_shell::datetime::{DateTime, DayOfWeek};

fn words(ws: &[&str]) -> Vec<String> {
    ws.iter().map(|w| w.to_string()).collect()
}

#[test]
fn command_table_order_and_names() {
    let cmds = commands();
    let names: Vec<&str> = cmds.iter().map(|c| c.name()).collect::<Vec<_>>();
    let expected = vec![
        "help", "led", "info", "echo", "log", "auth", "reboot", "mkdir", "cd", "ls", "cat", "wifi",
        "sys_scan", "ntp", "tz",
    ];
    let names: Vec<String> = names.iter().map(|s| s.to_string()).collect();
    assert_eq!(names, expected);
}

#[test]
fn commands_open_without_authentication() {
    let open: Vec<String> = commands()
        .iter()
        .filter(|c| !c.authenticated())
        .map(|c| c.name().to_string())
        .collect();
    assert_eq!(open, vec!["help", "auth", "reboot", "ntp", "tz"]);
}

#[test]
fn command_structs_describe_themselves() {
    assert_eq!(HelpCommand.name(), "help");
    assert_eq!(HelpCommand.description(), "Show this help");
    assert!(!AuthCommand.authenticated());
    assert!(LedCommand.authenticated());
    assert_eq!(TzCommand.description(), "Set/Show timezone offset (e.g. tz set 9)");
}

#[test]
fn finding_commands_by_name() {
    let c: Vec<char> = "cat".chars().collect();
    assert!(matches!(find_command(&c), Some(CommandEnum::Cat(_))));
    let c: Vec<char> = "rm".chars().collect();
    assert!(find_command(&c).is_none());
}

#[test]
fn empty_line_does_nothing() {
    assert!(matches!(dispatch("   ", true, false), Dispatch::Empty));
    assert_eq!(token_count("  a b  c "), 3);
}

#[test]
fn unknown_command_is_named_in_reply() {
    match dispatch("frobnicate now", false, false) {
        Dispatch::Unknown(r) => assert_eq!(r, "Unknown command: frobnicate\r\n"),
        _ => panic!("expected an unknown command"),
    }
}

#[test]
fn unauthenticated_session_is_refused_protected_command() {
    match dispatch("led on", true, false) {
        Dispatch::Unauthorized(r) => {
            assert_eq!(r, "Unauthored. Please run 'auth <passkey>' first.\r\n")
        }
        _ => panic!("expected a refusal"),
    }
}

#[test]
fn open_command_runs_without_authentication() {
    match dispatch("auth 12AB34", true, false) {
        Dispatch::Run(CommandEnum::Auth(_), args) => assert_eq!(args, vec!["12AB34"]),
        _ => panic!("expected auth to run"),
    }
}

#[test]
fn authenticated_or_local_session_runs_protected_command() {
    match dispatch("  led   on ", true, true) {
        Dispatch::Run(CommandEnum::Led(_), args) => assert_eq!(args, vec!["on"]),
        _ => panic!("expected led to run"),
    }
    match dispatch("echo a b", false, false) {
        Dispatch::Run(CommandEnum::Echo(_), args) => assert_eq!(args, vec!["a", "b"]),
        _ => panic!("expected echo to run"),
    }
}

#[test]
fn help_lists_every_command_aligned() {
    let mut expected = String::from("Available commands:\r\n");
    for c in commands() {
        expected.push_str(&format!("  {:<12} - {}\r\n", c.name(), c.description()));
    }
    assert_eq!(help_text(), expected);
    assert!(help_text().contains("  sys_scan     - Internal system scan command\r\n"));
}

#[test]
fn led_decisions() {
    let (l, r) = led_plan(&words(&[]));
    assert_eq!((l, r.as_str()), (None, "Usage: led <on|off>\r\n"));
    let (l, r) = led_plan(&words(&["on"]));
    assert_eq!((l, r.as_str()), (Some(true), "LED is ON\r\n"));
    let (l, r) = led_plan(&words(&["off", "x"]));
    assert_eq!((l, r.as_str()), (Some(false), "LED is OFF\r\n"));
    let (l, r) = led_plan(&words(&["blink"]));
    assert_eq!((l, r.as_str()), (None, "Unknown LED state. Use 'on' or 'off'.\r\n"));
}

#[test]
fn echo_joins_with_spaces() {
    assert_eq!(echo_text(&words(&["hello", "world"])), "hello world\r\n");
    assert_eq!(echo_text(&words(&[])), "\r\n");
}

#[test]
fn info_report_lines() {
    let dt = DateTime {
        year: 2024,
        month: 1,
        day: 2,
        day_of_week: DayOfWeek::Tuesday,
        hour: 3,
        minute: 4,
        second: 5,
    };
    let (head, clock) = info_report("E6614C311B2A5F22", Some("HomeNet"), Some([192, 168, 0, 42]), Some(dt));
    assert_eq!(
        head,
        "System: Raspberry Pi Pico 2 W\r\nCPU: RP2350 (RISC-V/ARM)\r\nWiFi/BLE: CYW43439\r\nUID: E6614C311B2A5F22\r\nMode: Station (Connected to HomeNet)\r\nIP: 192.168.0.42\r\nHostname: pico-2A5F22.local\r\n"
    );
    assert_eq!(clock, "RTC Time: 2024-01-02 03:04:05\r\n");
    let (head, clock) = info_report("ABC", None, None, None);
    assert!(head.ends_with("Mode: Setup SoftAP (AP Mode)\r\nIP: Not acquired\r\nHostname: pico-ABC.local\r\n"));
    assert_eq!(clock, "RTC Time: Not synchronized\r\n");
}

#[test]
fn log_level_names() {
    assert_eq!(level_name_of(0), "error");
    assert_eq!(level_name_of(4), "trace");
    assert_eq!(level_name_of(9), "unknown");
}

#[test]
fn log_decisions() {
    let (a, r) = log_plan(&words(&[]), 2);
    assert!(matches!(a, LogAction::ShowLevel));
    assert_eq!(r, "Current log level: info\r\n");
    let (a, r) = log_plan(&words(&["print"]), 2);
    assert!(matches!(a, LogAction::Print));
    assert_eq!(r, "");
    let (a, r) = log_plan(&words(&["clear"]), 2);
    assert!(matches!(a, LogAction::Clear));
    assert_eq!(r, "Log cleared.\r\n");
    let (a, r) = log_plan(&words(&["record", "disk", "full"]), 2);
    match a {
        LogAction::Record(m) => assert_eq!(m, "disk full"),
        _ => panic!("expected a record"),
    }
    assert_eq!(r, "Log recorded.\r\n");
    let (a, r) = log_plan(&words(&["record"]), 2);
    assert!(matches!(a, LogAction::RecordUsage));
    assert_eq!(r, "Usage: log record <message>\r\n");
    let (a, r) = log_plan(&words(&["debug"]), 2);
    assert!(matches!(a, LogAction::SetLevel(3)));
    assert_eq!(r, "Log level set to debug\r\n");
    let (a, r) = log_plan(&words(&["loud"]), 2);
    assert!(matches!(a, LogAction::Invalid));
    assert_eq!(
        r,
        "Invalid use. Subcommands: print, clear, record. Levels: error, warn, info, debug, trace\r\n"
    );
}

#[test]
fn log_record_message_is_bounded() {
    let long = "x".repeat(253);
    let (a, _) = log_plan(&words(&["record", &long, "tail"]), 0);
    match a {
        LogAction::Record(m) => assert_eq!(m, format!("{} ", long)),
        _ => panic!("expected a record"),
    }
}

#[test]
fn auth_decisions() {
    let uid = "E6614C311B2A5F22";
    let (o, r) = auth_plan(&words(&[]), uid);
    assert!(matches!(o, AuthOutcome::Usage));
    assert_eq!(r, "Usage: auth <passkey>\r\n");
    let (o, r) = auth_plan(&words(&["2A5F22"]), uid);
    assert!(matches!(o, AuthOutcome::Granted));
    assert_eq!(r, "Authentication successful. Shell unlocked.\r\n");
    let (o, r) = auth_plan(&words(&["2a5f22"]), uid);
    assert!(matches!(o, AuthOutcome::Denied));
    assert_eq!(r, "Authentication failed. Incorrect passkey.\r\n");
}

#[test]
fn working_directory_defaults_to_root() {
    assert_eq!(pwd(""), "/");
    assert_eq!(pwd("/logs"), "/logs");
}

#[test]
fn file_system_plans() {
    match mkdir_plan(&words(&[]), "/") {
        FsPlan::Usage(u) => assert_eq!(u, "Usage: mkdir <path>\r\n"),
        _ => panic!("expected usage"),
    }
    match cd_plan(&words(&["../b"]), "/a") {
        FsPlan::Target(r, l) => {
            assert_eq!(r, "/b");
            assert_eq!(l, "b");
        }
        _ => panic!("expected a target"),
    }
    match cat_plan(&words(&["x.txt"]), "/docs") {
        FsPlan::Target(r, l) => {
            assert_eq!(r, "/docs/x.txt");
            assert_eq!(l, "docs/x.txt");
        }
        _ => panic!("expected a target"),
    }
    assert_eq!(ls_plan(&words(&[]), "/docs"), ("/docs".to_string(), "docs".to_string()));
    assert_eq!(ls_plan(&words(&[".."]), "/docs"), ("/".to_string(), "/".to_string()));
    assert!(is_root("/"));
    assert!(!is_root("/a"));
}

#[test]
fn listing_lines() {
    assert_eq!(ls_header_text("/docs"), "Directory of /docs:\r\n");
    assert_eq!(cat_dir_error_text("docs"), "error: docs is a directory\r\n");
    let long = "d".repeat(60);
    assert_eq!(cat_dir_error_text(&long), "error: ");
    let dir = DirEntryInfo { name: "logs".to_string(), is_dir: true, size: 0 };
    assert_eq!(ls_entry_text(&dir), "[DIR]  logs\r\n");
    let file = DirEntryInfo { name: "syslog.txt".to_string(), is_dir: false, size: 1234 };
    assert_eq!(ls_entry_text(&file), "[FILE] syslog.txt (1234 bytes)\r\n");
}

#[test]
fn listing_keeps_at_most_32_entries() {
    let mut entries = Vec::new();
    for i in 0..40 {
        push_dir_entry(&mut entries, &format!("f{}", i), false, i);
    }
    assert_eq!(entries.len(), 32);
    assert_eq!(entries[31].name, "f31");
    let mut entries = Vec::new();
    push_dir_entry(&mut entries, &"n".repeat(65), false, 1);
    assert_eq!(entries[0].name, "");
}

#[test]
fn wifi_reset_needs_the_word_reset() {
    assert!(wifi_reset_requested(&words(&["reset"])));
    assert!(!wifi_reset_requested(&words(&[])));
    assert!(!wifi_reset_requested(&words(&["restart"])));
}

#[test]
fn ntp_decisions() {
    assert!(matches!(ntp_plan(&words(&[])), NtpAction::Show));
    match ntp_plan(&words(&["set", "time.example"])) {
        NtpAction::Save(s) => assert_eq!(s, "time.example"),
        _ => panic!("expected a save"),
    }
    assert!(matches!(ntp_plan(&words(&["set"])), NtpAction::SaveUsage));
    assert!(matches!(ntp_plan(&words(&["get"])), NtpAction::Unknown));
    assert_eq!(ntp_show_text(Some("a.b")), "Current NTP Server: a.b\r\n");
    assert_eq!(ntp_show_text(None), "NTP Server: Not configured (using pool.ntp.org)\r\n");
}

#[test]
fn tz_decisions() {
    assert_eq!(tz_set_argument(&words(&["set", "9"])), Some("9".to_string()));
    assert_eq!(tz_set_argument(&words(&["set"])), None);
    assert_eq!(tz_set_argument(&words(&["show", "9"])), None);
    let dt = DateTime {
        year: 2024,
        month: 12,
        day: 31,
        day_of_week: DayOfWeek::Tuesday,
        hour: 23,
        minute: 59,
        second: 58,
    };
    assert_eq!(local_time_line(&dt), "Current Local Time: 2024-12-31 23:59:58\r\n");
}

#[test]
fn collected_output_keeps_utf8_that_fits() {
    let mut buf = String::new();
    buffer_output(&mut buf, b"abc");
    buffer_output(&mut buf, &[0xff]);
    assert_eq!(buf, "abc");
    let big = vec![b'x'; 2046];
    buffer_output(&mut buf, &big);
    assert_eq!(buf.len(), 3);
    buffer_output(&mut buf, &big[..2045]);
    assert_eq!(buf.len(), 2048);
}

#[test]
fn long_lines_pass_every_word_on() {
    match dispatch("echo a b c d e f g h i", false, false) {
        Dispatch::Run(CommandEnum::Echo(_), args) => {
            assert_eq!(args.len(), 9);
            assert_eq!(echo_text(&args), "a b c d e f g h i\r\n");
        }
        _ => panic!("expected echo to run"),
    }
    let mut collected = String::new();
    if let Dispatch::Run(_, args) = dispatch("echo 1 2 3 4 5 6 7 8 9 10 11 12", false, false) {
        pico2w_shell::cli::buffer_output(&mut collected, echo_text(&args).as_bytes());
    }
    assert_eq!(collected, "1 2 3 4 5 6 7 8 9 10 11 12\r\n");
}

#[test]
fn command_names_are_distinct_words() {
    let cmds = commands();
    let names: Vec<&str> = cmds.iter().map(|c| c.name()).collect();
    for (i, a) in names.iter().enumerate() {
        assert!(!a.is_empty() && a.len() <= 12 && !a.chars().any(char::is_whitespace));
        for b in names.iter().skip(i + 1) {
            assert_ne!(a, b);
        }
        let w: Vec<char> = a.chars().collect();
        assert_eq!(find_command(&w).map(|c| c.name().to_string()), Some(a.to_string()));
    }
    for word in ["help", "led", "info", "echo", "reboot", "auth", "log", "mkdir", "cd", "ls", "cat", "wifi"] {
        assert_eq!(names.iter().filter(|n| **n == word).count(), 1);
    }
}

use active_app_volume::parse::{active_pid_from_text, parse_status_ppid, parse_u32};

#[test]
fn decimal_u32_follows_str_parse() {
    assert_eq!(parse_u32("42"), Some(42));
    assert_eq!(parse_u32("+7"), Some(7));
    assert_eq!(parse_u32("007"), Some(7));
    assert_eq!(parse_u32("0"), Some(0));
    assert_eq!(parse_u32("4294967295"), Some(u32::MAX));
    assert_eq!(parse_u32("4294967296"), None);
    assert_eq!(parse_u32("99999999999999999999"), None);
    assert_eq!(parse_u32(""), None);
    assert_eq!(parse_u32("+"), None);
    assert_eq!(parse_u32("-1"), None);
    assert_eq!(parse_u32(" 5"), None);
    assert_eq!(parse_u32("12a"), None);
    assert_eq!(parse_u32("self"), None);
    for text in ["1", "65535", "+0", "123456789", "4294967295", "x", "1 ", "++1"] {
        assert_eq!(parse_u32(text), text.parse::<u32>().ok());
    }
}

#[test]
fn status_parent_pid_is_read_from_the_first_ppid_line() {
    let status = "Name:\tbrave\nUmask:\t0022\nState:\tS (sleeping)\nTgid:\t4242\nPid:\t4242\nPPid:\t1337\nTracerPid:\t0\n";
    assert_eq!(parse_status_ppid(status), Some(1337));
    assert_eq!(parse_status_ppid("PPid:\t1\n"), Some(1));
    assert_eq!(parse_status_ppid("PPid:  99  \r\n"), Some(99));
    assert_eq!(parse_status_ppid("Pid:\t5\nPPid:\t6"), Some(6));
    assert_eq!(parse_status_ppid("PPid:\tx\nPPid:\t3\n"), None);
    assert_eq!(parse_status_ppid("Name:\tPPid:\t3\n"), None);
    assert_eq!(parse_status_ppid("Name:\tinit\n"), None);
    assert_eq!(parse_status_ppid(""), None);
    assert_eq!(parse_status_ppid("PPid:"), None);
    assert_eq!(parse_status_ppid("PPid:\u{a0}8\u{3000}"), Some(8));
}

#[test]
fn active_pid_text_that_is_no_number_means_no_window() {
    assert_eq!(active_pid_from_text("31337"), 31337);
    assert_eq!(active_pid_from_text(""), 0);
    assert_eq!(active_pid_from_text("nope"), 0);
    assert_eq!(active_pid_from_text("-5"), 0);
}

use fbuilder::number::{parse_i64, parse_u32};
use fbuilder::trace::{is_trace_line, parse_action, Action};

#[test]
fn parse_trace_string_to_action() {
    let parse_result =
        parse_action("4:top:fopen /proc/sys/kernel/osrelease:0x57b4d4d33540".to_string());
    assert!(parse_result.is_ok());
    assert_eq!(
        Action {
            id_x: 4,
            bin_name: "top".to_owned(),
            syscall: "fopen".to_owned(),
            file_path: "/proc/sys/kernel/osrelease".to_owned(),
            val: Some(0x57b4d4d33540),
        },
        parse_result.unwrap()
    );
}

#[test]
fn parse_decimal_and_negative_values() {
    let a = parse_action("12:ls:open /etc/passwd:3".to_string()).unwrap();
    assert_eq!(a.id_x, 12);
    assert_eq!(a.val, Some(3));
    let b = parse_action("1:ls:open /etc/passwd:-1".to_string()).unwrap();
    assert_eq!(b.val, Some(-1));
    let c = parse_action("1:ls:exec /usr/bin/ls:-9223372036854775808".to_string()).unwrap();
    assert_eq!(c.val, Some(i64::MIN));
}

#[test]
fn parse_value_that_reads_as_nothing() {
    // neither decimal nor hexadecimal after the first two bytes
    let a = parse_action("2:cat:open /tmp/x:zz".to_string()).unwrap();
    assert_eq!(a.val, None);
    let b = parse_action("2:cat:open /tmp/x:0xzz".to_string()).unwrap();
    assert_eq!(b.val, None);
    // two bytes that are not a number leave an empty rest
    let c = parse_action("2:cat:open /tmp/x:ab".to_string()).unwrap();
    assert_eq!(c.val, None);
}

#[test]
fn malformed_lines_are_not_trace_lines() {
    assert!(is_trace_line("4:top:fopen /proc/sys/kernel/osrelease:0x57b4d4d33540"));
    // empty, three fields, five fields
    assert!(!is_trace_line(""));
    assert!(!is_trace_line("4:top:fopen /proc"));
    assert!(!is_trace_line("4:top:fopen /proc:1:2"));
    // no space, or two spaces, in the third field
    assert!(!is_trace_line("4:top:fopen:0x1"));
    assert!(!is_trace_line("4:top:fopen /a /b:0x1"));
    // id not a u32
    assert!(!is_trace_line("x:top:fopen /proc:0x1"));
    assert!(!is_trace_line("-1:top:fopen /proc:0x1"));
    assert!(!is_trace_line("4294967296:top:fopen /proc:0x1"));
    // value too short to cut after two bytes
    assert!(!is_trace_line("4:top:fopen /proc:z"));
    assert!(!is_trace_line("4:top:fopen /proc:"));
    // a two-byte character where the cut would fall
    assert!(is_trace_line("4:top:fopen /proc:\u{e9}"));
    assert!(!is_trace_line("4:top:fopen /proc:a\u{e9}"));
}

#[test]
fn written_lines_read_back() {
    for (id, bin, sys, path, v) in [
        (0u32, "top", "fopen", "/proc/x", 0i64),
        (u32::MAX, "a b", "exec", "/usr/bin/a", i64::MAX),
        (7, "", "open", "", i64::MIN),
        (12, "x", "open", "/etc/passwd", -5),
    ] {
        let expected = Action {
            id_x: id,
            bin_name: bin.to_string(),
            syscall: sys.to_string(),
            file_path: path.to_string(),
            val: Some(v),
        };
        let dec = format!("{}:{}:{} {}:{}", id, bin, sys, path, v);
        assert_eq!(parse_action(dec), Ok(expected.clone()));
        if v >= 0 {
            let hex = format!("{}:{}:{} {}:0x{:x}", id, bin, sys, path, v);
            assert_eq!(parse_action(hex), Ok(expected));
        }
    }
}

#[test]
fn parse_hex_after_a_multibyte_prefix() {
    // the two bytes cut off are one character here
    let a = parse_action("4:top:fopen /proc:\u{e9}ff".to_string()).unwrap();
    assert_eq!(a.val, Some(0xff));
}

#[test]
fn numbers_as_std_reads_them() {
    assert_eq!(parse_u32(b"+5"), Some(5));
    assert_eq!(parse_u32(b"-5"), None);
    assert_eq!(parse_u32(b"+"), None);
    assert_eq!(parse_u32(b""), None);
    assert_eq!(parse_u32(b"4294967295"), Some(u32::MAX));
    assert_eq!(parse_u32(b"4294967296"), None);
    assert_eq!(parse_i64(b"0x7fffffffffffffff", 2, 16), Some(i64::MAX));
    assert_eq!(parse_i64(b"0x8000000000000000", 2, 16), None);
    assert_eq!(parse_i64(b"-8000000000000000", 0, 16), Some(i64::MIN));
    assert_eq!(parse_i64(b"12a", 0, 10), None);
    assert_eq!(parse_i64(b"ABcd", 0, 16), Some(0xabcd));
    for s in ["0", "+17", "-17", "9223372036854775807", "-9223372036854775808", "9223372036854775808", "1_0", " 1"] {
        assert_eq!(parse_i64(s.as_bytes(), 0, 10), i64::from_str_radix(s, 10).ok(), "{}", s);
    }
    for s in ["0", "+17", "-", "+", "ff", "FF", "fg", "-ff"] {
        assert_eq!(parse_i64(s.as_bytes(), 0, 16), i64::from_str_radix(s, 16).ok(), "{}", s);
    }
}

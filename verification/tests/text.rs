use apollo::text::{bytes_eq, bytes_le_exec, constant_time_eq, name_le_exec, parse_u32, str_eq};

#[test]
fn parse_u32_reads_what_the_standard_parser_reads() {
    let samples = [
        "", "0", "7", "42", "+42", "-42", "+", "-", "++1", "+-1", " 1", "1 ", "1_000", "0x10",
        "00012", "+000", "4294967295", "4294967296", "+4294967295", "42949672950", "99999999999",
        "18446744073709551616", "1e3", "1.0", "१२३", "12a", "a12", "٣",
    ];
    for s in samples {
        assert_eq!(parse_u32(s), s.parse::<u32>().ok(), "on {:?}", s);
    }
    assert_eq!(parse_u32("4294967295"), Some(u32::MAX));
    assert_eq!(parse_u32("+10"), Some(10));
    assert_eq!(parse_u32("4294967296"), None);
}

#[test]
fn byte_order_agrees_with_the_standard_order() {
    let samples: [&[u8]; 9] =
        [b"", b"a", b"b", b"ab", b"aa", b"abc", b"\xff", b"\x00", b"a\x00"];
    for a in samples {
        for b in samples {
            assert_eq!(bytes_le_exec(a, b), a <= b, "on {:?} and {:?}", a, b);
            assert_eq!(bytes_eq(a, b), a == b);
            assert_eq!(constant_time_eq(a, b), a == b);
        }
    }
}

#[test]
fn name_order_agrees_with_the_standard_order() {
    let samples = ["", "a", "B", "é", "e", "ez", "z", "日本", "\u{10ffff}", "admin", "Admin"];
    for a in samples {
        for b in samples {
            assert_eq!(name_le_exec(a, b), a <= b, "on {:?} and {:?}", a, b);
            assert_eq!(str_eq(a, b), a == b);
        }
    }
}

#[test]
fn constant_time_eq_sees_a_difference_anywhere() {
    let a = [1u8, 2, 3, 4];
    assert!(constant_time_eq(&a, &[1, 2, 3, 4]));
    assert!(!constant_time_eq(&a, &[0, 2, 3, 4]));
    assert!(!constant_time_eq(&a, &[1, 2, 3, 5]));
    assert!(!constant_time_eq(&a, &[1, 2, 3]));
    assert!(!constant_time_eq(&a, &[1, 2, 3, 4, 0]));
    assert!(constant_time_eq(&[], &[]));
}

use mimirsbrunn::text::{
    parse_u32, prefix_bytes, push_decimal, push_degrees, push_signed_decimal, str_eq,
    strip_leading_zeros,
};

#[test]
fn leading_zeros_are_dropped() {
    assert_eq!(strip_leading_zeros("0075056"), "75056");
    assert_eq!(strip_leading_zeros("75056"), "75056");
    assert_eq!(strip_leading_zeros("70500"), "70500");
    assert_eq!(strip_leading_zeros("0"), "");
    assert_eq!(strip_leading_zeros("000"), "");
    assert_eq!(strip_leading_zeros(""), "");
    assert_eq!(strip_leading_zeros("0a0"), "a0");
    assert_eq!(strip_leading_zeros(" 01"), " 01");
    assert_eq!(strip_leading_zeros("00é0"), "é0");
}

#[test]
fn prefix_is_cut_by_bytes() {
    assert_eq!(prefix_bytes("750560001A", 5), Some("75056"));
    assert_eq!(prefix_bytes("75056", 5), Some("75056"));
    assert_eq!(prefix_bytes("7505", 5), None);
    assert_eq!(prefix_bytes("", 0), Some(""));
    assert_eq!(prefix_bytes("abc", 0), Some(""));
    assert_eq!(prefix_bytes("é234", 3), Some("é2"));
    assert_eq!(prefix_bytes("é234", 1), None);
    assert_eq!(prefix_bytes("é234", 2), Some("é"));
}

#[test]
fn numbers_are_written_in_base_ten() {
    let write = |n: u64| {
        let mut out = String::from("n=");
        push_decimal(&mut out, n);
        out
    };
    assert_eq!(write(0), "n=0");
    assert_eq!(write(7), "n=7");
    assert_eq!(write(10), "n=10");
    assert_eq!(write(1234567890), "n=1234567890");
    assert_eq!(write(u64::MAX), "n=18446744073709551615");
}

#[test]
fn negative_numbers_take_a_sign() {
    let write = |n: i64| {
        let mut out = String::new();
        push_signed_decimal(&mut out, n);
        out
    };
    assert_eq!(write(0), "0");
    assert_eq!(write(-1), "-1");
    assert_eq!(write(123), "123");
    assert_eq!(write(-9000), "-9000");
    assert_eq!(write(i64::MIN), i64::MIN.to_string());
    assert_eq!(write(i64::MAX), i64::MAX.to_string());
}

#[test]
fn fractions_lose_their_trailing_zeros() {
    let write = |f: i32| {
        let mut out = String::new();
        push_degrees(&mut out, f);
        out
    };
    assert_eq!(write(5_000_000), "0.5");
    assert_eq!(write(3_522_000), "0.3522");
    assert_eq!(write(1), "0.0000001");
    assert_eq!(write(9_999_999), "0.9999999");
    assert_eq!(write(1_000_010), "0.100001");
    assert_eq!(write(70_000_000), "7");
    assert_eq!(write(70_000_100), "7.00001");
}

#[test]
fn degrees_are_written_as_decimals() {
    let write = |v: i32| {
        let mut out = String::new();
        push_degrees(&mut out, v);
        out
    };
    assert_eq!(write(0), "0");
    assert_eq!(write(488_566_140), "48.856614");
    assert_eq!(write(-488_566_140), "-48.856614");
    assert_eq!(write(10_000_000), "1");
    assert_eq!(write(-5), "-0.0000005");
    assert_eq!(write(i32::MIN), "-214.7483648");
    for (v, text) in [(23_522_000, 2.3522f64), (488_566_000, 48.8566), (-1_250_000, -0.125)] {
        assert_eq!(write(v), format!("{}", text));
    }
}

#[test]
fn numbers_are_read_as_the_standard_library_reads_them() {
    let texts = [
        "", "0", "8", "+8", "-8", "08", "0008", "+0", "+", "++8", "+-8", "8+", " 8", "8 ", "8a",
        "a8", "1_000", "0x10", "4294967295", "4294967296", "04294967295", "+4294967295",
        "42949672950", "99999999999999999999", "00000000000000000000000000001", "٨", "８",
        "12e3", "1.0", "\u{0}1", "2147483648", "3000000000",
    ];
    for text in texts {
        assert_eq!(parse_u32(text), text.parse::<u32>().ok(), "text {:?}", text);
    }
    for n in (0..=u32::MAX).step_by(65_521) {
        assert_eq!(parse_u32(&n.to_string()), Some(n));
    }
    assert_eq!(parse_u32("4294967295"), Some(u32::MAX));
    assert_eq!(parse_u32("4294967296"), None);
    assert_eq!(parse_u32("+12"), Some(12));
    assert_eq!(parse_u32("0012"), Some(12));
}

#[test]
fn texts_are_equal_when_their_characters_are() {
    let texts = ["", "a", "b", "ab", "ba", "abc", "é", "e", "e\u{301}", "admin_centre", "Aa", "BB"];
    for a in texts {
        for b in texts {
            assert_eq!(str_eq(a, b), a == b, "{:?} and {:?}", a, b);
        }
    }
}

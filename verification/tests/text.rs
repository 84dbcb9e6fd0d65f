use colorgrad::text::{parse_usize, push_decimal, same_text, skip_leading, space, strip_prefix, trim};

#[test]
fn trim_agrees_with_std() {
    let samples = [
        "",
        " ",
        "a",
        " a",
        "a ",
        "  a b  ",
        "\t\r\n x \u{a0}\u{3000}",
        "\u{2003}é\u{2028}",
        "\u{1680}\u{85}",
        "\u{200b}a\u{200b}",
        "\u{feff} a",
    ];
    for x in samples {
        assert_eq!(trim(x), x.trim(), "{x:?}");
    }
    for u in 0..0x3100u32 {
        if let Some(c) = char::from_u32(u) {
            assert_eq!(space(c), c.is_whitespace(), "{u:x}");
        }
    }
}

#[test]
fn parse_usize_agrees_with_std() {
    let samples = [
        "",
        "+",
        "-",
        "0",
        "+0",
        "-0",
        "007",
        "42",
        "+42",
        "++42",
        "4 2",
        " 42",
        "42 ",
        "4x",
        "x4",
        "١٢",
        "18446744073709551615",
        "18446744073709551616",
        "18446744073709551620",
        "99999999999999999999",
        "000000000000000000000000000001",
        "4294967295",
        "4294967296",
    ];
    for x in samples {
        assert_eq!(parse_usize(x), x.parse::<usize>().ok(), "{x:?}");
    }
}

#[test]
fn decimal_agrees_with_std() {
    for n in [0usize, 1, 9, 10, 11, 99, 100, 101, 12345, 4294967295, usize::MAX] {
        let mut text = String::from("n=");
        push_decimal(&mut text, n);
        assert_eq!(text, format!("n={n}"));
    }
}

#[test]
fn prefixes_and_leading_characters() {
    assert_eq!(strip_prefix("Name: x", "Name:"), Some(" x"));
    assert_eq!(strip_prefix("Name:", "Name:"), Some(""));
    assert_eq!(strip_prefix("Nam", "Name:"), None);
    assert_eq!(strip_prefix("name: x", "Name:"), None);
    assert_eq!(strip_prefix("é-x", "é"), Some("-x"));
    assert_eq!(strip_prefix("x", ""), Some("x"));
    assert_eq!(skip_leading("\u{feff}\u{feff}a\u{feff}", '\u{feff}'), "a\u{feff}");
    assert_eq!(skip_leading("abc", 'x'), "abc");
    assert_eq!(skip_leading("xxx", 'x'), "");
    assert!(same_text("abc", "abc"));
    assert!(!same_text("abc", "abd"));
    assert!(!same_text("abc", "ab"));
    assert!(same_text("", ""));
}

use sentrux::text::{chars_of, clean_path, has_suffix, is_white_space, join, precedes, same, to_decimal};

#[test]
fn white_space_is_that_of_unicode() {
    for code in 0..0x11_0000u32 {
        if let Some(c) = char::from_u32(code) {
            assert_eq!(is_white_space(c), c.is_whitespace(), "{:x}", code);
        }
    }
}

#[test]
fn paths_are_cleaned() {
    for raw in [
        "src/app.rs",
        "./src/app.rs",
        "  ./src/app.rs\n",
        "././src/app.rs",
        "",
        " ",
        ".",
        "./",
        "./ a",
        ".hidden",
        "..//a",
        "\u{3000}a b\u{a0}",
        "a/./b",
        "ä/ö.rs ",
    ] {
        assert_eq!(clean_path(raw), raw.trim().trim_start_matches("./"), "{:?}", raw);
    }
}

#[test]
fn strings_are_compared() {
    let words = ["", "a", "b", "ab", "aa", "B", "ä", "z", "\u{10000}", "\u{ffff}", "a/b", "a.b"];
    for a in words {
        for b in words {
            assert_eq!(same(a, b), a == b);
            assert_eq!(precedes(a, b), a < b, "{:?} {:?}", a, b);
            assert_eq!(has_suffix(&chars_of(a), &chars_of(b)), a.ends_with(b));
        }
    }
}

#[test]
fn numbers_are_written_in_decimal() {
    for n in [0, 1, 9, 10, 11, 99, 100, 1234567890, u64::MAX] {
        assert_eq!(to_decimal(n), n.to_string());
    }
}

#[test]
fn parts_are_joined() {
    let parts = |s: &[&str]| -> Vec<String> { s.iter().map(|t| t.to_string()).collect() };
    assert_eq!(join(&parts(&[]), ", "), "");
    assert_eq!(join(&parts(&["a"]), ", "), "a");
    assert_eq!(join(&parts(&["a", "", "c"]), ", "), "a, , c");
}

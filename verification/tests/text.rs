use fleet_conductor::{json, text};

fn chars(s: &str) -> Vec<char> {
    s.chars().collect()
}

#[test]
fn white_space_is_that_of_unicode() {
    for code in 0..=0x10ffffu32 {
        if let Some(c) = char::from_u32(code) {
            assert_eq!(text::is_white(c), c.is_whitespace(), "{code:x}");
        }
    }
}

#[test]
fn strings_are_ordered_as_by_std() {
    let list = ["", "a", "aa", "ab", "b", "B", "\u{e9}", "\u{ffff}", "\u{10000}", "a\u{0}", "z"];
    for a in list {
        for b in list {
            assert_eq!(text::comes_before(a, b), a < b, "{a:?} {b:?}");
        }
    }
}

#[test]
fn words_are_found_one_after_the_other() {
    let line = chars("  GET\t/a b\u{2003}\r\n");
    let mut words: Vec<String> = Vec::new();
    let mut from = 0;
    loop {
        let (start, end) = text::next_word(&line, from);
        if start == end {
            break;
        }
        words.push(line[start..end].iter().collect());
        from = end;
    }
    assert_eq!(words, vec!["GET", "/a", "b"]);
    assert_eq!(text::next_word(&chars(" \t"), 0), (2, 2));
}

#[test]
fn trimming_agrees_with_std() {
    for s in ["", " ", " a ", "\r\n", "a b\r\n", "\u{a0}x\u{3000}", "x"] {
        let ours: String = text::trimmed(&chars(s)).iter().collect();
        assert_eq!(ours, s.trim());
    }
}

#[test]
fn lower_case_touches_ascii_letters_only() {
    let s = "Content-LENGTH: \u{c9}@[`{ 09";
    let ours: String = text::lowercased(&chars(s)).iter().collect();
    assert_eq!(ours, s.to_ascii_lowercase());
}

#[test]
fn prefixes_are_recognised() {
    assert!(text::has_prefix(&chars("/drain/7"), "/drain/"));
    assert!(text::has_prefix(&chars("/drain/"), "/drain/"));
    assert!(!text::has_prefix(&chars("/drain"), "/drain/"));
    assert!(!text::has_prefix(&chars("/Drain/7"), "/drain/"));
    assert!(text::equals("GET", "GET"));
    assert!(!text::equals("GET", "get"));
}

#[test]
fn numerals_parse_as_by_std() {
    for s in [
        "",
        "+",
        "-",
        "0",
        "+0",
        "-0",
        "7",
        "007",
        "+12",
        "++1",
        " 1",
        "1 ",
        "1_000",
        "0x1",
        "18446744073709551615",
        "18446744073709551616",
        "+18446744073709551615",
        "99999999999999999999999",
        "000000000000000000000000000000000001",
        "\u{664}",
    ] {
        assert_eq!(text::parse_numeral(&chars(s), u64::MAX), s.parse::<u64>().ok(), "{s:?}");
    }
    assert_eq!(text::parse_numeral(&chars("100"), 99), None);
    assert_eq!(text::parse_numeral(&chars("99"), 99), Some(99));
}

#[test]
fn decimals_are_written_as_by_std_and_read_back() {
    for n in [0, 1, 9, 10, 99, 100, 12345, u64::MAX - 1, u64::MAX] {
        let mut s = String::from("n=");
        text::append_decimal(&mut s, n);
        assert_eq!(s, format!("n={n}"));
        assert_eq!(text::parse_numeral(&chars(&s[2..]), u64::MAX), Some(n));
    }
}

#[test]
fn escaped_text_is_read_back_by_a_json_reader() {
    let all: String = (0..0x300u32).filter_map(char::from_u32).collect();
    for s in ["", "plain", "a \"quote\" and \\", "line\nfeed\ttab\u{0}\u{1f}", &all] {
        let mut body = String::from("\"");
        json::append_escaped(&mut body, s);
        body.push('"');
        let back: String = serde_json::from_str(&body).unwrap();
        assert_eq!(back, s);
    }
    let mut body = String::new();
    json::append_escaped(&mut body, "a\"b\\c\n\u{1f}d");
    assert_eq!(body, "a\\\"b\\\\c\\u000a\\u001fd");
}

use pcilibs::text::{
    chars_of, parse_hex, parse_i64_chars, split_chars, split_once_chars, strip_hex_prefixes_chars,
    string_of, trim_chars,
};

fn v(s: &str) -> Vec<char> {
    chars_of(s)
}

fn s(v: &[char]) -> String {
    v.iter().collect()
}

#[test]
fn parse_hex_follows_from_str_radix() {
    for (input, max) in [
        ("ff", 0xff_u64),
        ("FF", 0xff),
        ("+1f", 0xff),
        ("0000ff", 0xff),
        ("100", 0xff),
        ("", 0xff),
        ("+", 0xff),
        ("-1", 0xff),
        ("1g", 0xff),
        (" 1", 0xff),
        ("ffffffffffffffff", u64::MAX),
        ("10000000000000000", u64::MAX),
    ] {
        let expected = u64::from_str_radix(input, 16).ok().filter(|n| *n <= max);
        assert_eq!(parse_hex(&v(input), max), expected, "{input:?}");
    }
}

#[test]
fn parse_i64_follows_str_parse() {
    for input in [
        "0",
        "-0",
        "+42",
        "-42",
        "9223372036854775807",
        "9223372036854775808",
        "-9223372036854775808",
        "-9223372036854775809",
        "",
        "-",
        "+",
        "1a",
        " 1",
        "99999999999999999999999",
    ] {
        assert_eq!(parse_i64_chars(&v(input)), input.parse::<i64>().ok(), "{input:?}");
    }
}

#[test]
fn trim_follows_str_trim() {
    for input in ["", "  ", " a b ", "\t\n0x8086\r\n", "\u{a0}x\u{3000}", "\u{85}\u{2028}y\u{205f}", "z"] {
        assert_eq!(s(&trim_chars(&v(input))), input.trim(), "{input:?}");
    }
}

#[test]
fn strip_hex_prefixes_follows_trim_start_matches() {
    for input in ["0x10", "0x0x10", "0x", "00x1", "x0x", ""] {
        assert_eq!(
            s(&strip_hex_prefixes_chars(&v(input))),
            input.trim_start_matches("0x"),
            "{input:?}"
        );
    }
}

#[test]
fn split_follows_str_split() {
    for input in ["", ":", "a:b", "a::b:", "0000:65:00.0", "no separators"] {
        let ours: Vec<String> = split_chars(&v(input), ':').iter().map(|f| s(f)).collect();
        let std: Vec<String> = input.split(':').map(|f| f.to_string()).collect();
        assert_eq!(ours, std, "{input:?}");
    }
}

#[test]
fn split_once_follows_str_split_once() {
    for input in ["00.0", ".", "a.b.c", "none", ""] {
        let ours = split_once_chars(&v(input), '.').map(|(a, b)| (s(&a), s(&b)));
        let std = input.split_once('.').map(|(a, b)| (a.to_string(), b.to_string()));
        assert_eq!(ours, std, "{input:?}");
    }
}

#[test]
fn strings_round_trip_through_characters() {
    for input in ["", "abc", "0000:65:00.0", "ünïcödé ☃"] {
        assert_eq!(string_of(&chars_of(input)), input);
    }
}

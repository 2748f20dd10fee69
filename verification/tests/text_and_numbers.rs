use selkies::number::{is_float_literal, parse_i32, parse_u32, parse_u8, Double, FloatText};
use selkies::text;

fn chars(s: &str) -> Vec<char> {
    s.chars().collect()
}

fn strings(v: Vec<Vec<char>>) -> Vec<String> {
    v.into_iter().map(|c| c.into_iter().collect()).collect()
}

const SAMPLES: [&str; 14] = [
    "",
    " ",
    "a",
    "a,b,,c",
    ",",
    "  two  words \t\n",
    "line one\r\nline two\nline three",
    "ends\n",
    "ends\r\n",
    "lone\rreturn\r",
    "\n\n",
    "\u{85}\u{a0}x\u{2003}\u{3000}",
    "\u{200b}not white\u{feff}",
    "äöü x264enc",
];

#[test]
fn splitting_agrees_with_the_standard_library() {
    for s in SAMPLES {
        let expected: Vec<String> = s.split(',').map(String::from).collect();
        assert_eq!(strings(text::split_all(&chars(s), ",")), expected);
        let expected: Vec<String> = s.splitn(2, ' ').map(String::from).collect();
        assert_eq!(strings(text::split_limited(&chars(s), &[' '], Some(2))), expected);
        let expected: Vec<String> = s.split("\r\n").map(String::from).collect();
        assert_eq!(strings(text::split_all(&chars(s), "\r\n")), expected);
    }
}

#[test]
fn words_and_lines_agree_with_the_standard_library() {
    for s in SAMPLES {
        let expected: Vec<String> = s.split_whitespace().map(String::from).collect();
        assert_eq!(strings(text::split_words(&chars(s))), expected);
        let expected: Vec<String> = s.lines().map(String::from).collect();
        assert_eq!(strings(text::split_lines(&chars(s))), expected);
        let trimmed: String = text::trim(&chars(s)).into_iter().collect();
        assert_eq!(trimmed, s.trim());
    }
}

#[test]
fn white_space_agrees_with_the_standard_library() {
    for n in 0..0x11_0000u32 {
        if let Some(c) = char::from_u32(n) {
            assert_eq!(text::is_white(c), c.is_whitespace(), "{n:x}");
        }
    }
}

#[test]
fn searching_agrees_with_the_standard_library() {
    for s in SAMPLES {
        for p in ["a", "\n", " ", "x264", "\r\n", "ends", "two  "] {
            assert_eq!(text::has(s, p), s.contains(p));
            assert_eq!(text::starts_with(&chars(s), p), s.starts_with(p));
            assert_eq!(text::substitute(s, p, "<>"), s.replace(p, "<>"));
            let stripped: Option<String> =
                text::strip_prefix(&chars(s), p).map(|c| c.into_iter().collect());
            assert_eq!(stripped, s.strip_prefix(p).map(String::from));
        }
    }
    assert_eq!(text::substitute("aaa", "aa", "b"), "ba");
}

#[test]
fn joining_the_pieces_gives_the_text() {
    for s in SAMPLES {
        let pieces = text::split_all(&chars(s), "\r\n");
        let joined: String = text::join(&pieces, "\r\n").into_iter().collect();
        assert_eq!(joined, s);
    }
}

const NUMERALS: [&str; 24] = [
    "", "0", "7", "+7", "-7", "-0", "+", "-", "255", "256", "-128", "007", "2147483647",
    "2147483648", "-2147483648", "-2147483649", "4294967295", "4294967296", "99999999999999999999",
    "1.5", "x", "1x", " 1", "\u{663}",
];

#[test]
fn integers_agree_with_the_standard_library() {
    for s in NUMERALS {
        let c = chars(s);
        let told = |e: std::num::ParseIntError| e.to_string();
        assert_eq!(
            parse_u8(&c).map_err(|e| e.message().to_string()),
            s.parse::<u8>().map_err(told),
            "{s}"
        );
        assert_eq!(
            parse_u32(&c).map_err(|e| e.message().to_string()),
            s.parse::<u32>().map_err(told),
            "{s}"
        );
        assert_eq!(
            parse_i32(&c).map_err(|e| e.message().to_string()),
            s.parse::<i32>().map_err(told),
            "{s}"
        );
    }
}

#[test]
fn floats_agree_with_the_standard_library() {
    let more = [
        ".", ".5", "5.", "1e5", "1E+5", "1e-5", "1e", "e5", "1e+", "1.2.3", "inf", "-Infinity", "NaN",
        "+nan", "infin", "1_000", "0x10", "1e5.0", "--1", "+.5e1", ".e1",
    ];
    for s in NUMERALS.into_iter().chain(more) {
        let c = chars(s);
        assert_eq!(is_float_literal(&c), s.parse::<f64>().is_ok(), "{s}");
        match (FloatText::parse(&c), s.parse::<f64>()) {
            (Ok(f), Ok(_)) => assert_eq!(f.as_str(), s),
            (Err(e), Err(expected)) => assert_eq!(e.message(), expected.to_string()),
            _ => panic!("{s}"),
        }
    }
}

#[test]
fn the_sign_of_a_bit_pattern() {
    for v in [
        0.0f64, -0.0, 1.0, -1.0, 1e-320, -1e-320, f64::INFINITY, f64::NEG_INFINITY, f64::NAN, -f64::NAN,
        f64::MIN, f64::MAX,
    ] {
        assert_eq!(Double { bits: v.to_bits() }.is_negative(), v < 0.0, "{v}");
    }
}

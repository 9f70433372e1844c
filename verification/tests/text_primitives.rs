use holiday_calendar::text::{
    chars_of, is_whitespace, parse_i32, replace_char, split_spans, trim_span,
};

fn chars(text: &str) -> Vec<char> {
    text.chars().collect()
}

fn text_of(chars: &[char]) -> String {
    chars.iter().collect()
}

fn trimmed(text: &str) -> String {
    let all = chars(text);
    let (from, to) = trim_span(&all);
    text_of(&all[from..to])
}

fn pieces(text: &str, sep: char) -> Vec<String> {
    let all = chars(text);
    split_spans(&all, sep).iter().map(|&(from, to)| text_of(&all[from..to])).collect()
}

fn parsed(text: &str) -> Option<i32> {
    parse_i32(&chars(text))
}

#[test]
fn chars_of_gives_every_character() {
    assert_eq!(chars_of(""), Vec::<char>::new());
    assert_eq!(chars_of("a,b"), vec!['a', ',', 'b']);
    assert_eq!(chars_of("元日 1"), vec!['元', '日', ' ', '1']);
}

#[test]
fn white_space_is_what_std_calls_white_space() {
    for code in 0..=0x10FFFFu32 {
        if let Some(c) = char::from_u32(code) {
            assert_eq!(is_whitespace(c), c.is_whitespace(), "U+{:04X}", code);
        }
    }
}

#[test]
fn trim_agrees_with_std() {
    let samples = [
        "",
        " ",
        "   \t\r\n",
        "a",
        "  a",
        "a  ",
        "  a b  ",
        "\u{3000}元日\u{3000}",
        "\u{a0}x\u{2003}",
        "\u{85}\u{1680}text\u{2028}\u{2029}\u{202f}\u{205f}",
        "\u{200b}zero width is no space\u{200b}",
        "\u{180e}mongolian vowel separator",
        "2024-01-01,New Year\r",
    ];
    for sample in samples.iter() {
        assert_eq!(trimmed(sample), sample.trim(), "{:?}", sample);
    }
}

#[test]
fn trim_span_of_blank_text_is_empty() {
    let all = chars(" \t ");
    let (from, to) = trim_span(&all);
    assert_eq!(from, to);
}

#[test]
fn split_agrees_with_std() {
    let samples = ["", ",", "a", "a,b", "a,b,c", ",a", "a,", ",,", "a,,b", "元日,振替休日,", "no comma"];
    for sample in samples.iter() {
        let expected: Vec<String> = sample.split(',').map(|piece| piece.to_string()).collect();
        assert_eq!(pieces(sample, ','), expected, "{:?}", sample);
    }
    assert_eq!(pieces("2024-01-01", '-'), vec!["2024", "01", "01"]);
    assert_eq!(pieces("-5", '-'), vec!["", "5"]);
}

#[test]
fn split_spans_are_places_in_the_text() {
    let all = chars("ab,c,,d");
    assert_eq!(split_spans(&all, ','), vec![(0, 2), (3, 4), (5, 5), (6, 7)]);
    assert_eq!(split_spans(&[], ','), vec![(0, 0)]);
}

#[test]
fn replace_char_agrees_with_std() {
    let samples = ["", "2024/02/11", "2024-02-11", "//", "a/b-c/d", "／ is not /"];
    for sample in samples.iter() {
        assert_eq!(text_of(&replace_char(&chars(sample), '/', '-')), sample.replace('/', "-"));
    }
}

#[test]
fn parse_i32_agrees_with_std() {
    let samples = [
        "",
        "0",
        "7",
        "2024",
        "01",
        "000000000000000000000002024",
        "+5",
        "-5",
        "-0",
        "+0",
        "+",
        "-",
        "+-1",
        "--1",
        "1-",
        " 1",
        "1 ",
        "1_000",
        "12a",
        "a12",
        "1.5",
        "0x10",
        "2147483647",
        "2147483648",
        "-2147483648",
        "-2147483649",
        "+2147483647",
        "+2147483648",
        "21474836470",
        "99999999999999999999999999999999",
        "-99999999999999999999999999999999",
        "１２",
        "٣",
    ];
    for sample in samples.iter() {
        assert_eq!(parsed(sample), sample.parse::<i32>().ok(), "{:?}", sample);
    }
}

#[test]
fn parse_i32_exact_values() {
    assert_eq!(parsed("2024"), Some(2024));
    assert_eq!(parsed("-17"), Some(-17));
    assert_eq!(parsed("+31"), Some(31));
    assert_eq!(parsed("007"), Some(7));
    assert_eq!(parsed("2147483647"), Some(i32::MAX));
    assert_eq!(parsed("-2147483648"), Some(i32::MIN));
    assert_eq!(parsed("2147483648"), None);
    assert_eq!(parsed(""), None);
    assert_eq!(parsed("twelve"), None);
}

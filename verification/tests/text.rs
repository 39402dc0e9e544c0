use moth_fans_runtimes::text::{
    digit_of, digit_text, file_name, parse_u64, push_decimal, push_signed_decimal, push_two_digits,
};

#[test]
fn parse_reads_plain_digits() {
    assert_eq!(parse_u64("0"), Some(0));
    assert_eq!(parse_u64("42"), Some(42));
    assert_eq!(parse_u64("007"), Some(7));
    assert_eq!(parse_u64("18446744073709551615"), Some(u64::MAX));
}

#[test]
fn parse_accepts_a_leading_plus() {
    assert_eq!(parse_u64("+42"), Some(42));
    assert_eq!(parse_u64("+0"), Some(0));
}

#[test]
fn parse_rejects_what_is_no_number() {
    assert_eq!(parse_u64(""), None);
    assert_eq!(parse_u64("+"), None);
    assert_eq!(parse_u64("-1"), None);
    assert_eq!(parse_u64("4 2"), None);
    assert_eq!(parse_u64(" 42"), None);
    assert_eq!(parse_u64("42 "), None);
    assert_eq!(parse_u64("++1"), None);
    assert_eq!(parse_u64("12a"), None);
    assert_eq!(parse_u64("\u{664}\u{662}"), None);
}

#[test]
fn parse_rejects_what_does_not_fit() {
    assert_eq!(parse_u64("18446744073709551616"), None);
    assert_eq!(parse_u64("99999999999999999999999999"), None);
    assert_eq!(parse_u64("184467440737095516150"), None);
}

#[test]
fn parse_agrees_with_the_standard_library() {
    let samples = [
        "", "+", "-", "0", "+0", "-0", "1", "10", "0010", "+18446744073709551615",
        "18446744073709551616", "1_000", "1e3", "0x10", "١٢٣",
    ];
    for sample in samples {
        assert_eq!(parse_u64(sample), sample.parse::<u64>().ok(), "{}", sample);
    }
}

#[test]
fn digits_have_their_values() {
    assert_eq!(digit_of('0'), Some(0));
    assert_eq!(digit_of('9'), Some(9));
    assert_eq!(digit_of('a'), None);
    assert_eq!(digit_of('/'), None);
    assert_eq!(digit_of(':'), None);
    assert_eq!(digit_text(0), "0");
    assert_eq!(digit_text(5), "5");
    assert_eq!(digit_text(9), "9");
}

#[test]
fn decimal_text_is_appended() {
    let mut out = String::from("n=");
    push_decimal(&mut out, 0);
    assert_eq!(out, "n=0");
    push_decimal(&mut out, 1905);
    assert_eq!(out, "n=01905");
    let mut max = String::new();
    push_decimal(&mut max, u64::MAX);
    assert_eq!(max, "18446744073709551615");
}

#[test]
fn decimal_text_reads_back() {
    for number in [0u64, 1, 9, 10, 42, 99, 100, 12345, u64::MAX] {
        let mut text = String::new();
        push_decimal(&mut text, number);
        assert_eq!(text, format!("{}", number));
        assert_eq!(parse_u64(&text), Some(number));
    }
}

#[test]
fn signed_decimal_text_is_appended() {
    let mut out = String::new();
    push_signed_decimal(&mut out, -5);
    assert_eq!(out, "-5");
    let mut low = String::new();
    push_signed_decimal(&mut low, i32::MIN);
    assert_eq!(low, "-2147483648");
    let mut high = String::new();
    push_signed_decimal(&mut high, i32::MAX);
    assert_eq!(high, "2147483647");
    let mut zero = String::new();
    push_signed_decimal(&mut zero, 0);
    assert_eq!(zero, "0");
}

#[test]
fn two_digits_are_padded_with_a_zero() {
    let mut out = String::new();
    push_two_digits(&mut out, 3);
    assert_eq!(out, "03");
    let mut wide = String::new();
    push_two_digits(&mut wide, 12);
    assert_eq!(wide, "12");
    let mut zero = String::new();
    push_two_digits(&mut zero, 0);
    assert_eq!(zero, "00");
    let mut wider = String::new();
    push_two_digits(&mut wider, 123);
    assert_eq!(wider, "123");
}

#[test]
fn file_name_is_the_last_component() {
    assert_eq!(file_name("code/game/turfs/turf.dm"), Some(String::from("turf.dm")));
    assert_eq!(file_name("turf.dm"), Some(String::from("turf.dm")));
    assert_eq!(file_name("/turf.dm"), Some(String::from("turf.dm")));
    assert_eq!(file_name("a/b/.gitignore"), Some(String::from(".gitignore")));
    assert_eq!(file_name("a/b/..."), Some(String::from("...")));
    assert_eq!(file_name("dir/ünïcödé.dm"), Some(String::from("ünïcödé.dm")));
}

#[test]
fn file_name_is_missing_where_the_path_names_no_file() {
    assert_eq!(file_name(""), None);
    assert_eq!(file_name("/"), None);
    assert_eq!(file_name("//"), None);
    assert_eq!(file_name("."), None);
    assert_eq!(file_name("./"), None);
    assert_eq!(file_name("/."), None);
    assert_eq!(file_name(".."), None);
    assert_eq!(file_name("code/.."), None);
    assert_eq!(file_name("code/../"), None);
}

#[test]
fn file_name_passes_over_slashes_and_lone_dots_at_the_end() {
    assert_eq!(file_name("a/b/"), Some(String::from("b")));
    assert_eq!(file_name("a/b/."), Some(String::from("b")));
    assert_eq!(file_name("a//b//"), Some(String::from("b")));
    assert_eq!(file_name("a/b/./."), Some(String::from("b")));
    assert_eq!(file_name("a/b/.//"), Some(String::from("b")));
    assert_eq!(file_name("code/"), Some(String::from("code")));
    assert_eq!(file_name("code/."), Some(String::from("code")));
    assert_eq!(file_name("a/.b/"), Some(String::from(".b")));
    assert_eq!(file_name("a/b."), Some(String::from("b.")));
    assert_eq!(file_name("a/b.."), Some(String::from("b..")));
}

#[test]
fn file_name_agrees_with_the_standard_library() {
    let pieces = ["", "a", "b.dm", ".", "..", "...", ".a", "a.", "/", "//", "/.", "./", "/..", "../", " "];
    let mut samples: Vec<String> = Vec::new();
    for first in pieces {
        samples.push(String::from(first));
        for second in pieces {
            samples.push(format!("{}{}", first, second));
            samples.push(format!("{}/{}", first, second));
            for third in pieces {
                samples.push(format!("{}{}{}", first, second, third));
                samples.push(format!("{}/{}/{}", first, second, third));
            }
        }
    }
    for sample in samples {
        let expected = std::path::Path::new(&sample)
            .file_name()
            .map(|name| name.to_string_lossy().into_owned());
        assert_eq!(file_name(&sample), expected, "{:?}", sample);
    }
}

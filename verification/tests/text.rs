use std::num::IntErrorKind;

use hrdbl::decimal::parse;
use hrdbl::ParseFailure;
use hrdbl::text::{chars_of, find, join, split, string_of};

fn chars(text: &str) -> Vec<char> {
    text.chars().collect()
}

fn split_strings(line: &str, delimiter: &str) -> Vec<String> {
    split(&chars(line), &chars(delimiter))
        .iter()
        .map(|field| field.iter().collect())
        .collect()
}

#[test]
fn chars_and_strings_convert_both_ways() {
    for text in ["", "a", "héllo\twörld", "1048576\tfoo\t123", "日本語"] {
        assert_eq!(chars_of(text), chars(text));
        assert_eq!(string_of(&chars(text)), text);
    }
}

#[test]
fn split_keeps_empty_fields() {
    assert_eq!(split_strings("a\tb\tc", "\t"), ["a", "b", "c"]);
    assert_eq!(split_strings("", "\t"), [""]);
    assert_eq!(split_strings("\t", "\t"), ["", ""]);
    assert_eq!(split_strings("a\t\tb\t", "\t"), ["a", "", "b", ""]);
    assert_eq!(split_strings("abc", "\t"), ["abc"]);
}

#[test]
fn split_takes_the_delimiter_where_it_first_stands() {
    assert_eq!(split_strings("aaa", "aa"), ["", "a"]);
    assert_eq!(split_strings("aaaa", "aa"), ["", "", ""]);
    assert_eq!(split_strings("a::b:c::", "::"), ["a", "b:c", ""]);
    assert_eq!(split_strings("ababa", "aba"), ["", "ba"]);
}

#[test]
fn split_agrees_with_the_standard_library() {
    let lines = [
        "",
        "a",
        "a,b",
        ",a,,b,",
        "1024, 2048 ,x",
        "aXYbXYXYc",
        "XYXXY",
        "é,ü,日本",
        "----",
    ];
    let delimiters = ["", ",", "XY", "-", "--", "---", " ", "日", "a,b", "longer than the line"];
    for line in lines {
        for delimiter in delimiters {
            let expected: Vec<String> = line.split(delimiter).map(|f| f.to_string()).collect();
            assert_eq!(split_strings(line, delimiter), expected);
        }
    }
}

#[test]
fn join_puts_the_delimiter_between_fields() {
    let fields = vec![chars("a"), chars(""), chars("bc")];
    assert_eq!(string_of(&join(&fields, &chars("\t"))), "a\t\tbc");
    assert_eq!(string_of(&join(&fields, &chars("::"))), "a::::bc");
    assert_eq!(string_of(&join(&fields, &chars(""))), "abc");
    assert_eq!(string_of(&join(&vec![chars("only")], &chars(","))), "only");
    assert_eq!(string_of(&join(&Vec::new(), &chars(","))), "");
}

#[test]
fn join_undoes_split() {
    for line in ["", "a", ",a,,b,", "aXYbXYXYc", "é,ü,日本"] {
        for delimiter in ["", ",", "XY", "日"] {
            let fields = split(&chars(line), &chars(delimiter));
            assert_eq!(string_of(&join(&fields, &chars(delimiter))), line);
        }
    }
}

#[test]
fn find_gives_the_first_match_from_a_position() {
    let text = chars("abcabc");
    assert_eq!(find(&text, &chars("bc"), 0), Some(1));
    assert_eq!(find(&text, &chars("bc"), 1), Some(1));
    assert_eq!(find(&text, &chars("bc"), 2), Some(4));
    assert_eq!(find(&text, &chars("bc"), 5), None);
    assert_eq!(find(&text, &chars("bc"), 100), None);
    assert_eq!(find(&text, &chars("abcabcd"), 0), None);
    assert_eq!(find(&text, &chars("abcabc"), 0), Some(0));
    assert_eq!(find(&text, &chars(""), 6), Some(6));
    assert_eq!(find(&text, &chars(""), 7), None);
}

#[test]
fn parse_reads_magnitudes() {
    assert_eq!(parse(&chars("0")), Ok(0));
    assert_eq!(parse(&chars("1024")), Ok(1024));
    assert_eq!(parse(&chars("+1024")), Ok(1024));
    assert_eq!(parse(&chars("007")), Ok(7));
    assert_eq!(parse(&chars("18446744073709551615")), Ok(u64::MAX));
    assert_eq!(parse(&chars("+18446744073709551615")), Ok(u64::MAX));
    assert_eq!(parse(&chars("00018446744073709551615")), Ok(u64::MAX));
}

#[test]
fn parse_rejects_what_is_no_number() {
    for text in [
        "", "+", "-", "-1", "-0", "++1", "+-1", "1+", " 1", "1 ", "1.0", "1e3", "1_000", "0x10",
        "abc", "12a", "１２", "99999999999999999999x", "x99999999999999999999",
    ] {
        assert_eq!(
            parse(&chars(text)),
            Err(ParseFailure::NotNumeric),
            "{:?}",
            text
        );
    }
}

#[test]
fn parse_rejects_numbers_beyond_64_bits() {
    for text in [
        "18446744073709551616",
        "+18446744073709551616",
        "18446744073709551620",
        "99999999999999999999",
        "184467440737095516150",
        "000100000000000000000000000000000000000000",
    ] {
        assert_eq!(
            parse(&chars(text)),
            Err(ParseFailure::OutOfRange),
            "{:?}",
            text
        );
    }
}

#[test]
fn parse_agrees_with_the_standard_library() {
    for text in [
        "", "+", "-", "0", "+0", "-0", "5", "+5", "-5", "00", "1024", "12a", "a12", " 12", "12 ",
        "1.5", "18446744073709551615", "18446744073709551616", "٣", "1\t2",
    ] {
        let expected = text.parse::<u64>().map_err(|e| match e.kind() {
            IntErrorKind::PosOverflow => ParseFailure::OutOfRange,
            _ => ParseFailure::NotNumeric,
        });
        assert_eq!(parse(&chars(text)), expected, "{:?}", text);
    }
}

#[test]
fn split_undoes_join_where_no_field_holds_the_delimiter() {
    let cases: [&[&str]; 5] = [
        &[""],
        &["a"],
        &["", ""],
        &["1.0K", "foo", "1.0M"],
        &["a", "", "b", ""],
    ];
    for fields in cases {
        for delimiter in ["\t", ", ", "::"] {
            let fields: Vec<Vec<char>> = fields.iter().map(|f| chars(f)).collect();
            let line = join(&fields, &chars(delimiter));
            assert_eq!(split(&line, &chars(delimiter)), fields);
        }
    }
}

#[test]
fn decimal_text_reads_back() {
    for n in [0u64, 1, 9, 10, 99, 100, 1023, 1024, 1 << 32, u64::MAX - 1, u64::MAX] {
        assert_eq!(parse(&chars(&n.to_string())), Ok(n));
        let rendered = hrdbl::Format::new(Some(hrdbl::Unit::Byte), 0).render(n);
        assert_eq!(rendered, format!("{}B", n));
        assert_eq!(parse(&chars(&rendered[..rendered.len() - 1])), Ok(n));
    }
}

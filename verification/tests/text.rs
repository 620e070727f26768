use multicover::text::{le, push_decimal, split};

fn fields(line: &str, sep: char) -> Vec<String> {
    let got = split(line, sep);
    let want: Vec<String> = line.split(sep).map(|s| s.to_owned()).collect();
    assert_eq!(got, want);
    got
}

#[test]
fn split_line_into_fields() {
    assert_eq!(fields("a,b,c", ','), vec!["a", "b", "c"]);
    assert_eq!(fields("stella", ','), vec!["stella"]);
    assert_eq!(fields("", ','), vec![""]);
    assert_eq!(fields(",", ','), vec!["", ""]);
    assert_eq!(fields("a,,b", ','), vec!["a", "", "b"]);
    assert_eq!(fields(",a,", ','), vec!["", "a", ""]);
    assert_eq!(fields("a b\tc", '\t'), vec!["a b", "c"]);
}

#[test]
fn split_line_of_wide_characters() {
    assert_eq!(fields("月、太陽、星", '、'), vec!["月", "太陽", "星"]);
    assert_eq!(fields("é,ü", ','), vec!["é", "ü"]);
    assert_eq!(fields("a、b,c", ','), vec!["a、b", "c"]);
}

fn decimal(n: usize) -> String {
    let mut s = String::new();
    push_decimal(&mut s, n);
    assert_eq!(s, format!("{}", n));
    s
}

#[test]
fn numbers_in_decimal() {
    assert_eq!(decimal(0), "0");
    assert_eq!(decimal(7), "7");
    assert_eq!(decimal(9), "9");
    assert_eq!(decimal(10), "10");
    assert_eq!(decimal(12345), "12345");
    assert_eq!(decimal(1000000), "1000000");
    decimal(usize::MAX);
    let mut s = "n=".to_owned();
    push_decimal(&mut s, 42);
    assert_eq!(s, "n=42");
}

#[test]
fn order_of_strings() {
    let words = [
        "", "a", "ab", "abc", "b", "B", "luna", "stella", "sun", "é", "月", "z", "a\u{0}",
        "\u{10ffff}", "\u{ffff}",
    ];
    for a in words {
        for b in words {
            assert_eq!(le(a, b), a <= b);
        }
    }
    assert!(le("a", "b"));
    assert!(!le("b", "a"));
    assert!(le("a", "a"));
    assert!(le("a", "ab"));
    assert!(!le("ab", "a"));
}

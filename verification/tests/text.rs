use artemis_ast::text::{char_is_whitespace, chars_of, push_decimal, push_digits, push_markdown_text, str_eq};

fn decimal(n: i64) -> String {
    let mut out = String::from("n=");
    push_decimal(&mut out, n);
    out
}

fn markdown(s: &str) -> String {
    let mut out = String::from("> ");
    push_markdown_text(&mut out, s);
    out
}

#[test]
fn str_eq_compares_characters() {
    assert!(str_eq("", ""));
    assert!(str_eq("abc", "abc"));
    assert!(str_eq("日本語", "日本語"));
    assert!(!str_eq("abc", "abd"));
    assert!(!str_eq("abc", "ab"));
    assert!(!str_eq("", "a"));
    assert!(!str_eq("é", "e"));
}

#[test]
fn decimal_numerals() {
    assert_eq!(decimal(0), "n=0");
    assert_eq!(decimal(7), "n=7");
    assert_eq!(decimal(10), "n=10");
    assert_eq!(decimal(-1), "n=-1");
    assert_eq!(decimal(1234567890), "n=1234567890");
    assert_eq!(decimal(-100), "n=-100");
    assert_eq!(decimal(i64::MAX), "n=9223372036854775807");
    assert_eq!(decimal(i64::MIN), "n=-9223372036854775808");
}

#[test]
fn decimal_agrees_with_the_standard_library() {
    let samples: [i64; 9] = [0, 1, -1, 9, 10, 99, 100, -4096, 1_000_000_007];
    for n in samples {
        assert_eq!(decimal(n), format!("n={}", n));
    }
    let mut out = String::new();
    push_digits(&mut out, u64::MAX);
    assert_eq!(out, format!("{}", u64::MAX));
}

#[test]
fn chars_of_lists_the_characters() {
    assert_eq!(chars_of("aé日"), vec!['a', 'é', '日']);
    assert!(chars_of("").is_empty());
}

#[test]
fn whitespace_is_what_unicode_says() {
    for code in 0u32..=0x3100 {
        if let Some(c) = char::from_u32(code) {
            assert_eq!(char_is_whitespace(c), c.is_whitespace(), "U+{:04X}", code);
        }
    }
    assert!(!char_is_whitespace('\u{200b}'));
    assert!(!char_is_whitespace('\u{feff}'));
    assert!(char_is_whitespace('\u{3000}'));
}

#[test]
fn markdown_text_trims_the_end() {
    assert_eq!(markdown("hello  \n\t"), "> hello");
    assert_eq!(markdown("  hello"), ">   hello");
    assert_eq!(markdown("   "), "> ");
    assert_eq!(markdown(""), "> ");
    assert_eq!(markdown("a\u{3000}"), "> a");
}

#[test]
fn markdown_text_makes_hard_breaks() {
    assert_eq!(markdown("a\nb"), "> a  \nb");
    assert_eq!(markdown("a\n\nb\n"), "> a  \n  \nb");
    assert_eq!(markdown("\nx"), ">   \nx");
    assert_eq!(markdown("日本\n語 "), "> 日本  \n語");
}

#[test]
fn markdown_text_agrees_with_the_standard_library() {
    let samples = ["", " ", "a", "a \n b \n", "\n\n", "x\ny\nz", " lead\ttab\t", "é\n日\u{a0}"];
    for s in samples {
        assert_eq!(markdown(s), format!("> {}", s.trim_end().replace("\n", "  \n")));
    }
}

use just_fancy::text::join;
use just_fancy::text::same_text;
use just_fancy::text::split_lines;
use just_fancy::text::split_words;
use just_fancy::text::to_decimal;
use just_fancy::text::trim;

fn is_white_space(c: char) -> bool {
    matches!(
        c,
        '\u{9}'..='\u{d}'
            | ' '
            | '\u{85}'
            | '\u{a0}'
            | '\u{1680}'
            | '\u{2000}'..='\u{200a}'
            | '\u{2028}'
            | '\u{2029}'
            | '\u{202f}'
            | '\u{205f}'
            | '\u{3000}'
    )
}

#[test]
fn white_space_is_trimmed() {
    for code in 0..=0x10ffff {
        if let Some(c) = char::from_u32(code) {
            assert_eq!(trim(&c.to_string()).is_empty(), is_white_space(c));
        }
    }
    assert_eq!(trim(" \t a b \u{3000}"), "a b");
    assert_eq!(trim(""), "");
}

#[test]
fn texts_are_split_as_std_does() {
    for text in ["", "\n", "a", "a\n", "a\r\nb", "a\n\nb\n", "\r\n", "a\r", " x  y\tz ", "é ✓\n\u{2003}w"] {
        let lines: Vec<String> = text.lines().map(String::from).collect();
        assert_eq!(split_lines(text), lines);
        let words: Vec<String> = text.split_whitespace().map(String::from).collect();
        assert_eq!(split_words(text), words);
        assert_eq!(trim(text), text.trim());
    }
}

#[test]
fn texts_are_joined_and_compared() {
    let parts: Vec<String> = vec!["a".to_string(), String::new(), "é".to_string()];
    assert_eq!(join(&parts, ", "), "a, , é");
    assert_eq!(join(&Vec::new(), ", "), "");
    assert_eq!(join(&vec!["x".to_string()], ", "), "x");
    assert!(same_text("é", "é"));
    assert!(!same_text("e", "é"));
    assert!(!same_text("ab", "a"));
}

#[test]
fn numbers_are_written_in_decimal() {
    for n in [0, 1, 9, 10, 15, 20, 99, 100, 12345, usize::MAX] {
        assert_eq!(to_decimal(n), n.to_string());
    }
}

use just_fancy::output::extract_preview;
use just_fancy::output::last_visible_line;
use just_fancy::output::shorten;
use just_fancy::output::strip_ansi;
use just_fancy::output::OutputCollector;
use just_fancy::output::LOG_DIR;
use just_fancy::output::MAX_PREVIEW_CHARS;

#[test]
fn test_extract_preview_short() {
    let preview = extract_preview("hello world", 50);
    assert_eq!(preview, "hello world");
}

#[test]
fn test_extract_preview_long() {
    let long_line = "a".repeat(100);
    let preview = extract_preview(&long_line, 50);
    assert_eq!(preview.chars().count(), 51); // 50 + ellipsis
    assert!(preview.ends_with('…'));
}

#[test]
fn test_extract_preview_with_ansi() {
    let ansi_line = "\x1b[32mgreen text\x1b[0m";
    let preview = extract_preview(ansi_line, 50);
    assert_eq!(preview, "green text");
}

#[test]
fn test_extract_preview_empty() {
    let preview = extract_preview("   ", 50);
    assert_eq!(preview, "");
}

#[test]
fn test_output_collector() {
    let mut collector = OutputCollector::new("test-recipe");
    collector.append(b"first line\n");
    collector.append(b"second line\n");
    assert_eq!(collector.latest_preview(), "second line");
}

#[test]
fn test_output_collector_ignores_blank_lines() {
    let mut collector = OutputCollector::new("test-recipe");
    collector.append(b"meaningful line\n");
    collector.append(b"\n");
    collector.append(b"   \n");
    assert_eq!(collector.latest_preview(), "meaningful line");
}

#[test]
fn test_output_collector_strips_ansi_in_preview() {
    let mut collector = OutputCollector::new("test-recipe");
    collector.append(b"\x1b[32mgreen output\x1b[0m\n");
    assert_eq!(collector.latest_preview(), "green output");
}

#[test]
fn test_extract_preview_truncates_long_ansi() {
    // Long line with ANSI codes
    let long_colored = format!("\x1b[31m{}\x1b[0m", "x".repeat(100));
    let preview = extract_preview(&long_colored, 50);
    assert_eq!(preview.chars().count(), 51); // 50 + ellipsis
    assert!(preview.ends_with('…'));
    assert!(!preview.contains('\x1b')); // No ANSI codes in output
}

#[test]
fn test_strip_ansi() {
    assert_eq!(strip_ansi("\x1b[32mgreen\x1b[0m"), "green");
    assert_eq!(strip_ansi("no codes"), "no codes");
    assert_eq!(
        strip_ansi("\x1b[1;31;40mbold red on black\x1b[0m"),
        "bold red on black"
    );
}

fn is_shown(c: char) -> bool {
    c == '\n' || !(c <= '\u{1f}' || ('\u{80}'..='\u{9f}').contains(&c))
}

#[test]
fn every_character_but_escape_is_shown_or_dropped() {
    for code in 0..=0x10ffff {
        if let Some(c) = char::from_u32(code) {
            if c != '\u{1b}' {
                let expected = if is_shown(c) { c.to_string() } else { String::new() };
                assert_eq!(strip_ansi(&c.to_string()), expected);
            }
        }
    }
}

#[test]
fn control_sequences_are_taken_out() {
    for last in '@'..='~' {
        for parameters in ["", "0", "1;31;40", "?25", "38:5:9", "<>=", "1;2;3;4;5;6;7;8;9;10;11;12;13;14;15;16;17;18;19;20;21;22;23;24;25;26;27;28;29;30;31;32;33;34"] {
            let text = format!("before \u{1b}[{}{}after ✓ é", parameters, last);
            assert_eq!(strip_ansi(&text), "before after ✓ é");
        }
    }
    assert_eq!(strip_ansi("\u{1b}[1m\u{1b}[31mx\u{1b}[0my\u{1b}[m"), "xy");
}

#[test]
fn nothing_stripped_holds_an_escape() {
    for text in ["\u{1b}", "\u{1b}]0;title\u{7}x", "\u{1b}P1$q\u{1b}\\y", "a\u{1b}\u{1b}[b", "\u{1b}é✓z"] {
        let stripped = strip_ansi(text);
        assert!(stripped.chars().all(is_shown));
    }
}

#[test]
fn preview_is_trimmed_and_cut() {
    assert_eq!(extract_preview("  abc  ", 3), "abc");
    assert_eq!(extract_preview("  abcd  ", 3), "abc…");
    assert_eq!(extract_preview("éèê", 2), "éè…");
    assert_eq!(extract_preview("abc", 0), "…");
    assert_eq!(extract_preview("", 0), "");
    assert_eq!(extract_preview("a\tb", 5), "ab");
}

#[test]
fn shortened_text_keeps_escapes() {
    assert_eq!(shorten(" \u{1b}[31m ", 10), "\u{1b}[31m");
    assert_eq!(shorten("abcdef", 4), "abcd…");
}

#[test]
fn last_line_that_is_not_blank_counts() {
    let lines: Vec<String> = vec!["a".to_string(), " b ".to_string(), "  ".to_string(), String::new()];
    assert_eq!(last_visible_line(&lines), Some("b".to_string()));
    let blank: Vec<String> = vec![" ".to_string(), "\t".to_string()];
    assert_eq!(last_visible_line(&blank), None);
    assert_eq!(last_visible_line(&Vec::new()), None);
}

#[test]
fn collector_keeps_all_output() {
    let mut collector = OutputCollector::new("build::all");
    assert_eq!(collector.latest_preview(), "");
    collector.append(b"one\r\ntwo\n\n");
    assert_eq!(collector.latest_preview(), "two");
    collector.append(b"three \xff\n");
    assert_eq!(collector.latest_preview(), "two");
    collector.append("vier ✓".as_bytes());
    assert_eq!(collector.latest_preview(), "vier ✓");
    let mut all: Vec<u8> = b"one\r\ntwo\n\nthree \xff\n".to_vec();
    all.extend_from_slice("vier ✓".as_bytes());
    assert_eq!(*collector.log(), all);
    assert_eq!(collector.log_file(), "build::all.log");
    assert_eq!(collector.recipe_name(), "build::all");
}

#[test]
fn preview_of_the_collector_is_limited() {
    let mut collector = OutputCollector::new("x");
    collector.append("\u{1b}[32m".as_bytes());
    assert_eq!(collector.latest_preview(), "");
    collector.append("y".repeat(MAX_PREVIEW_CHARS).as_bytes());
    assert_eq!(collector.latest_preview(), "y".repeat(50));
    collector.append("z".repeat(MAX_PREVIEW_CHARS + 1).as_bytes());
    assert_eq!(collector.latest_preview(), format!("{}…", "z".repeat(50)));
}

#[test]
fn logs_have_their_directory() {
    assert_eq!(LOG_DIR, ".just-fancy-logs");
}

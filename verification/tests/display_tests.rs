use skit::display::format_days_ago;
use skit::display::shell_quote;
use skit::display::u64_to_string;
use skit::display::wrap_text;
use skit::display::wrap_with_quotes;

#[test]
fn test_wrap_text_short() {
    let result = wrap_text("short text", 100);
    assert_eq!(result, vec!["short text"]);
}

#[test]
fn test_wrap_text_word_boundaries() {
    let text =
        "This is a very long line that should be wrapped at word boundaries for better readability";
    let result = wrap_text(text, 30);

    assert!(result.len() > 1);
    for line in &result {
        assert!(line.len() <= 30);
    }

    // Verify all words are preserved when joined back
    let joined = result.join(" ");
    assert_eq!(joined, text);
}

#[test]
fn test_wrap_text_long_word() {
    let text = "supercalifragilisticexpialidocious";
    let result = wrap_text(text, 10);

    assert!(result.len() > 1);
    for line in &result {
        assert!(line.len() <= 10);
    }
}

#[test]
fn test_wrap_text_exact_length() {
    let text = format!("exactly100chars{}", "0".repeat(85)); // 15 + 85 = 100 chars
    let result = wrap_text(&text, 100);
    assert_eq!(result.len(), 1);
    assert_eq!(result[0], text);
}

#[test]
fn test_u64_to_string_values() {
    assert_eq!(u64_to_string(0), "0");
    assert_eq!(u64_to_string(7), "7");
    assert_eq!(u64_to_string(42), "42");
    assert_eq!(u64_to_string(1234567), "1234567");
}

#[test]
fn test_format_days_ago_words() {
    assert_eq!(format_days_ago(0), "today");
    assert_eq!(format_days_ago(1), "1 day ago");
    assert_eq!(format_days_ago(5), "5 days ago");
}

#[test]
fn test_wrap_with_quotes_escapes() {
    assert_eq!(wrap_with_quotes(""), "\"\"");
    assert_eq!(wrap_with_quotes("plain"), "\"plain\"");
    assert_eq!(wrap_with_quotes("say \"hi\""), "\"say \\\"hi\\\"\"");
}

#[test]
fn test_shell_quote_forms() {
    assert_eq!(shell_quote(""), "''");
    assert_eq!(shell_quote("simple"), "simple");
    assert_eq!(shell_quote("has space"), "'has space'");
    assert_eq!(shell_quote("don't"), "'don'\"'\"'t'");
}

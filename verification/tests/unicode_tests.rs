use mender::parse::{parse_errors, ErrorType, Severity};

#[test]
fn non_ascii_white_space_is_trimmed() {
    let errors = parse_errors("\u{3000}error: x\u{a0}");
    assert_eq!(errors.len(), 1);
    assert_eq!(errors[0].error_type, ErrorType::Unknown);
    assert_eq!(errors[0].message, "error: x");
}

#[test]
fn non_ascii_white_space_opens_a_location() {
    let errors = parse_errors("\u{2003}--> a.rs:1:2");
    assert_eq!(errors.len(), 1);
    assert_eq!(errors[0].severity, Severity::Info);
    assert_eq!(errors[0].line, Some(1));
}

#[test]
fn non_ascii_digits_match_but_do_not_parse() {
    let errors = parse_errors(" --> a.rs:\u{0661}\u{0662}:3");
    assert_eq!(errors.len(), 1);
    assert_eq!(errors[0].file, Some("a.rs".to_string()));
    assert_eq!(errors[0].line, None);
    assert_eq!(errors[0].column, Some(3));
}

#[test]
fn non_ascii_letters_are_word_characters() {
    let errors = parse_errors("\u{dc}berError: kaputt");
    assert_eq!(errors.len(), 1);
    assert_eq!(errors[0].error_type, ErrorType::CompileError);
    assert_eq!(errors[0].message, "\u{dc}berError: kaputt");
}

#[test]
fn non_ascii_symbol_is_no_word_character() {
    // `€` ends the word run, so this is no Python exception; it is generic.
    let errors = parse_errors("\u{20ac}Error: x");
    assert_eq!(errors.len(), 1);
    assert_eq!(errors[0].error_type, ErrorType::Unknown);
}

#[test]
fn lowercase_applies_beyond_ascii() {
    // `İ` lowercases to two characters; the line still counts as an error.
    let errors = parse_errors("\u{130}: ERROR: whatever");
    assert_eq!(errors.len(), 1);
    assert_eq!(errors[0].error_type, ErrorType::Unknown);
}

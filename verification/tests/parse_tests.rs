use mender::parse::{parse_errors, ErrorType, Severity};

#[test]
fn parse_rust_error() {
    let output = "error[E0432]: unresolved import `crate::foo`\n --> src/main.rs:3:5\n";
    let errors = parse_errors(output);
    assert_eq!(errors.len(), 2);
    assert_eq!(errors[0].error_type, ErrorType::ImportError);
}

#[test]
fn parse_rust_test_failure() {
    let output = "test my_module::tests::it_works ... FAILED\n";
    let errors = parse_errors(output);
    assert_eq!(errors.len(), 1);
    assert_eq!(errors[0].error_type, ErrorType::TestFailure);
}

#[test]
fn parse_typescript_error() {
    let output = "src/foo.ts(10,5): error TS2304: Cannot find name 'bar'.\n";
    let errors = parse_errors(output);
    assert_eq!(errors.len(), 1);
    assert_eq!(errors[0].file, Some("src/foo.ts".to_string()));
}

#[test]
fn parse_python_import_error() {
    let output = "ImportError: No module named 'flask'\n";
    let errors = parse_errors(output);
    assert_eq!(errors.len(), 1);
    assert_eq!(errors[0].error_type, ErrorType::ImportError);
}

#[test]
fn parse_go_error() {
    let output = "./main.go:10:5: undefined: myFunc\n";
    let errors = parse_errors(output);
    assert_eq!(errors.len(), 1);
    assert_eq!(errors[0].file, Some("./main.go".to_string()));
}

#[test]
fn parse_empty_input() {
    assert!(parse_errors("").is_empty());
    assert!(parse_errors("\n\n\n").is_empty());
}

#[test]
fn location_marker_fields() {
    let errors = parse_errors("  --> src/lib.rs:12:34");
    assert_eq!(errors.len(), 1);
    let e = &errors[0];
    assert_eq!(e.file, Some("src/lib.rs".to_string()));
    assert_eq!(e.line, Some(12));
    assert_eq!(e.column, Some(34));
    assert_eq!(e.message, "");
    assert_eq!(e.severity, Severity::Info);
    assert_eq!(e.error_type, ErrorType::CompileError);
}

#[test]
fn location_file_may_hold_colons() {
    let errors = parse_errors("   --> C:\\src\\a:b.rs:7:9");
    assert_eq!(errors[0].file, Some("C:\\src\\a:b.rs".to_string()));
    assert_eq!(errors[0].line, Some(7));
    assert_eq!(errors[0].column, Some(9));
}

#[test]
fn location_number_too_large_is_none() {
    let errors = parse_errors(" --> a.rs:99999999999999999999999:1");
    assert_eq!(errors.len(), 1);
    assert_eq!(errors[0].line, None);
    assert_eq!(errors[0].column, Some(1));
}

#[test]
fn rust_error_kinds() {
    let cases = [
        ("error[E0308]: mismatched types", ErrorType::TypeError),
        ("error: expected one of `;`", ErrorType::TypeError),
        ("error[E0425]: cannot find value `x` in this scope", ErrorType::ImportError),
        ("error: linking with `cc` failed", ErrorType::LinkError),
        ("error[E0599]: no method named `foo`", ErrorType::CompileError),
        ("error: could not find `Cargo.toml`", ErrorType::ImportError),
    ];
    for (line, kind) in cases {
        let errors = parse_errors(line);
        assert_eq!(errors.len(), 1, "{line}");
        assert_eq!(errors[0].error_type, kind, "{line}");
        assert_eq!(errors[0].severity, Severity::Error);
    }
}

#[test]
fn rust_error_message_and_raw_line() {
    let errors = parse_errors("error[E0432]: unresolved import `x`\r\nnext");
    assert_eq!(errors[0].message, "unresolved import `x`");
    assert_eq!(errors[0].raw_line, "error[E0432]: unresolved import `x`");
}

#[test]
fn rust_error_code_needs_digits() {
    // `error[E]:` is no compiler error; this line is still a generic one.
    let errors = parse_errors(" error[E]: see error: here ");
    assert_eq!(errors.len(), 1);
    assert_eq!(errors[0].error_type, ErrorType::Unknown);
    assert_eq!(errors[0].message, "error[E]: see error: here");
    assert!(parse_errors("error[E]: oops").is_empty());
}

#[test]
fn rust_warning_with_lint_name() {
    let errors = parse_errors("warning[unused_imports]: unused import: `std::fmt`");
    assert_eq!(errors.len(), 1);
    assert_eq!(errors[0].error_type, ErrorType::Warning);
    assert_eq!(errors[0].severity, Severity::Warning);
    assert_eq!(errors[0].message, "unused import: `std::fmt`");
}

#[test]
fn panic_line() {
    let errors = parse_errors("thread 'main' (4242) panicked at src/main.rs:5:3:");
    assert_eq!(errors.len(), 1);
    assert_eq!(errors[0].error_type, ErrorType::Panic);
    assert_eq!(errors[0].message, "Panic in main: src/main.rs:5:3:");
}

#[test]
fn panic_documented_format() {
    let line = "thread 'main' panicked at 'explicit panic', src/main.rs:2:5";
    let errors = parse_errors(line);
    assert_eq!(errors.len(), 1);
    assert_eq!(errors[0].error_type, ErrorType::Panic);
    assert_eq!(errors[0].severity, Severity::Error);
    assert_eq!(errors[0].message, "Panic in main: 'explicit panic', src/main.rs:2:5");
    assert_eq!(errors[0].raw_line, line);
}

#[test]
fn panic_current_format() {
    let errors = parse_errors("thread 'main' panicked at src/main.rs:5:3:");
    assert_eq!(errors[0].message, "Panic in main: src/main.rs:5:3:");
}

#[test]
fn panic_takes_last_panicked_at_and_shortest_name() {
    let errors = parse_errors("x thread 'a' b' c panicked at one panicked at two");
    assert_eq!(errors[0].message, "Panic in a: two");
}

#[test]
fn test_failure_message() {
    let errors = parse_errors("test a::b ... FAILED");
    assert_eq!(errors[0].message, "Test failed: a::b");
    assert_eq!(errors[0].severity, Severity::Error);
}

#[test]
fn typescript_fields() {
    let errors = parse_errors("src/foo.ts(10,5): warning TS6133: 'x' is declared but never used.");
    assert_eq!(errors.len(), 1);
    let e = &errors[0];
    assert_eq!(e.line, Some(10));
    assert_eq!(e.column, Some(5));
    assert_eq!(e.severity, Severity::Warning);
    assert_eq!(e.error_type, ErrorType::TypeError);
    assert_eq!(e.message, "TS6133: 'x' is declared but never used.");
}

#[test]
fn typescript_file_is_shortest_prefix() {
    let errors = parse_errors("a(1,2): error TS1: x(3,4): error TS5: y");
    assert_eq!(errors[0].file, Some("a".to_string()));
    assert_eq!(errors[0].message, "TS1: x(3,4): error TS5: y");
}

#[test]
fn python_traceback_location() {
    let errors = parse_errors("  File \"app.py\", line 42, in main");
    assert_eq!(errors.len(), 1);
    assert_eq!(errors[0].file, Some("app.py".to_string()));
    assert_eq!(errors[0].line, Some(42));
    assert_eq!(errors[0].column, None);
    assert_eq!(errors[0].severity, Severity::Info);
}

#[test]
fn python_exception() {
    let errors = parse_errors("ValueError: invalid literal for int()");
    assert_eq!(errors.len(), 1);
    assert_eq!(errors[0].error_type, ErrorType::CompileError);
    assert_eq!(errors[0].message, "ValueError: invalid literal for int()");
}

#[test]
fn python_module_error() {
    let errors = parse_errors("ModuleError: broken");
    assert_eq!(errors[0].error_type, ErrorType::ImportError);
    assert_eq!(errors[0].message, "broken");
}

#[test]
fn go_fields() {
    let errors = parse_errors("pkg/x.go:3:14: syntax error: unexpected newline");
    let e = &errors[0];
    assert_eq!(e.line, Some(3));
    assert_eq!(e.column, Some(14));
    assert_eq!(e.message, "syntax error: unexpected newline");
    assert_eq!(e.error_type, ErrorType::CompileError);
}

#[test]
fn generic_error_is_trimmed_and_case_blind() {
    let errors = parse_errors("  FATAL: could not connect  \nnothing here\n\tsomething Error: bad");
    assert_eq!(errors.len(), 2);
    assert_eq!(errors[0].message, "FATAL: could not connect");
    assert_eq!(errors[0].error_type, ErrorType::Unknown);
    assert_eq!(errors[1].message, "something Error: bad");
}

#[test]
fn lines_keep_lone_carriage_return() {
    let errors = parse_errors("error: a\rb");
    assert_eq!(errors[0].message, "a\rb");
}

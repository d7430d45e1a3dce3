use mender::cli::{Cli, Command, OutputFormat};
use mender::error::MenderError;
use mender::parse::parse_errors;
use mender::report::{render_patterns_text, render_triage_text, supported_patterns, triage_output};
use mender::triage::triage;

#[test]
fn no_errors_text() {
    let result = triage_output("all good\n");
    assert_eq!(render_triage_text(&result), vec!["mender: no errors found in output.".to_string()]);
}

#[test]
fn triage_text_lines() {
    let output = "error[E0432]: unresolved import `a`\n --> src/x.rs:1:2\nwarning: unused\n";
    let result = triage_output(output);
    let lines = render_triage_text(&result);
    assert_eq!(
        lines,
        vec![
            "mender triage: 1 error(s), 1 warning(s) in 2 cluster(s)".to_string(),
            String::new(),
            "  \u{2717} import: unresolved import `a` \u{2014} src/x.rs (1x)".to_string(),
            "    Fix: Check module path, ensure the target module exists and is declared with `mod`".to_string(),
            "  \u{26a0} warn: unused \u{2014} (no file) (1x)".to_string(),
            String::new(),
            "  Suggested fix order:".to_string(),
            "    1. [import] import: unresolved import `a` \u{2014} Check module path, ensure the target module exists and is declared with `mod`".to_string(),
            "    2. [warning] warn: unused \u{2014} Investigate manually".to_string(),
        ]
    );
}

#[test]
fn triage_output_is_parse_then_triage() {
    let output = "test t ... FAILED\nImportError: No module named 'x'\n";
    let a = triage_output(output);
    let b = triage(&parse_errors(output));
    assert_eq!(a.fix_order, b.fix_order);
    assert_eq!(a.total_errors, b.total_errors);
    assert_eq!(a.clusters.len(), b.clusters.len());
}

#[test]
fn pattern_listing() {
    let patterns = supported_patterns();
    assert_eq!(patterns.len(), 9);
    assert_eq!(patterns[0], ("Rust compile errors", "error[E0xxx]: ...", "compile_error"));
    assert_eq!(patterns[8], ("Generic errors", "error: / fatal:", "unknown"));
    let lines = render_patterns_text();
    assert_eq!(lines.len(), 2 + 3 * 9);
    assert_eq!(lines[0], "mender: supported error patterns");
    assert_eq!(lines[2], "  Rust compile errors");
    assert_eq!(lines[3], "    Example: error[E0xxx]: ...");
    assert_eq!(lines[4], "");
}

#[test]
fn error_codes() {
    let v = MenderError::Validation("No command provided".into());
    assert_eq!(v.exit_code(), 1);
    assert_eq!(v.error_code(), "validation_error");
    let io = MenderError::Io(std::io::Error::new(std::io::ErrorKind::NotFound, "gone"));
    assert_eq!(io.exit_code(), 2);
    assert_eq!(io.error_code(), "io_error");
    let json = MenderError::Json(serde_json::from_str::<serde_json::Value>("{").unwrap_err());
    assert_eq!(json.exit_code(), 1);
    assert_eq!(json.error_code(), "json_error");
}

#[test]
fn json_format_flag() {
    let cli = Cli { repo: None, format: OutputFormat::Json, command: Command::Patterns };
    assert!(cli.is_json());
    let cli = Cli {
        repo: None,
        format: OutputFormat::Text,
        command: Command::Triage { file: None, run: None },
    };
    assert!(!cli.is_json());
}

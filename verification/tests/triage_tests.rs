use mender::parse::{parse_errors, ErrorType, ParsedError, Severity};
use mender::triage::{merge_locations, triage};

#[test]
fn triage_empty_input() {
    let errors = parse_errors("");
    let result = triage(&errors);
    assert!(result.clusters.is_empty());
    assert!(result.fix_order.is_empty());
    assert_eq!(result.total_errors, 0);
    assert_eq!(result.total_warnings, 0);
}

#[test]
fn triage_clusters_same_type() {
    let output = "error[E0432]: unresolved import `crate::foo`\nerror[E0432]: unresolved import `crate::bar`\n";
    let errors = parse_errors(output);
    let result = triage(&errors);
    assert!(!result.clusters.is_empty());
    assert!(result.total_errors > 0);
}

#[test]
fn fix_order_imports_before_tests() {
    let output = "test my_test ... FAILED\nerror[E0432]: unresolved import `crate::foo`\n";
    let errors = parse_errors(output);
    let result = triage(&errors);
    // Import errors should come before test failures in fix order
    if result.fix_order.len() >= 2 {
        assert!(result.fix_order[0].contains("import"));
    }
}

#[test]
fn triage_with_warnings_still_passes() {
    let output = "warning: unused variable `x`\n";
    let errors = parse_errors(output);
    let result = triage(&errors);
    assert_eq!(result.total_warnings, 1);
    assert_eq!(result.total_errors, 0);
}

#[test]
fn merge_locations_pairs_error_with_location() {
    let errors = vec![
        ParsedError {
            file: None,
            line: None,
            column: None,
            message: "unresolved import".into(),
            error_type: ErrorType::ImportError,
            severity: Severity::Error,
            raw_line: "error: unresolved import".into(),
        },
        ParsedError {
            file: Some("src/main.rs".into()),
            line: Some(3),
            column: Some(5),
            message: String::new(),
            error_type: ErrorType::CompileError,
            severity: Severity::Info,
            raw_line: " --> src/main.rs:3:5".into(),
        },
    ];
    let merged = merge_locations(&errors);
    assert_eq!(merged.len(), 1);
    assert_eq!(merged[0].file, Some("src/main.rs".into()));
    assert_eq!(merged[0].message, "unresolved import");
}

#[test]
fn merge_drops_standalone_markers() {
    let errors = parse_errors(" --> a.rs:1:1\n  File \"x.py\", line 3\nwarning: w\n --> b.rs:2:2");
    let merged = merge_locations(&errors);
    assert_eq!(merged.len(), 1);
    assert_eq!(merged[0].message, "w");
    assert_eq!(merged[0].file, Some("b.rs".to_string()));
    assert_eq!(merged[0].line, Some(2));
}

#[test]
fn merged_location_counts_once() {
    let output = "error[E0308]: mismatched types\n --> src/a.rs:4:9\n";
    let result = triage(&parse_errors(output));
    assert_eq!(result.total_errors, 1);
    assert_eq!(result.clusters.len(), 1);
    let c = &result.clusters[0];
    assert_eq!(c.root_cause, "type: mismatched types");
    assert_eq!(c.file, Some("src/a.rs".to_string()));
    assert_eq!(c.errors[0].line, Some(4));
    assert_eq!(c.count, 1);
}

#[test]
fn clusters_sorted_by_severity_then_count() {
    let output = "warning: w1\nerror: x\nwarning: w2\nwarning: w2\nerror: y\nerror: y\n";
    let result = triage(&parse_errors(output));
    let order: Vec<(Severity, usize)> = result.clusters.iter().map(|c| (c.severity, c.count)).collect();
    assert_eq!(
        order,
        vec![(Severity::Error, 2), (Severity::Error, 1), (Severity::Warning, 2), (Severity::Warning, 1)]
    );
    assert_eq!(result.clusters[0].root_cause, "compile: y");
    assert_eq!(result.total_errors, 3);
    assert_eq!(result.total_warnings, 3);
}

#[test]
fn equal_clusters_keep_first_appearance_order() {
    let output = "error: b\nerror: a\nerror: c\n";
    let result = triage(&parse_errors(output));
    let roots: Vec<&str> = result.clusters.iter().map(|c| c.root_cause.as_str()).collect();
    assert_eq!(roots, vec!["compile: b", "compile: a", "compile: c"]);
}

#[test]
fn fix_order_text() {
    let output = "thread 'main' (1) panicked at x\nerror[E0432]: unresolved import `a`\nerror: e\n";
    let result = triage(&parse_errors(output));
    assert_eq!(
        result.fix_order,
        vec![
            "1. [import] import: unresolved import `a` \u{2014} Check module path, ensure the target module exists and is declared with `mod`".to_string(),
            "2. [compile] compile: e \u{2014} Investigate manually".to_string(),
            "3. [panic] panic \u{2014} Check the panic message for assertion failures or unwrap calls on None/Err".to_string(),
        ]
    );
}

#[test]
fn fix_order_numbers_past_nine() {
    let mut output = String::new();
    for i in 0..12 {
        output.push_str(&format!("error: e{i}\n"));
    }
    let result = triage(&parse_errors(&output));
    assert_eq!(result.fix_order.len(), 12);
    assert!(result.fix_order[11].starts_with("12. [compile]"));
}

#[test]
fn cluster_key_cuts_to_first_sixty_chars() {
    let long = "x".repeat(80);
    let output = format!("warning: {long}\n");
    let result = triage(&parse_errors(&output));
    assert_eq!(result.clusters[0].root_cause, format!("warn: {}", "x".repeat(60)));
    assert_eq!(result.clusters[0].suggested_fix, None);
}

#[test]
fn python_import_fix() {
    let result = triage(&parse_errors("ImportError: No module named 'flask'\n"));
    assert_eq!(
        result.clusters[0].suggested_fix,
        Some("Install the missing package or check your virtual environment".to_string())
    );
}

use std::collections::HashSet;

use mender::parse::{parse_errors, ErrorType, ParsedError, Severity};
use mender::triage::{merge_locations, normalize_message, triage};

fn same(a: &[ParsedError], b: &[ParsedError]) -> bool {
    a.len() == b.len()
        && a.iter().zip(b).all(|(x, y)| {
            x.file == y.file
                && x.line == y.line
                && x.column == y.column
                && x.message == y.message
                && x.error_type == y.error_type
                && x.severity == y.severity
                && x.raw_line == y.raw_line
        })
}

const SAMPLE: &str = "error[E0432]: unresolved import `a`\n --> src/a.rs:1:1\n --> src/b.rs:2:2\n\
warning: unused\n  File \"x.py\", line 9\nValueError: bad\ntest t ... FAILED\n\
error[E0308]: mismatched types\n --> src/c.rs:3:3\nerror: x\nerror: x\n";

#[test]
fn merging_twice_is_merging_once() {
    let parsed = parse_errors(SAMPLE);
    let once = merge_locations(&parsed);
    let twice = merge_locations(&once);
    assert!(same(&once, &twice));
    assert!(once.len() <= parsed.len());
    assert!(once.iter().all(|e| !(e.severity == Severity::Info && e.message.is_empty())));
}

#[test]
fn clusters_account_for_every_merged_entry() {
    let parsed = parse_errors(SAMPLE);
    let merged = merge_locations(&parsed);
    let result = triage(&parsed);
    let total: usize = result.clusters.iter().map(|c| c.count).sum();
    assert_eq!(total, merged.len());
    assert!(result.clusters.iter().all(|c| c.count == c.errors.len() && c.count > 0));
    let roots: HashSet<&str> = result.clusters.iter().map(|c| c.root_cause.as_str()).collect();
    assert_eq!(roots.len(), result.clusters.len());
    assert_eq!(result.fix_order.len(), result.clusters.len());
    assert!(result.total_errors + result.total_warnings <= merged.len());
}

#[test]
fn clusters_in_rank_order() {
    let result = triage(&parse_errors(SAMPLE));
    let rank = |s: Severity| match s {
        Severity::Error => 0,
        Severity::Warning => 1,
        Severity::Info => 2,
    };
    for w in result.clusters.windows(2) {
        let (a, b) = (&w[0], &w[1]);
        assert!(rank(a.severity) < rank(b.severity) || (a.severity == b.severity && a.count >= b.count));
    }
}

#[test]
fn fix_order_by_priority() {
    let result = triage(&parse_errors(SAMPLE));
    let labels: Vec<&str> = result
        .fix_order
        .iter()
        .map(|s| s.split('[').nth(1).unwrap().split(']').next().unwrap())
        .collect();
    let prio = |l: &str| ["import", "link", "compile", "type", "panic", "test", "warning", "unknown"]
        .iter()
        .position(|x| *x == l)
        .unwrap();
    for w in labels.windows(2) {
        assert!(prio(w[0]) <= prio(w[1]));
    }
    for (k, step) in result.fix_order.iter().enumerate() {
        assert!(step.starts_with(&format!("{}. [", k + 1)));
    }
}

#[test]
fn entries_come_from_lines() {
    let parsed = parse_errors(SAMPLE);
    let lines: Vec<&str> = SAMPLE.lines().collect();
    assert!(parsed.len() <= lines.len());
    for e in &parsed {
        assert!(lines.contains(&e.raw_line.as_str()));
        assert_eq!(e.severity == Severity::Info, e.message.is_empty());
        if e.severity == Severity::Info {
            assert!(e.file.is_some() && e.error_type == ErrorType::CompileError);
        }
    }
}

#[test]
fn parsing_is_line_by_line() {
    let a = "error: one\nsomething";
    let b = "ValueError: two\n --> f.rs:1:1";
    let joined = format!("{a}\n{b}");
    let mut separate = parse_errors(a);
    separate.extend(parse_errors(b));
    assert!(same(&parse_errors(&joined), &separate));
}

#[test]
fn parsing_is_line_by_line_across_blank_lines() {
    for a in ["", "error: one\n", "x\n\n"] {
        let b = "warning: two\n  \t \n";
        let joined = format!("{a}\n{b}");
        let mut separate = parse_errors(a);
        separate.extend(parse_errors(b));
        assert!(same(&parse_errors(&joined), &separate));
    }
}

#[test]
fn blank_lines_name_nothing() {
    assert!(parse_errors("   \t \u{3000}\n\u{a0}").is_empty());
}

#[test]
fn normalized_message_is_first_line_prefix() {
    let n = normalize_message("first line\nsecond line");
    assert_eq!(n, "first line");
    let long = "y".repeat(61);
    assert_eq!(normalize_message(&long).chars().count(), 60);
    assert_eq!(normalize_message("short"), "short");
}

//! From raw output to a triage, and the text that presents a triage or the
//! supported patterns.

use vstd::prelude::*;
use crate::parse::{parse_errors, parsed_output, Severity, models};
use crate::text::{decimal, append_decimal};
use crate::triage::{
    triage, triage_of, TriageResult, TriageModel, ClusterModel, ErrorCluster, cluster_models,
    string_views,
};

verus! {

/// What the program reports for raw build/test output.
pub fn triage_output(output: &str) -> (r: TriageResult)
    ensures
        r@ == triage_of(parsed_output(output@)),
{
    let errors = parse_errors(output);
    triage(errors.as_slice())
}

// ---------------------------------------------------------------------------
// Triage as text
// ---------------------------------------------------------------------------

pub open spec fn severity_icon(s: Severity) -> char {
    match s {
        Severity::Error => '\u{2717}',
        Severity::Warning => '\u{26a0}',
        Severity::Info => '\u{b7}',
    }
}

/// The heading line of a cluster and, when it has one, its fix.
pub open spec fn cluster_text(c: ClusterModel) -> Seq<Seq<char>> {
    let head = "  "@ + seq![severity_icon(c.severity)] + " "@ + c.root_cause + " \u{2014} "@
        + match c.file {
        Some(f) => f,
        None => "(no file)"@,
    } + " ("@ + decimal(c.count) + "x)"@;
    match c.suggested_fix {
        Some(f) => seq![head, "    Fix: "@ + f],
        None => seq![head],
    }
}

pub open spec fn clusters_text(cs: Seq<ClusterModel>) -> Seq<Seq<char>>
    decreases cs.len(),
{
    if cs.len() == 0 {
        Seq::empty()
    } else {
        clusters_text(cs.drop_last()) + cluster_text(cs.last())
    }
}

pub open spec fn summary_line(t: TriageModel) -> Seq<char> {
    "mender triage: "@ + decimal(t.total_errors) + " error(s), "@ + decimal(t.total_warnings)
        + " warning(s) in "@ + decimal(t.clusters.len()) + " cluster(s)"@
}

pub open spec fn fix_order_text(steps: Seq<Seq<char>>) -> Seq<Seq<char>> {
    if steps.len() == 0 {
        Seq::empty()
    } else {
        seq![Seq::empty(), "  Suggested fix order:"@] + steps.map_values(|s: Seq<char>| "    "@ + s)
    }
}

/// The lines of the text report of a triage.
pub open spec fn triage_text(t: TriageModel) -> Seq<Seq<char>> {
    if t.clusters.len() == 0 {
        seq!["mender: no errors found in output."@]
    } else {
        seq![summary_line(t), Seq::empty()] + clusters_text(t.clusters) + fix_order_text(t.fix_order)
    }
}

/// The report is the single line `mender: no errors found in output.`
/// exactly when the triage has no clusters; otherwise, warnings alone
/// included, it opens with the line `mender triage: ` giving the error,
/// warning and cluster counts, followed by an empty line.
pub proof fn lemma_triage_text_shape(t: TriageModel)
    ensures
        (triage_text(t) == seq!["mender: no errors found in output."@]) <==> t.clusters.len() == 0,
        t.clusters.len() > 0 ==> triage_text(t).len() >= 2 && triage_text(t)[0] == "mender triage: "@
            + decimal(t.total_errors) + " error(s), "@ + decimal(t.total_warnings)
            + " warning(s) in "@ + decimal(t.clusters.len()) + " cluster(s)"@ && triage_text(
            t,
        )[1].len() == 0,
{
    if t.clusters.len() > 0 {
        let head = seq![summary_line(t), Seq::<char>::empty()];
        let rest = clusters_text(t.clusters) + fix_order_text(t.fix_order);
        assert(triage_text(t) == head + rest);
        assert((head + rest)[0] == head[0]);
        assert((head + rest)[1] == head[1]);
        assert(triage_text(t).len() >= 2);
        if triage_text(t) == seq!["mender: no errors found in output."@] {
            assert(triage_text(t).len() == 1);
        }
    }
}

fn push_cluster_text(out: &mut Vec<String>, c: &ErrorCluster)
    ensures
        string_views(final(out)@) == string_views(old(out)@) + cluster_text(c@),
{
    let mut head = String::from_str("  ");
    let icon = match c.severity {
        Severity::Error => "\u{2717}",
        Severity::Warning => "\u{26a0}",
        Severity::Info => "\u{b7}",
    };
    proof {
        reveal_strlit("\u{2717}");
        reveal_strlit("\u{26a0}");
        reveal_strlit("\u{b7}");
        assert(icon@ =~= seq![severity_icon(c.severity)]);
    }
    head.append(icon);
    head.append(" ");
    head.append(c.root_cause.as_str());
    head.append(" \u{2014} ");
    match &c.file {
        Some(f) => head.append(f.as_str()),
        None => head.append("(no file)"),
    }
    head.append(" (");
    append_decimal(&mut head, c.count);
    head.append("x)");
    let ghost hv = head@;
    assert(hv =~= cluster_text(c@)[0]);
    let ghost before = out@;
    out.push(head);
    match &c.suggested_fix {
        Some(f) => {
            let mut line = String::from_str("    Fix: ");
            line.append(f.as_str());
            let ghost lv = line@;
            out.push(line);
            assert(string_views(out@) =~= string_views(before) + seq![hv, lv]);
        },
        None => {
            assert(string_views(out@) =~= string_views(before) + seq![hv]);
        },
    }
    assert(string_views(out@) =~= string_views(before) + cluster_text(c@));
}

/// The lines of the text report of a triage.
pub fn render_triage_text(result: &TriageResult) -> (r: Vec<String>)
    ensures
        string_views(r@) == triage_text(result@),
{
    let mut out: Vec<String> = Vec::new();
    if result.clusters.len() == 0 {
        out.push(String::from_str("mender: no errors found in output."));
        assert(string_views(out@) =~= triage_text(result@));
        return out;
    }
    let mut summary = String::from_str("mender triage: ");
    append_decimal(&mut summary, result.total_errors);
    summary.append(" error(s), ");
    append_decimal(&mut summary, result.total_warnings);
    summary.append(" warning(s) in ");
    append_decimal(&mut summary, result.clusters.len());
    summary.append(" cluster(s)");
    out.push(summary);
    out.push(String::new());
    let ghost head = string_views(out@);
    assert(head =~= seq![summary_line(result@), Seq::empty()]);
    let ghost cm = cluster_models(result.clusters@);
    let n = result.clusters.len();
    let mut i: usize = 0;
    assert(cm.take(0) =~= Seq::<ClusterModel>::empty());
    assert(string_views(out@) =~= head + clusters_text(cm.take(0)));
    while i < n
        invariant
            n == result.clusters@.len(),
            cm == cluster_models(result.clusters@),
            i <= n,
            string_views(out@) == head + clusters_text(cm.take(i as int)),
        decreases n - i,
    {
        push_cluster_text(&mut out, &result.clusters[i]);
        proof {
            assert(cm.take(i + 1).drop_last() =~= cm.take(i as int));
            assert(cm[i as int] == result.clusters@[i as int]@);
            assert(head + clusters_text(cm.take(i + 1)) =~= head + clusters_text(cm.take(i as int))
                + cluster_text(cm[i as int]));
        }
        i = i + 1;
    }
    assert(cm.take(n as int) =~= cm);
    let ghost body = string_views(out@);
    let steps = &result.fix_order;
    let m = steps.len();
    if m > 0 {
        out.push(String::new());
        out.push(String::from_str("  Suggested fix order:"));
        let ghost sv = string_views(steps@);
        let ghost mid = string_views(out@);
        assert(mid =~= body + seq![Seq::empty(), "  Suggested fix order:"@]);
        let mut j: usize = 0;
        while j < m
            invariant
                m == steps@.len(),
                sv == string_views(steps@),
                j <= m,
                string_views(out@) == mid + sv.take(j as int).map_values(|s: Seq<char>| "    "@ + s),
            decreases m - j,
        {
            let mut line = String::from_str("    ");
            line.append(steps[j].as_str());
            let ghost before = out@;
            let ghost lv = line@;
            out.push(line);
            proof {
                assert(string_views(out@) =~= string_views(before).push(lv));
                assert(sv.take(j + 1).map_values(|s: Seq<char>| "    "@ + s) =~= sv.take(
                    j as int,
                ).map_values(|s: Seq<char>| "    "@ + s).push(lv));
            }
            j = j + 1;
        }
        assert(sv.take(m as int) =~= sv);
    } else {
        assert(fix_order_text(result@.fix_order) =~= Seq::<Seq<char>>::empty());
    }
    assert(string_views(out@) =~= triage_text(result@));
    out
}

// ---------------------------------------------------------------------------
// Supported patterns
// ---------------------------------------------------------------------------

/// The supported error patterns: name, example and category.
pub open spec fn pattern_table() -> Seq<(Seq<char>, Seq<char>, Seq<char>)> {
    seq![
        ("Rust compile errors"@, "error[E0xxx]: ..."@, "compile_error"@),
        ("Rust test failures"@, "test xxx ... FAILED"@, "test_failure"@),
        ("Rust panics"@, "thread 'xxx' panicked at ..."@, "panic"@),
        ("Rust warnings"@, "warning: ..."@, "warning"@),
        ("TypeScript errors"@, "file.ts(line,col): error TSxxxx: ..."@, "type_error"@),
        ("Python errors"@, "XxxError: message"@, "compile_error"@),
        ("Python import errors"@, "ImportError: ..."@, "import_error"@),
        ("Go errors"@, "file.go:line:col: message"@, "compile_error"@),
        ("Generic errors"@, "error: / fatal:"@, "unknown"@),
    ]
}

pub open spec fn triple_views(s: Seq<(&'static str, &'static str, &'static str)>) -> Seq<
    (Seq<char>, Seq<char>, Seq<char>),
> {
    s.map_values(|t: (&'static str, &'static str, &'static str)| (t.0@, t.1@, t.2@))
}

/// The supported error patterns: name, example and category.
pub fn supported_patterns() -> (r: Vec<(&'static str, &'static str, &'static str)>)
    ensures
        triple_views(r@) == pattern_table(),
{
    let r = vec![
        ("Rust compile errors", "error[E0xxx]: ...", "compile_error"),
        ("Rust test failures", "test xxx ... FAILED", "test_failure"),
        ("Rust panics", "thread 'xxx' panicked at ...", "panic"),
        ("Rust warnings", "warning: ...", "warning"),
        ("TypeScript errors", "file.ts(line,col): error TSxxxx: ...", "type_error"),
        ("Python errors", "XxxError: message", "compile_error"),
        ("Python import errors", "ImportError: ...", "import_error"),
        ("Go errors", "file.go:line:col: message", "compile_error"),
        ("Generic errors", "error: / fatal:", "unknown"),
    ];
    assert(triple_views(r@) =~= pattern_table());
    r
}

/// The lines that list one pattern.
pub open spec fn pattern_text(p: (Seq<char>, Seq<char>, Seq<char>)) -> Seq<Seq<char>> {
    seq!["  "@ + p.0, "    Example: "@ + p.1, Seq::empty()]
}

pub open spec fn patterns_text(ps: Seq<(Seq<char>, Seq<char>, Seq<char>)>) -> Seq<Seq<char>>
    decreases ps.len(),
{
    if ps.len() == 0 {
        Seq::empty()
    } else {
        patterns_text(ps.drop_last()) + pattern_text(ps.last())
    }
}

/// The lines of the text listing of the supported patterns.
pub fn render_patterns_text() -> (r: Vec<String>)
    ensures
        string_views(r@) == seq!["mender: supported error patterns"@, Seq::<char>::empty()]
            + patterns_text(pattern_table()),
{
    let patterns = supported_patterns();
    let mut out: Vec<String> = Vec::new();
    out.push(String::from_str("mender: supported error patterns"));
    out.push(String::new());
    let ghost head = string_views(out@);
    let ghost pv = triple_views(patterns@);
    assert(pv.take(0) =~= Seq::<(Seq<char>, Seq<char>, Seq<char>)>::empty());
    assert(string_views(out@) =~= head + patterns_text(pv.take(0)));
    let n = patterns.len();
    let mut i: usize = 0;
    while i < n
        invariant
            n == patterns@.len(),
            pv == triple_views(patterns@),
            i <= n,
            string_views(out@) == head + patterns_text(pv.take(i as int)),
        decreases n - i,
    {
        let (name, example, _) = patterns[i];
        let ghost before = string_views(out@);
        let mut l1 = String::from_str("  ");
        l1.append(name);
        let mut l2 = String::from_str("    Example: ");
        l2.append(example);
        let ghost v1 = l1@;
        let ghost v2 = l2@;
        out.push(l1);
        out.push(l2);
        out.push(String::new());
        proof {
            assert(pv[i as int] == (name@, example@, patterns@[i as int].2@));
            assert(string_views(out@) =~= before + seq![v1, v2, Seq::empty()]);
            assert(pv.take(i + 1).drop_last() =~= pv.take(i as int));
            assert(head + patterns_text(pv.take(i + 1)) =~= head + patterns_text(pv.take(i as int))
                + pattern_text(pv[i as int]));
        }
        i = i + 1;
    }
    assert(pv.take(n as int) =~= pv);
    out
}

} // verus!

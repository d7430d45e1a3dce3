//! Triage: pairs errors with their location markers, clusters them by
//! likely root cause, orders the clusters and proposes a fix order.

use vstd::prelude::*;
use crate::parse::{ParsedError, ErrorType, Severity, ErrorModel, opt_view, models, copy_opt_string};
use crate::text::{
    newline_at_or_after, lemma_newline_at_or_after, contains_seq, chars_of, contains_lit,
    append_range, decimal, append_decimal,
};

verus! {

// ---------------------------------------------------------------------------
// Types
// ---------------------------------------------------------------------------

/// A cluster of related errors (likely same root cause).
#[derive(Debug)]
pub struct ErrorCluster {
    pub root_cause: String,
    pub error_type: ErrorType,
    pub severity: Severity,
    pub file: Option<String>,
    pub count: usize,
    pub errors: Vec<ClusterEntry>,
    pub suggested_fix: Option<String>,
}

#[derive(Debug)]
pub struct ClusterEntry {
    pub message: String,
    pub file: Option<String>,
    pub line: Option<usize>,
}

/// Triage result with clusters and a suggested fix order.
#[derive(Debug)]
pub struct TriageResult {
    pub clusters: Vec<ErrorCluster>,
    pub fix_order: Vec<String>,
    pub total_errors: usize,
    pub total_warnings: usize,
}

pub struct EntryModel {
    pub message: Seq<char>,
    pub file: Option<Seq<char>>,
    pub line: Option<usize>,
}

pub struct ClusterModel {
    pub root_cause: Seq<char>,
    pub error_type: ErrorType,
    pub severity: Severity,
    pub file: Option<Seq<char>>,
    pub count: nat,
    pub errors: Seq<EntryModel>,
    pub suggested_fix: Option<Seq<char>>,
}

pub struct TriageModel {
    pub clusters: Seq<ClusterModel>,
    pub fix_order: Seq<Seq<char>>,
    pub total_errors: nat,
    pub total_warnings: nat,
}

impl View for ClusterEntry {
    type V = EntryModel;

    open spec fn view(&self) -> EntryModel {
        EntryModel { message: self.message@, file: opt_view(self.file), line: self.line }
    }
}

pub open spec fn entry_models(s: Seq<ClusterEntry>) -> Seq<EntryModel> {
    s.map_values(|e: ClusterEntry| e@)
}

impl View for ErrorCluster {
    type V = ClusterModel;

    open spec fn view(&self) -> ClusterModel {
        ClusterModel {
            root_cause: self.root_cause@,
            error_type: self.error_type,
            severity: self.severity,
            file: opt_view(self.file),
            count: self.count as nat,
            errors: entry_models(self.errors@),
            suggested_fix: opt_view(self.suggested_fix),
        }
    }
}

pub open spec fn cluster_models(s: Seq<ErrorCluster>) -> Seq<ClusterModel> {
    s.map_values(|c: ErrorCluster| c@)
}

pub open spec fn string_views(s: Seq<String>) -> Seq<Seq<char>> {
    s.map_values(|t: String| t@)
}

impl View for TriageResult {
    type V = TriageModel;

    open spec fn view(&self) -> TriageModel {
        TriageModel {
            clusters: cluster_models(self.clusters@),
            fix_order: string_views(self.fix_order@),
            total_errors: self.total_errors as nat,
            total_warnings: self.total_warnings as nat,
        }
    }
}

// ---------------------------------------------------------------------------
// Merging location markers
// ---------------------------------------------------------------------------

/// A location marker: an informational entry with a file and no message.
pub open spec fn is_location_marker(e: ErrorModel) -> bool {
    e.severity == Severity::Info && e.file is Some && e.message.len() == 0
}

/// An informational entry with no message, which stands for nothing alone.
pub open spec fn is_bare_marker(e: ErrorModel) -> bool {
    e.severity == Severity::Info && e.message.len() == 0
}

/// An error that takes its place from the location marker after it.
pub open spec fn with_location(e: ErrorModel, loc: ErrorModel) -> ErrorModel {
    ErrorModel {
        file: loc.file,
        line: loc.line,
        column: loc.column,
        message: e.message,
        error_type: e.error_type,
        severity: e.severity,
        raw_line: e.raw_line,
    }
}

/// `s[i..]` with each non-informational entry merged with a location
/// marker right after it, and every other message-less informational entry
/// dropped.
pub open spec fn merged_from(s: Seq<ErrorModel>, i: int) -> Seq<ErrorModel>
    decreases s.len() - i,
{
    if i < 0 || i >= s.len() {
        Seq::empty()
    } else if s[i].severity != Severity::Info && i + 1 < s.len() && is_location_marker(s[i + 1]) {
        seq![with_location(s[i], s[i + 1])] + merged_from(s, i + 2)
    } else if is_bare_marker(s[i]) {
        merged_from(s, i + 1)
    } else {
        seq![s[i]] + merged_from(s, i + 1)
    }
}

pub open spec fn merged(s: Seq<ErrorModel>) -> Seq<ErrorModel> {
    merged_from(s, 0)
}

// ---------------------------------------------------------------------------
// Cluster keys and fixes
// ---------------------------------------------------------------------------

/// The first line of a message, cut to 60 characters.
pub open spec fn normalized(m: Seq<char>) -> Seq<char> {
    let first = m.take(newline_at_or_after(m, 0));
    if first.len() > 60 {
        first.take(60)
    } else {
        first
    }
}

/// The root cause that groups an entry with others.
pub open spec fn key_of(e: ErrorModel) -> Seq<char> {
    match e.error_type {
        ErrorType::ImportError => "import: "@ + normalized(e.message),
        ErrorType::TypeError => "type: "@ + normalized(e.message),
        ErrorType::TestFailure => "test: "@ + e.message,
        ErrorType::Panic => "panic"@,
        ErrorType::LinkError => "link"@,
        ErrorType::Warning => "warn: "@ + normalized(e.message),
        ErrorType::CompileError => match e.file {
            Some(f) => "compile: "@ + f,
            None => "compile: "@ + normalized(e.message),
        },
        ErrorType::Unknown => "unknown: "@ + normalized(e.message),
    }
}

/// The fix suggested for a cluster whose first error has this kind and
/// message.
pub open spec fn fix_for(t: ErrorType, m: Seq<char>) -> Option<Seq<char>> {
    match t {
        ErrorType::ImportError => if contains_seq(m, "unresolved import"@) {
            Some("Check module path, ensure the target module exists and is declared with `mod`"@)
        } else if contains_seq(m, "No module named"@) {
            Some("Install the missing package or check your virtual environment"@)
        } else {
            Some("Verify import path and ensure dependency is listed in manifest"@)
        },
        ErrorType::TypeError => Some(
            "Check type annotations and function signatures at the reported location"@,
        ),
        ErrorType::TestFailure => Some(
            "Run the failing test in isolation to reproduce, check assertions"@,
        ),
        ErrorType::LinkError => Some(
            "Check for missing native libraries or incompatible dependency versions"@,
        ),
        ErrorType::Panic => Some(
            "Check the panic message for assertion failures or unwrap calls on None/Err"@,
        ),
        _ => None,
    }
}

// ---------------------------------------------------------------------------
// Grouping
// ---------------------------------------------------------------------------

/// The entries that share one root cause, in the order they came.
pub struct GroupModel {
    pub key: Seq<char>,
    pub members: Seq<ErrorModel>,
}

/// The position of the group with key `k` at or after `i`, or -1.
pub open spec fn group_position(gs: Seq<GroupModel>, k: Seq<char>, i: int) -> int
    decreases gs.len() - i,
{
    if i < 0 || i >= gs.len() {
        -1
    } else if gs[i].key == k {
        i
    } else {
        group_position(gs, k, i + 1)
    }
}

/// `gs` with `e` added to the group of its key, or to a new group at the end.
pub open spec fn add_to_groups(gs: Seq<GroupModel>, e: ErrorModel) -> Seq<GroupModel> {
    let k = key_of(e);
    let j = group_position(gs, k, 0);
    if j >= 0 {
        gs.update(j, GroupModel { key: k, members: gs[j].members.push(e) })
    } else {
        gs.push(GroupModel { key: k, members: seq![e] })
    }
}

/// The groups of `s` by root cause, in the order their keys first appear.
pub open spec fn groups_of(s: Seq<ErrorModel>) -> Seq<GroupModel>
    decreases s.len(),
{
    if s.len() == 0 {
        Seq::empty()
    } else {
        add_to_groups(groups_of(s.drop_last()), s.last())
    }
}

/// The first file named among `s`.
pub open spec fn first_file(s: Seq<ErrorModel>) -> Option<Seq<char>>
    decreases s.len(),
{
    if s.len() == 0 {
        None
    } else if s[0].file is Some {
        s[0].file
    } else {
        first_file(s.drop_first())
    }
}

pub open spec fn entry_of(e: ErrorModel) -> EntryModel {
    EntryModel { message: e.message, file: e.file, line: e.line }
}

/// The cluster a group forms; its kind, severity and fix come from its
/// first entry.
pub open spec fn cluster_of(g: GroupModel) -> ClusterModel {
    let first = g.members[0];
    ClusterModel {
        root_cause: g.key,
        error_type: first.error_type,
        severity: first.severity,
        file: first_file(g.members),
        count: g.members.len(),
        errors: g.members.map_values(|e: ErrorModel| entry_of(e)),
        suggested_fix: fix_for(first.error_type, first.message),
    }
}

pub open spec fn clusters_of(s: Seq<ErrorModel>) -> Seq<ClusterModel> {
    groups_of(s).map_values(|g: GroupModel| cluster_of(g))
}

// ---------------------------------------------------------------------------
// Ordering
// ---------------------------------------------------------------------------

pub open spec fn severity_rank(s: Severity) -> nat {
    match s {
        Severity::Error => 0,
        Severity::Warning => 1,
        Severity::Info => 2,
    }
}

/// `a` comes strictly before `b`: more severe, or as severe and larger.
pub open spec fn ranks_before(a: ClusterModel, b: ClusterModel) -> bool {
    severity_rank(a.severity) < severity_rank(b.severity) || (a.severity == b.severity && a.count
        > b.count)
}

/// `x` put in front of the first cluster of `s` that it does not rank after.
pub open spec fn insert_ranked(s: Seq<ClusterModel>, x: ClusterModel) -> Seq<ClusterModel>
    decreases s.len(),
{
    if s.len() == 0 {
        seq![x]
    } else if !ranks_before(s[0], x) {
        seq![x] + s
    } else {
        seq![s[0]] + insert_ranked(s.drop_first(), x)
    }
}

/// The stable sort of `s` by rank: errors first, then by count descending,
/// clusters of equal rank keeping their order.
pub open spec fn rank_sorted(s: Seq<ClusterModel>) -> Seq<ClusterModel>
    decreases s.len(),
{
    if s.len() == 0 {
        Seq::empty()
    } else {
        insert_ranked(rank_sorted(s.drop_first()), s[0])
    }
}

/// Fix order priority: imports, link, compile, type, panic, test, warning,
/// unknown.
pub open spec fn priority(t: ErrorType) -> nat {
    match t {
        ErrorType::ImportError => 0,
        ErrorType::LinkError => 1,
        ErrorType::CompileError => 2,
        ErrorType::TypeError => 3,
        ErrorType::Panic => 4,
        ErrorType::TestFailure => 5,
        ErrorType::Warning => 6,
        ErrorType::Unknown => 7,
    }
}

/// The clusters of `s` with priority `p`, in order.
pub open spec fn with_priority(s: Seq<ClusterModel>, p: nat) -> Seq<ClusterModel>
    decreases s.len(),
{
    if s.len() == 0 {
        Seq::empty()
    } else if priority(s.last().error_type) == p {
        with_priority(s.drop_last(), p).push(s.last())
    } else {
        with_priority(s.drop_last(), p)
    }
}

/// The clusters of `s` with priority at least `p`, stably sorted by priority.
pub open spec fn by_priority_from(s: Seq<ClusterModel>, p: nat) -> Seq<ClusterModel>
    decreases 8 - p,
{
    if p >= 8 {
        Seq::empty()
    } else {
        with_priority(s, p) + by_priority_from(s, p + 1)
    }
}

/// `s` stably sorted by fix priority.
pub open spec fn by_priority(s: Seq<ClusterModel>) -> Seq<ClusterModel> {
    by_priority_from(s, 0)
}

pub open spec fn type_label(t: ErrorType) -> Seq<char> {
    match t {
        ErrorType::ImportError => "import"@,
        ErrorType::TypeError => "type"@,
        ErrorType::TestFailure => "test"@,
        ErrorType::LinkError => "link"@,
        ErrorType::CompileError => "compile"@,
        ErrorType::Warning => "warning"@,
        ErrorType::Panic => "panic"@,
        ErrorType::Unknown => "unknown"@,
    }
}

/// Step `n` of the fix order: `n. [label] root cause — fix`.
pub open spec fn fix_step(n: nat, c: ClusterModel) -> Seq<char> {
    decimal(n) + ". ["@ + type_label(c.error_type) + "] "@ + c.root_cause + " \u{2014} "@ + match c.suggested_fix {
        Some(f) => f,
        None => "Investigate manually"@,
    }
}

pub open spec fn fix_steps(s: Seq<ClusterModel>) -> Seq<Seq<char>> {
    Seq::new(s.len(), |k: int| fix_step((k + 1) as nat, s[k]))
}

/// How many entries of `s` have severity `sev`.
pub open spec fn count_severity(s: Seq<ErrorModel>, sev: Severity) -> nat
    decreases s.len(),
{
    if s.len() == 0 {
        0
    } else {
        count_severity(s.drop_last(), sev) + if s.last().severity == sev {
            1nat
        } else {
            0nat
        }
    }
}

/// What triage makes of a sequence of entries.
pub open spec fn triage_of(errors: Seq<ErrorModel>) -> TriageModel {
    let m = merged(errors);
    let clusters = rank_sorted(clusters_of(m));
    TriageModel {
        clusters,
        fix_order: fix_steps(by_priority(clusters)),
        total_errors: count_severity(m, Severity::Error),
        total_warnings: count_severity(m, Severity::Warning),
    }
}

// ---------------------------------------------------------------------------
// Merging, keys and fixes
// ---------------------------------------------------------------------------

/// Pairs each error with the location marker right after it and drops the
/// location markers left over.
pub fn merge_locations(errors: &[ParsedError]) -> (r: Vec<ParsedError>)
    ensures
        models(r@) == merged(models(errors@)),
{
    let ghost ms = models(errors@);
    let n = errors.len();
    let mut out: Vec<ParsedError> = Vec::new();
    let mut i: usize = 0;
    assert(models(out@) + merged_from(ms, 0) =~= merged_from(ms, 0));
    while i < n
        invariant
            n == errors@.len(),
            ms == models(errors@),
            i <= n,
            merged_from(ms, 0) == models(out@) + merged_from(ms, i as int),
        decreases n - i,
    {
        let err = &errors[i];
        let ghost before = out@;
        if err.severity != Severity::Info && i + 1 < n {
            let next = &errors[i + 1];
            if next.severity == Severity::Info && next.file.is_some()
                && next.message.as_str().is_empty() {
                let e = ParsedError {
                    file: copy_opt_string(&next.file),
                    line: next.line,
                    column: next.column,
                    message: err.message.clone(),
                    error_type: err.error_type,
                    severity: err.severity,
                    raw_line: err.raw_line.clone(),
                };
                out.push(e);
                proof {
                    assert(e@ == with_location(ms[i as int], ms[i + 1]));
                    assert(models(out@) =~= models(before).push(e@));
                    assert(models(out@) + merged_from(ms, i + 2) =~= models(before) + merged_from(
                        ms,
                        i as int,
                    ));
                }
                i = i + 2;
                continue;
            }
        }
        if err.severity == Severity::Info && err.message.as_str().is_empty() {
            i = i + 1;
            continue;
        }
        let e = err.duplicate();
        out.push(e);
        proof {
            assert(models(out@) =~= models(before).push(e@));
            assert(models(out@) + merged_from(ms, i + 1) =~= models(before) + merged_from(
                ms,
                i as int,
            ));
        }
        i = i + 1;
    }
    assert(merged_from(ms, n as int) =~= Seq::<ErrorModel>::empty());
    assert(models(out@) + merged_from(ms, n as int) =~= models(out@));
    out
}

/// Reduces a message to its first line, cut to 60 characters.
pub fn normalize_message(msg: &str) -> (r: String)
    ensures
        r@ == normalized(msg@),
{
    let v = chars_of(msg);
    proof {
        lemma_newline_at_or_after(v@, 0);
    }
    let mut j: usize = 0;
    while j < v.len() && v[j] != '\n'
        invariant
            j <= v@.len(),
            newline_at_or_after(v@, j as int) == newline_at_or_after(v@, 0),
        decreases v@.len() - j,
    {
        j = j + 1;
    }
    let end = if j > 60 {
        60
    } else {
        j
    };
    let mut r = String::new();
    append_range(&mut r, &v, 0, end);
    proof {
        let first = v@.take(j as int);
        if j > 60 {
            assert(r@ =~= first.take(60));
        } else {
            assert(r@ =~= first);
        }
    }
    r
}

/// The root cause that groups an entry with others.
pub fn cluster_key(err: &ParsedError) -> (r: String)
    ensures
        r@ == key_of(err@),
{
    match err.error_type {
        ErrorType::ImportError => {
            let mut k = String::from_str("import: ");
            k.append(normalize_message(err.message.as_str()).as_str());
            k
        },
        ErrorType::TypeError => {
            let mut k = String::from_str("type: ");
            k.append(normalize_message(err.message.as_str()).as_str());
            k
        },
        ErrorType::TestFailure => {
            let mut k = String::from_str("test: ");
            k.append(err.message.as_str());
            k
        },
        ErrorType::Panic => String::from_str("panic"),
        ErrorType::LinkError => String::from_str("link"),
        ErrorType::Warning => {
            let mut k = String::from_str("warn: ");
            k.append(normalize_message(err.message.as_str()).as_str());
            k
        },
        ErrorType::CompileError => {
            let mut k = String::from_str("compile: ");
            match &err.file {
                Some(file) => k.append(file.as_str()),
                None => k.append(normalize_message(err.message.as_str()).as_str()),
            }
            k
        },
        ErrorType::Unknown => {
            let mut k = String::from_str("unknown: ");
            k.append(normalize_message(err.message.as_str()).as_str());
            k
        },
    }
}

/// The fix to suggest for a cluster whose first error has this kind and
/// message.
pub fn suggest_fix(error_type: ErrorType, message: &str) -> (r: Option<String>)
    ensures
        opt_view(r) == fix_for(error_type, message@),
{
    match error_type {
        ErrorType::ImportError => {
            let m = chars_of(message);
            if contains_lit(&m, "unresolved import") {
                Some(
                    String::from_str(
                        "Check module path, ensure the target module exists and is declared with `mod`",
                    ),
                )
            } else if contains_lit(&m, "No module named") {
                Some(String::from_str("Install the missing package or check your virtual environment"))
            } else {
                Some(String::from_str("Verify import path and ensure dependency is listed in manifest"))
            }
        },
        ErrorType::TypeError => Some(
            String::from_str("Check type annotations and function signatures at the reported location"),
        ),
        ErrorType::TestFailure => Some(
            String::from_str("Run the failing test in isolation to reproduce, check assertions"),
        ),
        ErrorType::LinkError => Some(
            String::from_str("Check for missing native libraries or incompatible dependency versions"),
        ),
        ErrorType::Panic => Some(
            String::from_str("Check the panic message for assertion failures or unwrap calls on None/Err"),
        ),
        _ => None,
    }
}

// ---------------------------------------------------------------------------
// Clustering
// ---------------------------------------------------------------------------

/// The entries that share one root cause.
struct Group {
    key: String,
    members: Vec<ParsedError>,
}

impl View for Group {
    type V = GroupModel;

    closed spec fn view(&self) -> GroupModel {
        GroupModel { key: self.key@, members: models(self.members@) }
    }
}

spec fn group_models(s: Seq<Group>) -> Seq<GroupModel> {
    s.map_values(|g: Group| g@)
}

proof fn lemma_group_position(gs: Seq<GroupModel>, k: Seq<char>, i: int)
    requires
        0 <= i,
    ensures
        group_position(gs, k, i) == -1 || (i <= group_position(gs, k, i) < gs.len()
            && gs[group_position(gs, k, i)].key == k),
    decreases gs.len() - i,
{
    if i < gs.len() && gs[i].key != k {
        lemma_group_position(gs, k, i + 1);
    }
}

proof fn lemma_groups_nonempty(s: Seq<ErrorModel>)
    ensures
        forall|i: int| 0 <= i < groups_of(s).len() ==> #[trigger] groups_of(s)[i].members.len() > 0,
    decreases s.len(),
{
    if s.len() > 0 {
        let gs = groups_of(s.drop_last());
        let k = key_of(s.last());
        lemma_groups_nonempty(s.drop_last());
        lemma_group_position(gs, k, 0);
        let j = group_position(gs, k, 0);
        assert forall|i: int| 0 <= i < groups_of(s).len() implies #[trigger] groups_of(s)[i].members.len() > 0 by {
            if j >= 0 {
                if i != j {
                    assert(groups_of(s)[i] == gs[i]);
                }
            } else {
                if i < gs.len() {
                    assert(groups_of(s)[i] == gs[i]);
                }
            }
        }
    }
}

/// Adds `e` to the group of its root cause, or opens a new group for it.
fn add_to_group(groups: &mut Vec<Group>, e: &ParsedError)
    ensures
        group_models(final(groups)@) == add_to_groups(group_models(old(groups)@), e@),
{
    let ghost gm = group_models(groups@);
    let key = cluster_key(e);
    let n = groups.len();
    let mut j: usize = 0;
    while j < n
        invariant
            n == groups@.len(),
            gm == group_models(groups@),
            gm == group_models(old(groups)@),
            j <= n,
            key@ == key_of(e@),
            group_position(gm, key@, 0) == group_position(gm, key@, j as int),
        decreases n - j,
    {
        if groups[j].key == key {
            let ghost old_groups = groups@;
            let mut g = groups.remove(j);
            let ghost old_members = g.members@;
            let d = e.duplicate();
            g.members.push(d);
            proof {
                assert(models(g.members@) =~= models(old_members).push(e@));
                assert(gm[j as int] == old_groups[j as int]@);
                assert(group_position(gm, key@, j as int) == j);
            }
            let ghost g_view = g@;
            groups.insert(j, g);
            proof {
                assert(groups@ =~= old_groups.update(j as int, groups@[j as int]));
                assert(g_view == GroupModel { key: key@, members: gm[j as int].members.push(e@) });
                assert(group_models(groups@) =~= gm.update(
                    j as int,
                    GroupModel { key: key@, members: gm[j as int].members.push(e@) },
                ));
                assert(group_position(gm, key_of(e@), 0) == j);
                assert(add_to_groups(gm, e@) == gm.update(
                    j as int,
                    GroupModel { key: key@, members: gm[j as int].members.push(e@) },
                ));
            }
            return;
        }
        j = j + 1;
    }
    let mut members: Vec<ParsedError> = Vec::new();
    members.push(e.duplicate());
    groups.push(Group { key, members });
    proof {
        assert(models(members@) =~= seq![e@]);
        assert(group_models(groups@) =~= gm.push(GroupModel { key: key_of(e@), members: seq![e@] }));
    }
}

/// Groups entries by root cause, in the order the root causes first appear.
fn group_errors(errors: &[ParsedError]) -> (r: Vec<Group>)
    ensures
        group_models(r@) == groups_of(models(errors@)),
{
    let ghost ms = models(errors@);
    let mut groups: Vec<Group> = Vec::new();
    let n = errors.len();
    let mut i: usize = 0;
    assert(group_models(groups@) =~= groups_of(ms.take(0)));
    while i < n
        invariant
            n == errors@.len(),
            ms == models(errors@),
            i <= n,
            group_models(groups@) == groups_of(ms.take(i as int)),
        decreases n - i,
    {
        add_to_group(&mut groups, &errors[i]);
        proof {
            assert(ms.take(i + 1).drop_last() =~= ms.take(i as int));
        }
        i = i + 1;
    }
    assert(ms.take(n as int) =~= ms);
    groups
}

/// The first file named among a group's entries.
fn first_file_of(members: &Vec<ParsedError>) -> (r: Option<String>)
    ensures
        opt_view(r) == first_file(models(members@)),
{
    let ghost ms = models(members@);
    let n = members.len();
    let mut t: usize = 0;
    assert(ms.skip(0) =~= ms);
    while t < n
        invariant
            n == members@.len(),
            ms == models(members@),
            t <= n,
            first_file(ms) == first_file(ms.skip(t as int)),
        decreases n - t,
    {
        assert(ms.skip(t as int)[0] == ms[t as int]);
        if members[t].file.is_some() {
            return copy_opt_string(&members[t].file);
        }
        assert(ms.skip(t as int).drop_first() =~= ms.skip(t + 1));
        t = t + 1;
    }
    assert(ms.skip(n as int).len() == 0);
    None
}

/// The cluster a non-empty group forms.
fn cluster_of_group(g: &Group) -> (r: ErrorCluster)
    requires
        g@.members.len() > 0,
    ensures
        r@ == cluster_of(g@),
{
    let first = &g.members[0];
    let n = g.members.len();
    let mut errors: Vec<ClusterEntry> = Vec::new();
    let mut t: usize = 0;
    while t < n
        invariant
            n == g.members@.len(),
            t <= n,
            entry_models(errors@) == models(g.members@).take(t as int).map_values(
                |e: ErrorModel| entry_of(e),
            ),
        decreases n - t,
    {
        let e = &g.members[t];
        let ghost before = errors@;
        let entry = ClusterEntry {
            message: e.message.clone(),
            file: copy_opt_string(&e.file),
            line: e.line,
        };
        errors.push(entry);
        proof {
            assert(models(g.members@)[t as int] == g.members@[t as int]@);
            assert(entry@ == entry_of(e@));
            assert(entry_models(errors@) =~= entry_models(before).push(entry@));
            assert(entry_models(errors@) =~= models(g.members@).take(t + 1).map_values(
                |e: ErrorModel| entry_of(e),
            ));
        }
        t = t + 1;
    }
    assert(models(g.members@).take(n as int) =~= models(g.members@));
    ErrorCluster {
        root_cause: g.key.clone(),
        error_type: first.error_type,
        severity: first.severity,
        file: first_file_of(&g.members),
        count: n,
        errors,
        suggested_fix: suggest_fix(first.error_type, first.message.as_str()),
    }
}

/// One cluster per root cause, in the order the root causes first appear.
pub fn cluster_errors(errors: &[ParsedError]) -> (r: Vec<ErrorCluster>)
    ensures
        cluster_models(r@) == clusters_of(models(errors@)),
{
    let groups = group_errors(errors);
    proof {
        lemma_groups_nonempty(models(errors@));
    }
    let ghost gm = group_models(groups@);
    let n = groups.len();
    let mut clusters: Vec<ErrorCluster> = Vec::new();
    let mut i: usize = 0;
    while i < n
        invariant
            n == groups@.len(),
            gm == group_models(groups@),
            gm == groups_of(models(errors@)),
            forall|k: int| 0 <= k < gm.len() ==> #[trigger] gm[k].members.len() > 0,
            i <= n,
            cluster_models(clusters@) == gm.take(i as int).map_values(|g: GroupModel| cluster_of(g)),
        decreases n - i,
    {
        assert(gm[i as int] == groups@[i as int]@);
        let c = cluster_of_group(&groups[i]);
        let ghost before = clusters@;
        let ghost cv = c@;
        clusters.push(c);
        proof {
            assert(cluster_models(clusters@) =~= cluster_models(before).push(cv));
            assert(cluster_models(clusters@) =~= gm.take(i + 1).map_values(
                |g: GroupModel| cluster_of(g),
            ));
        }
        i = i + 1;
    }
    assert(gm.take(n as int) =~= gm);
    clusters
}

// ---------------------------------------------------------------------------
// Ordering clusters
// ---------------------------------------------------------------------------

fn severity_rank_of(s: Severity) -> (r: u8)
    ensures
        r as nat == severity_rank(s),
{
    match s {
        Severity::Error => 0,
        Severity::Warning => 1,
        Severity::Info => 2,
    }
}

/// Whether `a` comes strictly before `b`.
fn cluster_ranks_before(a: &ErrorCluster, b: &ErrorCluster) -> (r: bool)
    ensures
        r == ranks_before(a@, b@),
{
    let ra = severity_rank_of(a.severity);
    let rb = severity_rank_of(b.severity);
    ra < rb || (a.severity == b.severity && a.count > b.count)
}

proof fn lemma_insert_ranked(s: Seq<ClusterModel>, x: ClusterModel, j: int)
    requires
        0 <= j <= s.len(),
        forall|t: int| 0 <= t < j ==> ranks_before(#[trigger] s[t], x),
        j == s.len() || !ranks_before(s[j], x),
    ensures
        insert_ranked(s, x) == s.insert(j, x),
    decreases s.len(),
{
    if s.len() == 0 {
        assert(s.insert(j, x) =~= seq![x]);
    } else if j == 0 {
        assert(s.insert(0, x) =~= seq![x] + s);
    } else {
        let t = s.drop_first();
        assert forall|u: int| 0 <= u < j - 1 implies ranks_before(#[trigger] t[u], x) by {
            assert(t[u] == s[u + 1]);
        }
        lemma_insert_ranked(t, x, j - 1);
        assert(s.insert(j, x) =~= seq![s[0]] + t.insert(j - 1, x));
    }
}

/// Stably sorts clusters: errors first, then warnings, then the rest;
/// among equals, larger clusters first.
fn sort_clusters(clusters: Vec<ErrorCluster>) -> (r: Vec<ErrorCluster>)
    ensures
        cluster_models(r@) == rank_sorted(cluster_models(clusters@)),
{
    let ghost cm = cluster_models(clusters@);
    let ghost len = clusters@.len();
    let mut input = clusters;
    let mut out: Vec<ErrorCluster> = Vec::new();
    assert(cm.subrange(len as int, len as int) =~= Seq::<ClusterModel>::empty());
    while input.len() > 0
        invariant
            input@.len() <= len,
            cm.len() == len,
            forall|t: int| 0 <= t < input@.len() ==> #[trigger] input@[t]@ == cm[t],
            cluster_models(out@) == rank_sorted(cm.subrange(input@.len() as int, len as int)),
        decreases input@.len(),
    {
        let ghost k = input@.len();
        let x = input.pop().unwrap();
        let ghost om = cluster_models(out@);
        let mut j: usize = 0;
        while j < out.len() && cluster_ranks_before(&out[j], &x)
            invariant
                j <= out@.len(),
                om == cluster_models(out@),
                forall|t: int| 0 <= t < j ==> ranks_before(#[trigger] om[t], x@),
            decreases out@.len() - j,
        {
            j = j + 1;
        }
        proof {
            lemma_insert_ranked(om, x@, j as int);
            assert(cm.subrange(k - 1, len as int).drop_first() =~= cm.subrange(k as int, len as int));
            assert(cm.subrange(k - 1, len as int)[0] == cm[k - 1]);
        }
        let ghost xv = x@;
        out.insert(j, x);
        proof {
            assert(cluster_models(out@) =~= om.insert(j as int, xv));
        }
    }
    assert(cm.subrange(0, len as int) =~= cm);
    out
}

// ---------------------------------------------------------------------------
// Fix order
// ---------------------------------------------------------------------------

fn priority_of(t: ErrorType) -> (r: u8)
    ensures
        r as nat == priority(t),
{
    match t {
        ErrorType::ImportError => 0,
        ErrorType::LinkError => 1,
        ErrorType::CompileError => 2,
        ErrorType::TypeError => 3,
        ErrorType::Panic => 4,
        ErrorType::TestFailure => 5,
        ErrorType::Warning => 6,
        ErrorType::Unknown => 7,
    }
}

impl ErrorCluster {
    /// The short label of the cluster's kind.
    pub fn error_type_label(&self) -> (r: &'static str)
        ensures
            r@ == type_label(self.error_type),
    {
        match self.error_type {
            ErrorType::ImportError => "import",
            ErrorType::TypeError => "type",
            ErrorType::TestFailure => "test",
            ErrorType::LinkError => "link",
            ErrorType::CompileError => "compile",
            ErrorType::Warning => "warning",
            ErrorType::Panic => "panic",
            ErrorType::Unknown => "unknown",
        }
    }
}

/// The text of step `n` of the fix order for cluster `c`.
fn fix_step_text(n: usize, c: &ErrorCluster) -> (r: String)
    ensures
        r@ == fix_step(n as nat, c@),
{
    let mut s = String::new();
    append_decimal(&mut s, n);
    s.append(". [");
    s.append(c.error_type_label());
    s.append("] ");
    s.append(c.root_cause.as_str());
    s.append(" \u{2014} ");
    match &c.suggested_fix {
        Some(f) => s.append(f.as_str()),
        None => s.append("Investigate manually"),
    }
    assert(s@ =~= fix_step(n as nat, c@));
    s
}

proof fn lemma_with_priority_take(s: Seq<ClusterModel>, p: nat, i: int)
    requires
        0 <= i < s.len(),
    ensures
        with_priority(s.take(i + 1), p) == if priority(s[i].error_type) == p {
            with_priority(s.take(i), p).push(s[i])
        } else {
            with_priority(s.take(i), p)
        },
{
    assert(s.take(i + 1).drop_last() =~= s.take(i));
}

proof fn lemma_with_priority_take_len(s: Seq<ClusterModel>, p: nat, i: int)
    requires
        0 <= i <= s.len(),
    ensures
        with_priority(s.take(i), p).len() <= with_priority(s, p).len(),
    decreases s.len() - i,
{
    if i < s.len() {
        lemma_with_priority_take(s, p, i);
        lemma_with_priority_take_len(s, p, i + 1);
    } else {
        assert(s.take(i) =~= s);
    }
}

proof fn lemma_by_priority_push_len(s: Seq<ClusterModel>, x: ClusterModel, p: nat)
    ensures
        by_priority_from(s.push(x), p).len() == by_priority_from(s, p).len() + if p <= priority(
            x.error_type,
        ) {
            1int
        } else {
            0int
        },
    decreases 8 - p,
{
    assert(s.push(x).drop_last() =~= s);
    if p < 8 {
        lemma_by_priority_push_len(s, x, p + 1);
    } else {
        assert(priority(x.error_type) < 8);
    }
}

proof fn lemma_by_priority_empty(s: Seq<ClusterModel>, p: nat)
    requires
        s.len() == 0,
    ensures
        by_priority_from(s, p).len() == 0,
    decreases 8 - p,
{
    if p < 8 {
        lemma_by_priority_empty(s, p + 1);
    }
}

/// The fix order has exactly one step per cluster.
pub proof fn lemma_by_priority_len(s: Seq<ClusterModel>)
    ensures
        by_priority(s).len() == s.len(),
    decreases s.len(),
{
    if s.len() == 0 {
        lemma_by_priority_empty(s, 0);
    } else {
        lemma_by_priority_len(s.drop_last());
        lemma_by_priority_push_len(s.drop_last(), s.last(), 0);
        assert(s.drop_last().push(s.last()) =~= s);
    }
}

/// One numbered step per cluster, imports first, then link, compile, type,
/// panic, test, warning and unknown; clusters of one kind keep their order.
pub fn suggest_fix_order(clusters: &[ErrorCluster]) -> (r: Vec<String>)
    ensures
        string_views(r@) == fix_steps(by_priority(cluster_models(clusters@))),
{
    let ghost cm = cluster_models(clusters@);
    let n = clusters.len();
    proof {
        lemma_by_priority_len(cm);
    }
    let mut out: Vec<String> = Vec::new();
    let ghost done: Seq<ClusterModel> = Seq::empty();
    let mut p: u8 = 0;
    while p < 8
        invariant
            n == clusters@.len(),
            cm == cluster_models(clusters@),
            by_priority(cm).len() == n,
            p <= 8,
            by_priority(cm) == done + by_priority_from(cm, p as nat),
            string_views(out@) == fix_steps(done),
        decreases 8 - p,
    {
        let ghost start = done;
        let mut i: usize = 0;
        assert(cm.take(0) =~= Seq::<ClusterModel>::empty());
        while i < n
            invariant
                n == clusters@.len(),
                cm == cluster_models(clusters@),
                by_priority(cm).len() == n,
                p < 8,
                by_priority(cm) == start + by_priority_from(cm, p as nat),
                i <= n,
                done == start + with_priority(cm.take(i as int), p as nat),
                string_views(out@) == fix_steps(done),
            decreases n - i,
        {
            proof {
                lemma_with_priority_take(cm, p as nat, i as int);
            }
            if priority_of(clusters[i].error_type) == p {
                proof {
                    lemma_with_priority_take_len(cm, p as nat, i + 1);
                    assert(by_priority_from(cm, p as nat) == with_priority(cm, p as nat)
                        + by_priority_from(cm, (p + 1) as nat));
                    assert(cm[i as int] == clusters@[i as int]@);
                    assert(out@.len() == string_views(out@).len());
                    assert(out@.len() == done.len());
                    assert(done.len() + 1 <= n);
                }
                let step = fix_step_text(out.len() + 1, &clusters[i]);
                let ghost before = out@;
                let ghost sv = step@;
                out.push(step);
                proof {
                    let nd = done.push(cm[i as int]);
                    assert(string_views(out@) =~= string_views(before).push(sv));
                    assert(sv == fix_step((done.len() + 1) as nat, cm[i as int]));
                    assert(string_views(out@) =~= fix_steps(nd));
                    assert(start + with_priority(cm.take(i + 1), p as nat) =~= nd);
                    done = nd;
                }
            }
            i = i + 1;
        }
        proof {
            assert(cm.take(n as int) =~= cm);
            assert(by_priority_from(cm, p as nat) == with_priority(cm, p as nat)
                + by_priority_from(cm, (p + 1) as nat));
            assert(start + by_priority_from(cm, p as nat) =~= done + by_priority_from(
                cm,
                (p + 1) as nat,
            ));
        }
        p = p + 1;
    }
    assert(by_priority_from(cm, 8) =~= Seq::<ClusterModel>::empty());
    assert(done + by_priority_from(cm, 8) =~= done);
    out
}

// ---------------------------------------------------------------------------
// Triage
// ---------------------------------------------------------------------------

/// How many entries have severity `sev`.
fn count_with_severity(errors: &Vec<ParsedError>, sev: Severity) -> (r: usize)
    ensures
        r == count_severity(models(errors@), sev),
{
    let ghost ms = models(errors@);
    let n = errors.len();
    let mut count: usize = 0;
    let mut i: usize = 0;
    assert(ms.take(0) =~= Seq::<ErrorModel>::empty());
    while i < n
        invariant
            n == errors@.len(),
            ms == models(errors@),
            i <= n,
            count <= i,
            count == count_severity(ms.take(i as int), sev),
        decreases n - i,
    {
        proof {
            assert(ms.take(i + 1).drop_last() =~= ms.take(i as int));
            assert(ms[i as int] == errors@[i as int]@);
        }
        if errors[i].severity == sev {
            count = count + 1;
        }
        i = i + 1;
    }
    assert(ms.take(n as int) =~= ms);
    count
}

/// Cluster errors by root cause and suggest fix order.
pub fn triage(errors: &[ParsedError]) -> (r: TriageResult)
    ensures
        r@ == triage_of(models(errors@)),
{
    let merged = merge_locations(errors);
    let clusters = sort_clusters(cluster_errors(merged.as_slice()));
    let fix_order = suggest_fix_order(clusters.as_slice());
    let total_errors = count_with_severity(&merged, Severity::Error);
    let total_warnings = count_with_severity(&merged, Severity::Warning);
    TriageResult { clusters, fix_order, total_errors, total_warnings }
}

// ---------------------------------------------------------------------------
// Laws
// ---------------------------------------------------------------------------

proof fn lemma_merged_from_no_bare(s: Seq<ErrorModel>, i: int)
    requires
        0 <= i,
    ensures
        forall|k: int| 0 <= k < merged_from(s, i).len() ==> !is_bare_marker(#[trigger] merged_from(s, i)[k]),
    decreases s.len() - i,
{
    if i < s.len() {
        if s[i].severity != Severity::Info && i + 1 < s.len() && is_location_marker(s[i + 1]) {
            lemma_merged_from_no_bare(s, i + 2);
            assert forall|k: int| 0 <= k < merged_from(s, i).len() implies !is_bare_marker(#[trigger] merged_from(s, i)[k]) by {
                if k > 0 {
                    assert(merged_from(s, i)[k] == merged_from(s, i + 2)[k - 1]);
                }
            }
        } else {
            lemma_merged_from_no_bare(s, i + 1);
            if !is_bare_marker(s[i]) {
                assert forall|k: int| 0 <= k < merged_from(s, i).len() implies !is_bare_marker(#[trigger] merged_from(s, i)[k]) by {
                    if k > 0 {
                        assert(merged_from(s, i)[k] == merged_from(s, i + 1)[k - 1]);
                    }
                }
            }
        }
    }
}

/// After merging, no message-less informational entry is left: each
/// location marker has either been folded into the error before it or
/// dropped.
pub proof fn lemma_merged_has_no_markers(s: Seq<ErrorModel>)
    ensures
        forall|k: int| 0 <= k < merged(s).len() ==> !is_bare_marker(#[trigger] merged(s)[k]),
{
    lemma_merged_from_no_bare(s, 0);
}

proof fn lemma_merged_from_identity(t: Seq<ErrorModel>, i: int)
    requires
        0 <= i <= t.len(),
        forall|k: int| 0 <= k < t.len() ==> !is_bare_marker(#[trigger] t[k]),
    ensures
        merged_from(t, i) == t.skip(i),
    decreases t.len() - i,
{
    if i < t.len() {
        lemma_merged_from_identity(t, i + 1);
        if i + 1 < t.len() {
            assert(!is_bare_marker(t[i + 1]));
        }
        assert(t.skip(i) =~= seq![t[i]] + t.skip(i + 1));
    } else {
        assert(t.skip(i) =~= Seq::<ErrorModel>::empty());
    }
}

/// Merging twice gives what merging once gives.
pub proof fn lemma_merge_idempotent(s: Seq<ErrorModel>)
    ensures
        merged(merged(s)) == merged(s),
{
    lemma_merged_has_no_markers(s);
    lemma_merged_from_identity(merged(s), 0);
    assert(merged(s).skip(0) =~= merged(s));
}

proof fn lemma_merged_len(s: Seq<ErrorModel>, i: int)
    requires
        0 <= i <= s.len(),
    ensures
        merged_from(s, i).len() <= s.len() - i,
    decreases s.len() - i,
{
    if i < s.len() {
        if s[i].severity != Severity::Info && i + 1 < s.len() && is_location_marker(s[i + 1]) {
            lemma_merged_len(s, i + 2);
        } else {
            lemma_merged_len(s, i + 1);
        }
    }
}

/// The number of entries in all groups.
pub open spec fn member_total(gs: Seq<GroupModel>) -> nat
    decreases gs.len(),
{
    if gs.len() == 0 {
        0
    } else {
        member_total(gs.drop_last()) + gs.last().members.len()
    }
}

/// The number of entries in all clusters.
pub open spec fn count_total(cs: Seq<ClusterModel>) -> nat
    decreases cs.len(),
{
    if cs.len() == 0 {
        0
    } else {
        count_total(cs.drop_last()) + cs.last().count
    }
}

proof fn lemma_group_position_absent(gs: Seq<GroupModel>, k: Seq<char>, i: int)
    requires
        0 <= i,
        group_position(gs, k, i) == -1,
    ensures
        forall|t: int| i <= t < gs.len() ==> #[trigger] gs[t].key != k,
    decreases gs.len() - i,
{
    if i < gs.len() {
        lemma_group_position_absent(gs, k, i + 1);
    }
}

proof fn lemma_member_total_update(gs: Seq<GroupModel>, j: int, g: GroupModel)
    requires
        0 <= j < gs.len(),
    ensures
        member_total(gs.update(j, g)) + gs[j].members.len() == member_total(gs) + g.members.len(),
    decreases gs.len(),
{
    let u = gs.update(j, g);
    if j == gs.len() - 1 {
        assert(u.drop_last() =~= gs.drop_last());
    } else {
        lemma_member_total_update(gs.drop_last(), j, g);
        assert(u.drop_last() =~= gs.drop_last().update(j, g));
    }
}

/// What grouping keeps: every group is non-empty, its entries all have its
/// key, no two groups share a key, and every entry is in some group once.
pub proof fn lemma_groups_of(s: Seq<ErrorModel>)
    ensures
        forall|i: int| 0 <= i < groups_of(s).len() ==> #[trigger] groups_of(s)[i].members.len() > 0,
        forall|i: int, m: int|
            0 <= i < groups_of(s).len() && 0 <= m < groups_of(s)[i].members.len() ==> key_of(
                #[trigger] groups_of(s)[i].members[m],
            ) == groups_of(s)[i].key,
        forall|i: int, j: int|
            0 <= i < groups_of(s).len() && 0 <= j < groups_of(s).len() && i != j ==> #[trigger] groups_of(s)[i].key
                != #[trigger] groups_of(s)[j].key,
        member_total(groups_of(s)) == s.len(),
    decreases s.len(),
{
    lemma_groups_nonempty(s);
    if s.len() > 0 {
        let gs = groups_of(s.drop_last());
        let e = s.last();
        let k = key_of(e);
        lemma_groups_of(s.drop_last());
        lemma_group_position(gs, k, 0);
        let j = group_position(gs, k, 0);
        let r = groups_of(s);
        if j >= 0 {
            let g = GroupModel { key: k, members: gs[j].members.push(e) };
            assert(r == gs.update(j, g));
            lemma_member_total_update(gs, j, g);
            assert forall|i: int, m: int|
                0 <= i < r.len() && 0 <= m < r[i].members.len() implies key_of(
                #[trigger] r[i].members[m],
            ) == r[i].key by {
                if i == j && m == r[i].members.len() - 1 {
                } else if i == j {
                    assert(r[i].members[m] == gs[j].members[m]);
                }
            }
        } else {
            lemma_group_position_absent(gs, k, 0);
            let g = GroupModel { key: k, members: seq![e] };
            assert(r == gs.push(g));
            assert(r.drop_last() =~= gs);
        }
    }
}

proof fn lemma_count_total_clusters(gs: Seq<GroupModel>)
    ensures
        count_total(gs.map_values(|g: GroupModel| cluster_of(g))) == member_total(gs),
    decreases gs.len(),
{
    if gs.len() > 0 {
        lemma_count_total_clusters(gs.drop_last());
        assert(gs.map_values(|g: GroupModel| cluster_of(g)).drop_last() =~= gs.drop_last().map_values(
            |g: GroupModel| cluster_of(g),
        ));
    }
}

/// What clustering keeps: every cluster counts its entries, at least one;
/// no two clusters share a root cause; the counts add up to the number of
/// entries.
pub proof fn lemma_clusters_of(s: Seq<ErrorModel>)
    ensures
        forall|i: int|
            0 <= i < clusters_of(s).len() ==> #[trigger] clusters_of(s)[i].count == clusters_of(
                s,
            )[i].errors.len() && clusters_of(s)[i].count > 0,
        forall|i: int, j: int|
            0 <= i < clusters_of(s).len() && 0 <= j < clusters_of(s).len() && i != j ==> #[trigger] clusters_of(s)[i].root_cause
                != #[trigger] clusters_of(s)[j].root_cause,
        count_total(clusters_of(s)) == s.len(),
{
    lemma_groups_of(s);
    lemma_count_total_clusters(groups_of(s));
    let gs = groups_of(s);
    let cs = clusters_of(s);
    assert forall|i: int, j: int|
        0 <= i < cs.len() && 0 <= j < cs.len() && i != j implies #[trigger] cs[i].root_cause
        != #[trigger] cs[j].root_cause by {
        assert(cs[i].root_cause == gs[i].key);
        assert(cs[j].root_cause == gs[j].key);
    }
}

/// Clusters in rank order: none ranks strictly before one in front of it.
pub open spec fn in_rank_order(s: Seq<ClusterModel>) -> bool {
    forall|i: int, j: int| 0 <= i < j < s.len() ==> !ranks_before(#[trigger] s[j], #[trigger] s[i])
}

/// No two clusters share a root cause.
pub open spec fn distinct_root_causes(s: Seq<ClusterModel>) -> bool {
    forall|i: int, j: int|
        0 <= i < s.len() && 0 <= j < s.len() && i != j ==> #[trigger] s[i].root_cause
            != #[trigger] s[j].root_cause
}

/// Where `insert_ranked` puts `x` into `s`.
pub open spec fn rank_position(s: Seq<ClusterModel>, x: ClusterModel) -> int
    decreases s.len(),
{
    if s.len() == 0 || !ranks_before(s[0], x) {
        0
    } else {
        1 + rank_position(s.drop_first(), x)
    }
}

proof fn lemma_rank_position(s: Seq<ClusterModel>, x: ClusterModel)
    ensures
        0 <= rank_position(s, x) <= s.len(),
        forall|t: int| 0 <= t < rank_position(s, x) ==> ranks_before(#[trigger] s[t], x),
        rank_position(s, x) == s.len() || !ranks_before(s[rank_position(s, x)], x),
        insert_ranked(s, x) == s.insert(rank_position(s, x), x),
    decreases s.len(),
{
    if s.len() > 0 && ranks_before(s[0], x) {
        let t = s.drop_first();
        lemma_rank_position(t, x);
        assert forall|u: int| 0 <= u < rank_position(s, x) implies ranks_before(#[trigger] s[u], x) by {
            if u > 0 {
                assert(s[u] == t[u - 1]);
            }
        }
    }
    lemma_insert_ranked(s, x, rank_position(s, x));
}

proof fn lemma_count_total_insert(s: Seq<ClusterModel>, p: int, x: ClusterModel)
    requires
        0 <= p <= s.len(),
    ensures
        count_total(s.insert(p, x)) == count_total(s) + x.count,
    decreases s.len(),
{
    if p == s.len() {
        assert(s.insert(p, x).drop_last() =~= s);
    } else {
        lemma_count_total_insert(s.drop_last(), p, x);
        assert(s.insert(p, x).drop_last() =~= s.drop_last().insert(p, x));
    }
}

proof fn lemma_insert_in_order(r: Seq<ClusterModel>, x: ClusterModel)
    requires
        in_rank_order(r),
    ensures
        in_rank_order(r.insert(rank_position(r, x), x)),
{
    lemma_rank_position(r, x);
    let p = rank_position(r, x);
    let out = r.insert(p, x);
    assert forall|i: int, j: int| 0 <= i < j < out.len() implies !ranks_before(
        #[trigger] out[j],
        #[trigger] out[i],
    ) by {
        if i < p && j < p {
            assert(out[i] == r[i] && out[j] == r[j]);
        } else if i < p && j == p {
            assert(out[i] == r[i]);
        } else if i < p {
            assert(out[i] == r[i] && out[j] == r[j - 1]);
        } else if i == p {
            assert(out[j] == r[j - 1]);
            assert(!ranks_before(r[j - 1], r[p]));
        } else {
            assert(out[i] == r[i - 1] && out[j] == r[j - 1]);
        }
    }
}

proof fn lemma_insert_members(r: Seq<ClusterModel>, p: int, x: ClusterModel)
    requires
        0 <= p <= r.len(),
    ensures
        forall|i: int| 0 <= i < r.insert(p, x).len() ==> #[trigger] r.insert(p, x)[i] == x || r.contains(
            r.insert(p, x)[i],
        ),
        forall|k: int| 0 <= k < r.len() ==> r.insert(p, x).contains(#[trigger] r[k]),
        r.insert(p, x).contains(x),
{
    let out = r.insert(p, x);
    assert forall|i: int| 0 <= i < out.len() implies #[trigger] out[i] == x || r.contains(out[i]) by {
        if i < p {
            assert(out[i] == r[i]);
        } else if i > p {
            assert(out[i] == r[i - 1]);
        }
    }
    assert forall|k: int| 0 <= k < r.len() implies out.contains(#[trigger] r[k]) by {
        if k < p {
            assert(out[k] == r[k]);
        } else {
            assert(out[k + 1] == r[k]);
        }
    }
    assert(out[p] == x);
}

proof fn lemma_insert_distinct(r: Seq<ClusterModel>, p: int, x: ClusterModel)
    requires
        0 <= p <= r.len(),
        distinct_root_causes(r),
        forall|i: int| 0 <= i < r.len() ==> #[trigger] r[i].root_cause != x.root_cause,
    ensures
        distinct_root_causes(r.insert(p, x)),
{
    let out = r.insert(p, x);
    assert forall|i: int, j: int|
        0 <= i < out.len() && 0 <= j < out.len() && i != j implies #[trigger] out[i].root_cause
        != #[trigger] out[j].root_cause by {
        let ri = if i < p {
            i
        } else {
            i - 1
        };
        let rj = if j < p {
            j
        } else {
            j - 1
        };
        if i != p {
            assert(out[i] == r[ri]);
        }
        if j != p {
            assert(out[j] == r[rj]);
        }
    }
}

/// What ordering keeps: the clusters come out in rank order, as many as
/// went in, each one that went in and no other, with the same total count.
#[verifier::rlimit(30)]
pub proof fn lemma_rank_sorted(s: Seq<ClusterModel>)
    ensures
        in_rank_order(rank_sorted(s)),
        rank_sorted(s).len() == s.len(),
        forall|i: int| 0 <= i < rank_sorted(s).len() ==> s.contains(#[trigger] rank_sorted(s)[i]),
        forall|i: int| 0 <= i < s.len() ==> rank_sorted(s).contains(#[trigger] s[i]),
        count_total(rank_sorted(s)) == count_total(s),
        distinct_root_causes(s) ==> distinct_root_causes(rank_sorted(s)),
    decreases s.len(),
{
    if s.len() > 0 {
        let t = s.drop_first();
        let x = s[0];
        let r = rank_sorted(t);
        lemma_rank_sorted(t);
        lemma_rank_position(r, x);
        let p = rank_position(r, x);
        let out = r.insert(p, x);
        assert(rank_sorted(s) == out);
        lemma_insert_in_order(r, x);
        lemma_insert_members(r, p, x);
        assert forall|i: int| 0 <= i < out.len() implies s.contains(#[trigger] out[i]) by {
            if out[i] == x {
                assert(s[0] == x);
            } else {
                let k = choose|k: int| 0 <= k < r.len() && r[k] == out[i];
                assert(t.contains(r[k]));
                let m = choose|m: int| 0 <= m < t.len() && t[m] == r[k];
                assert(s[m + 1] == t[m]);
            }
        }
        assert forall|i: int| 0 <= i < s.len() implies out.contains(#[trigger] s[i]) by {
            if i > 0 {
                assert(s[i] == t[i - 1]);
                assert(r.contains(t[i - 1]));
                let k = choose|k: int| 0 <= k < r.len() && r[k] == t[i - 1];
                assert(out.contains(r[k]));
            }
        }
        lemma_count_total_insert(r, p, x);
        assert(s =~= seq![x] + t);
        lemma_count_total_prepend(x, t);
        if distinct_root_causes(s) {
            assert forall|i: int, j: int|
                0 <= i < t.len() && 0 <= j < t.len() && i != j implies #[trigger] t[i].root_cause
                != #[trigger] t[j].root_cause by {
                assert(t[i] == s[i + 1] && t[j] == s[j + 1]);
            }
            assert forall|i: int| 0 <= i < r.len() implies #[trigger] r[i].root_cause
                != x.root_cause by {
                assert(t.contains(r[i]));
                let m = choose|m: int| 0 <= m < t.len() && t[m] == r[i];
                assert(s[m + 1] == t[m]);
            }
            lemma_insert_distinct(r, p, x);
        }
    }
}

proof fn lemma_count_total_prepend(x: ClusterModel, t: Seq<ClusterModel>)
    ensures
        count_total(seq![x] + t) == x.count + count_total(t),
    decreases t.len(),
{
    let st = seq![x] + t;
    if t.len() > 0 {
        lemma_count_total_prepend(x, t.drop_last());
        assert(st.drop_last() =~= seq![x] + t.drop_last());
        assert(st.last() == t.last());
    } else {
        assert(st =~= seq![x]);
        assert(st.drop_last() =~= Seq::<ClusterModel>::empty());
        assert(count_total(st) == count_total(st.drop_last()) + st.last().count);
    }
}

proof fn lemma_with_priority(s: Seq<ClusterModel>, p: nat)
    ensures
        forall|i: int| 0 <= i < with_priority(s, p).len() ==> priority(#[trigger] with_priority(s, p)[i].error_type) == p,
        forall|i: int| 0 <= i < with_priority(s, p).len() ==> s.contains(#[trigger] with_priority(s, p)[i]),
    decreases s.len(),
{
    if s.len() > 0 {
        lemma_with_priority(s.drop_last(), p);
        let w = with_priority(s, p);
        let wd = with_priority(s.drop_last(), p);
        assert forall|i: int| 0 <= i < w.len() implies s.contains(#[trigger] w[i]) by {
            if i < wd.len() {
                assert(w[i] == wd[i]);
                let k = choose|k: int| 0 <= k < s.drop_last().len() && s.drop_last()[k] == wd[i];
                assert(s[k] == s.drop_last()[k]);
            } else {
                assert(w[i] == s.last());
                assert(s[s.len() - 1] == s.last());
            }
        }
    }
}

proof fn lemma_by_priority_from(s: Seq<ClusterModel>, p: nat)
    ensures
        forall|i: int| 0 <= i < by_priority_from(s, p).len() ==> p <= priority(#[trigger] by_priority_from(s, p)[i].error_type),
        forall|i: int, j: int|
            0 <= i < j < by_priority_from(s, p).len() ==> priority(#[trigger] by_priority_from(s, p)[i].error_type)
                <= priority(#[trigger] by_priority_from(s, p)[j].error_type),
        forall|i: int| 0 <= i < by_priority_from(s, p).len() ==> s.contains(#[trigger] by_priority_from(s, p)[i]),
    decreases 8 - p,
{
    if p < 8 {
        lemma_by_priority_from(s, p + 1);
        lemma_with_priority(s, p);
        let w = with_priority(s, p);
        let rest = by_priority_from(s, p + 1);
        let b = by_priority_from(s, p);
        assert(b == w + rest);
        assert forall|i: int| 0 <= i < b.len() implies p <= priority(#[trigger] b[i].error_type) && s.contains(b[i]) by {
            if i < w.len() {
                assert(b[i] == w[i]);
            } else {
                assert(b[i] == rest[i - w.len()]);
            }
        }
        assert forall|i: int, j: int| 0 <= i < j < b.len() implies priority(#[trigger] b[i].error_type)
            <= priority(#[trigger] b[j].error_type) by {
            if j < w.len() {
                assert(b[i] == w[i] && b[j] == w[j]);
            } else if i < w.len() {
                assert(b[i] == w[i] && b[j] == rest[j - w.len()]);
            } else {
                assert(b[i] == rest[i - w.len()] && b[j] == rest[j - w.len()]);
            }
        }
    }
}

/// The fix order names every cluster once, in order of priority: imports
/// before link errors before compile errors, then type errors, panics, test
/// failures, warnings and unknown errors.
pub proof fn lemma_by_priority(s: Seq<ClusterModel>)
    ensures
        by_priority(s).len() == s.len(),
        forall|i: int, j: int|
            0 <= i < j < by_priority(s).len() ==> priority(#[trigger] by_priority(s)[i].error_type)
                <= priority(#[trigger] by_priority(s)[j].error_type),
        forall|i: int| 0 <= i < by_priority(s).len() ==> s.contains(#[trigger] by_priority(s)[i]),
{
    lemma_by_priority_len(s);
    lemma_by_priority_from(s, 0);
}

proof fn lemma_count_severity_le(s: Seq<ErrorModel>)
    ensures
        count_severity(s, Severity::Error) + count_severity(s, Severity::Warning) <= s.len(),
    decreases s.len(),
{
    if s.len() > 0 {
        lemma_count_severity_le(s.drop_last());
    }
}

/// What a triage promises: the clusters are in rank order (errors first,
/// then by size), no two share a root cause, each counts its entries, and
/// together they hold every entry that survives merging exactly once; the
/// fix order has one step per cluster, numbered from 1; errors and
/// warnings are counted among the merged entries.
pub proof fn lemma_triage(errors: Seq<ErrorModel>)
    ensures
        in_rank_order(triage_of(errors).clusters),
        distinct_root_causes(triage_of(errors).clusters),
        forall|i: int|
            0 <= i < triage_of(errors).clusters.len() ==> #[trigger] triage_of(errors).clusters[i].count
                == triage_of(errors).clusters[i].errors.len() && triage_of(errors).clusters[i].count
                > 0,
        count_total(triage_of(errors).clusters) == merged(errors).len(),
        triage_of(errors).fix_order.len() == triage_of(errors).clusters.len(),
        forall|k: int|
            0 <= k < triage_of(errors).fix_order.len() ==> #[trigger] triage_of(errors).fix_order[k]
                == fix_step((k + 1) as nat, by_priority(triage_of(errors).clusters)[k]),
        triage_of(errors).total_errors + triage_of(errors).total_warnings <= merged(errors).len(),
{
    let m = merged(errors);
    let cs = clusters_of(m);
    let t = triage_of(errors);
    lemma_clusters_of(m);
    lemma_rank_sorted(cs);
    lemma_by_priority_len(t.clusters);
    lemma_count_severity_le(m);
    assert forall|i: int| 0 <= i < t.clusters.len() implies #[trigger] t.clusters[i].count
        == t.clusters[i].errors.len() && t.clusters[i].count > 0 by {
        assert(cs.contains(t.clusters[i]));
        let k = choose|k: int| 0 <= k < cs.len() && cs[k] == t.clusters[i];
        assert(cs[k].count == cs[k].errors.len());
    }
}

/// Merging never adds entries.
pub proof fn lemma_merged_not_longer(s: Seq<ErrorModel>)
    ensures
        merged(s).len() <= s.len(),
{
    lemma_merged_len(s, 0);
}

/// A normalized message is a prefix of the message, holds no line feed
/// and is at most 60 characters long; a short one-line message is kept
/// whole.
pub proof fn lemma_normalized(m: Seq<char>)
    ensures
        normalized(m).len() <= 60,
        normalized(m) == m.take(normalized(m).len() as int),
        forall|k: int| 0 <= k < normalized(m).len() ==> #[trigger] normalized(m)[k] != '\n',
        (m.len() <= 60 && forall|k: int| 0 <= k < m.len() ==> #[trigger] m[k] != '\n')
            ==> normalized(m) == m,
{
    lemma_newline_at_or_after(m, 0);
    let j = newline_at_or_after(m, 0);
    let first = m.take(j);
    if first.len() > 60 {
        assert(first.take(60) =~= m.take(60));
    }
    if m.len() <= 60 && forall|k: int| 0 <= k < m.len() ==> #[trigger] m[k] != '\n' {
        if j < m.len() {
            assert(m[j] == '\n');
        }
        assert(first =~= m);
    }
    assert(normalized(m) =~= m.take(normalized(m).len() as int));
}

/// Compile errors that name a file cluster by that file: the group holding
/// such an error has root cause `compile: ` followed by the file, and two
/// such errors naming the same file are in the same group.
pub proof fn lemma_compile_errors_cluster_by_file(s: Seq<ErrorModel>)
    ensures
        forall|i: int, m: int|
            0 <= i < groups_of(s).len() && 0 <= m < groups_of(s)[i].members.len()
                && (#[trigger] groups_of(s)[i].members[m]).error_type == ErrorType::CompileError
                && groups_of(s)[i].members[m].file is Some ==> groups_of(s)[i].key == "compile: "@
                + groups_of(s)[i].members[m].file.unwrap() && clusters_of(s)[i].root_cause
                == "compile: "@ + groups_of(s)[i].members[m].file.unwrap(),
        forall|i: int, m1: int, j: int, m2: int|
            0 <= i < groups_of(s).len() && 0 <= j < groups_of(s).len() && 0 <= m1
                < groups_of(s)[i].members.len() && 0 <= m2 < groups_of(s)[j].members.len()
                && (#[trigger] groups_of(s)[i].members[m1]).error_type == ErrorType::CompileError
                && (#[trigger] groups_of(s)[j].members[m2]).error_type == ErrorType::CompileError
                && groups_of(s)[i].members[m1].file is Some && groups_of(s)[i].members[m1].file
                == groups_of(s)[j].members[m2].file ==> i == j,
{
    lemma_groups_of(s);
}

/// The fix order runs imports (0), link errors (1), compile errors (2), type
/// errors (3), panics (4), test failures (5), warnings (6), unknown errors
/// (7): a step never comes after a step of a later kind; in particular every
/// panic comes before every test failure.
pub proof fn lemma_fix_order_kinds(s: Seq<ClusterModel>)
    ensures
        forall|i: int, j: int|
            0 <= i < j < by_priority(s).len() ==> (match (#[trigger] by_priority(s)[i]).error_type {
                ErrorType::ImportError => 0int,
                ErrorType::LinkError => 1int,
                ErrorType::CompileError => 2int,
                ErrorType::TypeError => 3int,
                ErrorType::Panic => 4int,
                ErrorType::TestFailure => 5int,
                ErrorType::Warning => 6int,
                ErrorType::Unknown => 7int,
            }) <= (match (#[trigger] by_priority(s)[j]).error_type {
                ErrorType::ImportError => 0int,
                ErrorType::LinkError => 1int,
                ErrorType::CompileError => 2int,
                ErrorType::TypeError => 3int,
                ErrorType::Panic => 4int,
                ErrorType::TestFailure => 5int,
                ErrorType::Warning => 6int,
                ErrorType::Unknown => 7int,
            }),
        forall|i: int, j: int|
            0 <= i < by_priority(s).len() && 0 <= j < by_priority(s).len() && (#[trigger] by_priority(
                s,
            )[i]).error_type == ErrorType::Panic && (#[trigger] by_priority(s)[j]).error_type
                == ErrorType::TestFailure ==> i < j,
        forall|i: int, j: int|
            0 <= i < by_priority(s).len() && 0 <= j < by_priority(s).len() && (#[trigger] by_priority(
                s,
            )[i]).error_type == ErrorType::ImportError && (#[trigger] by_priority(s)[j]).error_type
                != ErrorType::ImportError ==> i < j,
{
    lemma_by_priority(s);
    let bp = by_priority(s);
    assert forall|i: int, j: int|
        0 <= i < bp.len() && 0 <= j < bp.len() && (#[trigger] bp[i]).error_type == ErrorType::Panic
            && (#[trigger] bp[j]).error_type == ErrorType::TestFailure implies i < j by {
        if j <= i {
            if j < i {
                assert(priority(bp[j].error_type) <= priority(bp[i].error_type));
            }
        }
    }
    assert forall|i: int, j: int|
        0 <= i < bp.len() && 0 <= j < bp.len() && (#[trigger] bp[i]).error_type
            == ErrorType::ImportError && (#[trigger] bp[j]).error_type != ErrorType::ImportError implies i < j by {
        if j < i {
            assert(priority(bp[j].error_type) <= priority(bp[i].error_type));
        }
    }
}

/// Every cluster of a triage carries the fix for its kind: import errors
/// one of three hints (by message), type errors, test failures, link errors
/// and panics their fixed hint; compile errors, warnings and unknown errors
/// none.
pub proof fn lemma_cluster_fixes(errors: Seq<ErrorModel>)
    ensures
        forall|i: int|
            0 <= i < triage_of(errors).clusters.len() ==> {
                let c = #[trigger] triage_of(errors).clusters[i];
                &&& (c.suggested_fix is None <==> (c.error_type == ErrorType::CompileError
                    || c.error_type == ErrorType::Warning || c.error_type == ErrorType::Unknown))
                &&& c.error_type == ErrorType::TestFailure ==> c.suggested_fix == Some(
                    "Run the failing test in isolation to reproduce, check assertions"@,
                )
                &&& c.error_type == ErrorType::TypeError ==> c.suggested_fix == Some(
                    "Check type annotations and function signatures at the reported location"@,
                )
                &&& c.error_type == ErrorType::LinkError ==> c.suggested_fix == Some(
                    "Check for missing native libraries or incompatible dependency versions"@,
                )
                &&& c.error_type == ErrorType::Panic ==> c.suggested_fix == Some(
                    "Check the panic message for assertion failures or unwrap calls on None/Err"@,
                )
                &&& c.error_type == ErrorType::ImportError ==> (c.suggested_fix == Some(
                    "Check module path, ensure the target module exists and is declared with `mod`"@,
                ) || c.suggested_fix == Some(
                    "Install the missing package or check your virtual environment"@,
                ) || c.suggested_fix == Some(
                    "Verify import path and ensure dependency is listed in manifest"@,
                ))
            },
{
    let m = merged(errors);
    let cs = clusters_of(m);
    let t = triage_of(errors);
    lemma_rank_sorted(cs);
    assert forall|i: int| 0 <= i < t.clusters.len() implies {
        let c = #[trigger] t.clusters[i];
        &&& (c.suggested_fix is None <==> (c.error_type == ErrorType::CompileError || c.error_type
            == ErrorType::Warning || c.error_type == ErrorType::Unknown))
        &&& c.error_type == ErrorType::TestFailure ==> c.suggested_fix == Some(
            "Run the failing test in isolation to reproduce, check assertions"@,
        )
        &&& c.error_type == ErrorType::TypeError ==> c.suggested_fix == Some(
            "Check type annotations and function signatures at the reported location"@,
        )
        &&& c.error_type == ErrorType::LinkError ==> c.suggested_fix == Some(
            "Check for missing native libraries or incompatible dependency versions"@,
        )
        &&& c.error_type == ErrorType::Panic ==> c.suggested_fix == Some(
            "Check the panic message for assertion failures or unwrap calls on None/Err"@,
        )
        &&& c.error_type == ErrorType::ImportError ==> (c.suggested_fix == Some(
            "Check module path, ensure the target module exists and is declared with `mod`"@,
        ) || c.suggested_fix == Some(
            "Install the missing package or check your virtual environment"@,
        ) || c.suggested_fix == Some(
            "Verify import path and ensure dependency is listed in manifest"@,
        ))
    } by {
        assert(cs.contains(t.clusters[i]));
        let k = choose|k: int| 0 <= k < cs.len() && cs[k] == t.clusters[i];
        assert(cs[k] == cluster_of(groups_of(m)[k]));
    }
}

/// Triage lists error clusters before warning clusters before
/// informational ones, and clusters of one severity from the largest down.
pub proof fn lemma_triage_cluster_order(errors: Seq<ErrorModel>)
    ensures
        forall|i: int, j: int|
            0 <= i < j < triage_of(errors).clusters.len() ==> {
                let a = #[trigger] triage_of(errors).clusters[i];
                let b = #[trigger] triage_of(errors).clusters[j];
                &&& !(a.severity == Severity::Warning && b.severity == Severity::Error)
                &&& !(a.severity == Severity::Info && b.severity == Severity::Error)
                &&& !(a.severity == Severity::Info && b.severity == Severity::Warning)
                &&& a.severity == b.severity ==> a.count >= b.count
            },
{
    let cs = clusters_of(merged(errors));
    lemma_rank_sorted(cs);
}

/// Step `k` of the fix order reads `k+1. [kind] root cause — fix`, with the
/// kind written `import`, `link`, `compile`, `type`, `panic`, `test`,
/// `warning` or `unknown`, and `Investigate manually` where the cluster has
/// no fix.
pub proof fn lemma_fix_step_text(s: Seq<ClusterModel>)
    ensures
        forall|k: int|
            0 <= k < fix_steps(by_priority(s)).len() ==> #[trigger] fix_steps(by_priority(s))[k]
                == decimal((k + 1) as nat) + ". ["@ + (match by_priority(s)[k].error_type {
                ErrorType::ImportError => "import"@,
                ErrorType::LinkError => "link"@,
                ErrorType::CompileError => "compile"@,
                ErrorType::TypeError => "type"@,
                ErrorType::Panic => "panic"@,
                ErrorType::TestFailure => "test"@,
                ErrorType::Warning => "warning"@,
                ErrorType::Unknown => "unknown"@,
            }) + "] "@ + by_priority(s)[k].root_cause + " \u{2014} "@ + (match by_priority(
                s,
            )[k].suggested_fix {
                Some(f) => f,
                None => "Investigate manually"@,
            }),
        fix_steps(by_priority(s)).len() == s.len(),
{
    lemma_by_priority_len(s);
}

/// The root cause of an entry, by kind: `import: `, `type: `, `warn: ` or
/// `unknown: ` before the first line of its message (at most 60
/// characters); `test: ` before the whole message; just `panic` or `link`;
/// and for compile errors `compile: ` before the file, or before the first
/// line of the message when there is no file.
pub proof fn lemma_root_causes(e: ErrorModel)
    ensures
        e.error_type == ErrorType::ImportError ==> key_of(e) == "import: "@ + normalized(e.message),
        e.error_type == ErrorType::TypeError ==> key_of(e) == "type: "@ + normalized(e.message),
        e.error_type == ErrorType::Warning ==> key_of(e) == "warn: "@ + normalized(e.message),
        e.error_type == ErrorType::Unknown ==> key_of(e) == "unknown: "@ + normalized(e.message),
        e.error_type == ErrorType::TestFailure ==> key_of(e) == "test: "@ + e.message,
        e.error_type == ErrorType::Panic ==> key_of(e) == "panic"@,
        e.error_type == ErrorType::LinkError ==> key_of(e) == "link"@,
        e.error_type == ErrorType::CompileError && e.file is Some ==> key_of(e) == "compile: "@
            + e.file.unwrap(),
        e.error_type == ErrorType::CompileError && e.file is None ==> key_of(e) == "compile: "@
            + normalized(e.message),
{
}

proof fn lemma_count_severity_filter(s: Seq<ErrorModel>, sev: Severity)
    ensures
        count_severity(s, sev) == s.filter(|e: ErrorModel| e.severity == sev).len(),
    decreases s.len(),
{
    reveal(Seq::filter);
    if s.len() > 0 {
        lemma_count_severity_filter(s.drop_last(), sev);
    }
}

/// The totals of a triage count the merged entries of severity Error and
/// of severity Warning.
pub proof fn lemma_triage_totals(errors: Seq<ErrorModel>)
    ensures
        triage_of(errors).total_errors == merged(errors).filter(
            |e: ErrorModel| e.severity == Severity::Error,
        ).len(),
        triage_of(errors).total_warnings == merged(errors).filter(
            |e: ErrorModel| e.severity == Severity::Warning,
        ).len(),
{
    lemma_count_severity_filter(merged(errors), Severity::Error);
    lemma_count_severity_filter(merged(errors), Severity::Warning);
}

} // verus!

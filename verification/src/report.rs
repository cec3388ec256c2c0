//! JSON and text renderings of replays and fuzz reports.
//!
//! JSON reports are stable and machine-readable: object keys come in a fixed
//! order and integers are written as the doubles that hold them. The text forms
//! are compact summaries for terminals.

use vstd::prelude::*;

use crate::divergence::{Finding, FindingView, FuzzReport, FuzzReportView};
use crate::engine::{
    conforming, kind_label, PathStep, PathStepView, ReplayResult, ReplayView, Violation,
    ViolationView,
};
use crate::json::{
    entries_get, entries_view, items_view, lemma_entries_view_push, lemma_items_view_push,
    value_get, Json, JsonValue,
};
use crate::mutate::{describe_spec, field_label, field_name, kind_spec, Mutation};
use crate::text::{
    chars_of, decimal, double_display, double_text, hex, push_char, push_decimal, push_hex, push_str,
};

verus! {

/// A JSON number holding the integer `n` as a double holds it.
pub open spec fn num_value(n: nat) -> JsonValue {
    JsonValue::Num(double_display(n))
}

/// The JSON form of a violation.
pub open spec fn violation_value(v: ViolationView) -> JsonValue {
    JsonValue::Obj(
        seq![
            ("kind"@, JsonValue::Str(kind_label(v.kind))),
            ("event_index"@, num_value(v.event_index)),
            ("event_id"@, match v.event_id {
                Some(id) => JsonValue::Str(id),
                None => JsonValue::Null,
            }),
            ("state"@, JsonValue::Str(v.state)),
            ("detail"@, JsonValue::Str(v.detail)),
        ],
    )
}

/// The JSON form of a mutation: its kind, its indices (and field), and its
/// description.
pub open spec fn mutation_value(m: Mutation) -> JsonValue {
    let kind = ("kind"@, JsonValue::Str(kind_spec(m)));
    let describe = ("describe"@, JsonValue::Str(describe_spec(m)));
    JsonValue::Obj(
        match m {
            Mutation::Drop { index } => seq![kind, ("index"@, num_value(index as nat)), describe],
            Mutation::Duplicate { index } => seq![
                kind,
                ("index"@, num_value(index as nat)),
                describe,
            ],
            Mutation::Reorder { a, b } => seq![
                kind,
                ("a"@, num_value(a as nat)),
                ("b"@, num_value(b as nat)),
                describe,
            ],
            Mutation::CorruptMeta { index, field } => seq![
                kind,
                ("index"@, num_value(index as nat)),
                ("field"@, JsonValue::Str(field_name(field))),
                describe,
            ],
        },
    )
}

/// The JSON forms of the mutations of a plan, in order.
pub open spec fn mutation_values(plan: Seq<Mutation>) -> Seq<JsonValue> {
    plan.map_values(|m: Mutation| mutation_value(m))
}

/// The JSON form of a plan: its mutations in order.
pub open spec fn plan_value(plan: Seq<Mutation>) -> JsonValue {
    JsonValue::Arr(mutation_values(plan))
}

/// The JSON form of one step of a path.
pub open spec fn step_value(s: PathStepView) -> JsonValue {
    JsonValue::Obj(
        seq![
            ("event_index"@, num_value(s.event_index)),
            ("event"@, JsonValue::Str(s.event_label)),
            ("from"@, JsonValue::Str(s.from)),
            ("to"@, JsonValue::Str(s.to)),
        ],
    )
}

/// The JSON forms of the steps of a path, in order.
pub open spec fn step_values(path: Seq<PathStepView>) -> Seq<JsonValue> {
    path.map_values(|s: PathStepView| step_value(s))
}

/// The JSON form of a path.
pub open spec fn path_value(path: Seq<PathStepView>) -> JsonValue {
    JsonValue::Arr(step_values(path))
}

/// The JSON forms of violations, in order.
pub open spec fn violation_values(vs: Seq<ViolationView>) -> Seq<JsonValue> {
    vs.map_values(|v: ViolationView| violation_value(v))
}

/// The JSON form of a replay outcome.
pub open spec fn replay_value(r: ReplayView) -> JsonValue {
    JsonValue::Obj(
        seq![
            ("final_state"@, JsonValue::Str(r.final_state)),
            ("reached_accepting"@, JsonValue::Bool(r.reached_accepting)),
            ("conforming"@, JsonValue::Bool(conforming(r))),
            ("consumed"@, num_value(r.consumed)),
            ("violations"@, JsonValue::Arr(violation_values(r.violations))),
            ("path"@, path_value(r.path)),
        ],
    )
}

/// The JSON form of a finding.
pub open spec fn finding_value(f: FindingView) -> JsonValue {
    JsonValue::Obj(
        seq![
            ("seed"@, num_value(f.seed as nat)),
            ("original_plan"@, plan_value(f.plan)),
            ("minimized_plan"@, plan_value(f.minimized)),
            ("minimized_len"@, num_value(f.minimized.len())),
            ("original_len"@, num_value(f.original_len)),
            ("minimizer_evaluations"@, num_value(f.evaluations)),
            ("divergence"@, replay_value(f.result)),
        ],
    )
}

/// The JSON forms of findings, in order.
pub open spec fn finding_values(fs: Seq<FindingView>) -> Seq<JsonValue> {
    fs.map_values(|f: FindingView| finding_value(f))
}

/// The name of the tool, as reports give it.
pub open spec fn tool_name() -> Seq<char> {
    "noisescope"@
}

/// The disclaimer every report carries.
pub open spec fn disclaimer() -> Seq<char> {
    "structural handshake analysis only; not a cryptographic proof"@
}

/// The JSON form of a fuzz report.
pub open spec fn report_value(r: FuzzReportView) -> JsonValue {
    JsonValue::Obj(
        seq![
            ("tool"@, JsonValue::Str(tool_name())),
            ("disclaimer"@, JsonValue::Str(disclaimer())),
            ("protocol"@, JsonValue::Str(r.protocol)),
            ("baseline_conforming"@, JsonValue::Bool(r.baseline_conforming)),
            ("baseline"@, replay_value(r.baseline)),
            ("trials"@, num_value(r.trials)),
            ("findings_count"@, num_value(r.findings.len())),
            ("findings"@, JsonValue::Arr(finding_values(r.findings))),
        ],
    )
}

/// The JSON form of a single replay, as the `check` command reports it.
pub open spec fn check_value(r: ReplayView) -> JsonValue {
    JsonValue::Obj(
        seq![
            ("tool"@, JsonValue::Str(tool_name())),
            ("disclaimer"@, JsonValue::Str(disclaimer())),
            ("protocol"@, JsonValue::Str(r.protocol)),
            ("result"@, replay_value(r)),
        ],
    )
}

fn add_entry(entries: &mut Vec<(String, Json)>, key: &str, value: Json)
    ensures
        entries_view(final(entries)@) == entries_view(old(entries)@).push((key@, value@)),
{
    let ghost before = entries@;
    let e = (key.to_owned(), value);
    let ghost ee = e;
    entries.push(e);
    proof {
        lemma_entries_view_push(before, ee);
    }
}

fn add_item(items: &mut Vec<Json>, value: Json)
    ensures
        items_view(final(items)@) == items_view(old(items)@).push(value@),
{
    let ghost before = items@;
    let ghost v = value;
    items.push(value);
    proof {
        lemma_items_view_push(before, v);
    }
}

fn num_json(n: u64) -> (j: Json)
    ensures
        j@ == num_value(n as nat),
{
    Json::Num(double_text(n))
}

fn str_json(s: &str) -> (j: Json)
    ensures
        j@ == JsonValue::Str(s@),
{
    Json::Str(s.to_owned())
}

fn violation_json(v: &Violation) -> (j: Json)
    ensures
        j@ == violation_value(v@),
{
    let mut es: Vec<(String, Json)> = Vec::new();
    assert(entries_view(es@) =~= seq![]);
    add_entry(&mut es, "kind", str_json(v.kind.as_str()));
    add_entry(&mut es, "event_index", num_json(v.event_index as u64));
    let id = match &v.event_id {
        Some(s) => str_json(s.as_str()),
        None => Json::Null,
    };
    add_entry(&mut es, "event_id", id);
    add_entry(&mut es, "state", str_json(v.state.as_str()));
    add_entry(&mut es, "detail", str_json(v.detail.as_str()));
    let ghost ev = entries_view(es@);
    let j = Json::Obj(es);
    assert(j@ == JsonValue::Obj(ev));
    proof {
        let got = violation_value(v@);
        assert(got->Obj_0 =~= ev);
    }
    j
}

fn mutation_json(m: &Mutation) -> (j: Json)
    ensures
        j@ == mutation_value(*m),
{
    let mut es: Vec<(String, Json)> = Vec::new();
    assert(entries_view(es@) =~= seq![]);
    add_entry(&mut es, "kind", str_json(m.kind()));
    match m {
        Mutation::Drop { index } => {
            add_entry(&mut es, "index", num_json(*index as u64));
        },
        Mutation::Duplicate { index } => {
            add_entry(&mut es, "index", num_json(*index as u64));
        },
        Mutation::Reorder { a, b } => {
            add_entry(&mut es, "a", num_json(*a as u64));
            add_entry(&mut es, "b", num_json(*b as u64));
        },
        Mutation::CorruptMeta { index, field } => {
            add_entry(&mut es, "index", num_json(*index as u64));
            add_entry(&mut es, "field", str_json(field_label(*field)));
        },
    }
    add_entry(&mut es, "describe", Json::Str(m.describe()));
    let ghost ev = entries_view(es@);
    let j = Json::Obj(es);
    proof {
        let got = mutation_value(*m);
        assert(got->Obj_0 =~= ev);
    }
    j
}

fn plan_json(plan: &[Mutation]) -> (j: Json)
    ensures
        j@ == plan_value(plan@),
{
    let mut items: Vec<Json> = Vec::new();
    assert(items_view(items@) =~= seq![]);
    let mut i: usize = 0;
    while i < plan.len()
        invariant
            i <= plan@.len(),
            items_view(items@) == mutation_values(plan@.take(i as int)),
        decreases plan@.len() - i,
    {
        add_item(&mut items, mutation_json(&plan[i]));
        assert(mutation_values(plan@.take(i + 1)) =~= mutation_values(plan@.take(i as int)).push(
            mutation_value(plan@[i as int]),
        ));
        i += 1;
    }
    assert(plan@.take(i as int) =~= plan@);
    Json::Arr(items)
}

fn step_json(st: &PathStep) -> (j: Json)
    ensures
        j@ == step_value(st@),
{
    let mut es: Vec<(String, Json)> = Vec::new();
    assert(entries_view(es@) =~= seq![]);
    add_entry(&mut es, "event_index", num_json(st.event_index as u64));
    add_entry(&mut es, "event", str_json(st.event_label.as_str()));
    add_entry(&mut es, "from", str_json(st.from.as_str()));
    add_entry(&mut es, "to", str_json(st.to.as_str()));
    let ghost ev = entries_view(es@);
    let j = Json::Obj(es);
    proof {
        let got = step_value(st@);
        assert(got->Obj_0 =~= ev);
    }
    j
}

/// The JSON form of a replay's path: one object per step.
pub fn path_json(r: &ReplayResult) -> (j: Json)
    ensures
        j@ == path_value(r@.path),
{
    let mut items: Vec<Json> = Vec::new();
    assert(items_view(items@) =~= seq![]);
    let ghost p = r@.path;
    let mut i: usize = 0;
    while i < r.path.len()
        invariant
            i <= r.path@.len(),
            p == r@.path,
            items_view(items@) == step_values(p.take(i as int)),
        decreases r.path@.len() - i,
    {
        add_item(&mut items, step_json(&r.path[i]));
        assert(step_values(p.take(i + 1)) =~= step_values(p.take(i as int)).push(
            step_value(p[i as int]),
        ));
        i += 1;
    }
    assert(p.take(i as int) =~= p);
    Json::Arr(items)
}

fn violations_json(r: &ReplayResult) -> (j: Json)
    ensures
        j@ == JsonValue::Arr(violation_values(r@.violations)),
{
    let mut items: Vec<Json> = Vec::new();
    assert(items_view(items@) =~= seq![]);
    let ghost vs = r@.violations;
    let mut i: usize = 0;
    while i < r.violations.len()
        invariant
            i <= r.violations@.len(),
            vs == r@.violations,
            items_view(items@) == violation_values(vs.take(i as int)),
        decreases r.violations@.len() - i,
    {
        add_item(&mut items, violation_json(&r.violations[i]));
        assert(violation_values(vs.take(i + 1)) =~= violation_values(vs.take(i as int)).push(
            violation_value(vs[i as int]),
        ));
        i += 1;
    }
    assert(vs.take(i as int) =~= vs);
    Json::Arr(items)
}

fn replay_json(r: &ReplayResult) -> (j: Json)
    ensures
        j@ == replay_value(r@),
{
    let mut es: Vec<(String, Json)> = Vec::new();
    assert(entries_view(es@) =~= seq![]);
    add_entry(&mut es, "final_state", str_json(r.final_state.as_str()));
    add_entry(&mut es, "reached_accepting", Json::Bool(r.reached_accepting));
    add_entry(&mut es, "conforming", Json::Bool(r.is_conforming()));
    add_entry(&mut es, "consumed", num_json(r.consumed as u64));
    add_entry(&mut es, "violations", violations_json(r));
    add_entry(&mut es, "path", path_json(r));
    let ghost ev = entries_view(es@);
    let j = Json::Obj(es);
    proof {
        let got = replay_value(r@);
        assert(got->Obj_0 =~= ev);
    }
    j
}

fn finding_json(f: &Finding) -> (j: Json)
    ensures
        j@ == finding_value(f@),
{
    let mut es: Vec<(String, Json)> = Vec::new();
    assert(entries_view(es@) =~= seq![]);
    add_entry(&mut es, "seed", num_json(f.seed));
    add_entry(&mut es, "original_plan", plan_json(f.plan.as_slice()));
    add_entry(&mut es, "minimized_plan", plan_json(f.minimized.plan.as_slice()));
    add_entry(&mut es, "minimized_len", num_json(f.minimized.plan.len() as u64));
    add_entry(&mut es, "original_len", num_json(f.minimized.original_len as u64));
    add_entry(&mut es, "minimizer_evaluations", num_json(f.minimized.evaluations as u64));
    add_entry(&mut es, "divergence", replay_json(&f.result));
    let ghost ev = entries_view(es@);
    let j = Json::Obj(es);
    proof {
        let got = finding_value(f@);
        assert(got->Obj_0 =~= ev);
    }
    j
}

fn findings_json(report: &FuzzReport) -> (j: Json)
    ensures
        j@ == JsonValue::Arr(finding_values(report@.findings)),
{
    let mut items: Vec<Json> = Vec::new();
    assert(items_view(items@) =~= seq![]);
    let ghost fs = report@.findings;
    let mut i: usize = 0;
    while i < report.findings.len()
        invariant
            i <= report.findings@.len(),
            fs == report@.findings,
            items_view(items@) == finding_values(fs.take(i as int)),
        decreases report.findings@.len() - i,
    {
        add_item(&mut items, finding_json(&report.findings[i]));
        assert(finding_values(fs.take(i + 1)) =~= finding_values(fs.take(i as int)).push(
            finding_value(fs[i as int]),
        ));
        i += 1;
    }
    assert(fs.take(i as int) =~= fs);
    Json::Arr(items)
}

/// Serializes a full fuzz report.
pub fn report_json(report: &FuzzReport) -> (j: Json)
    ensures
        j@ == report_value(report@),
{
    let mut es: Vec<(String, Json)> = Vec::new();
    assert(entries_view(es@) =~= seq![]);
    add_entry(&mut es, "tool", str_json("noisescope"));
    add_entry(
        &mut es,
        "disclaimer",
        str_json("structural handshake analysis only; not a cryptographic proof"),
    );
    add_entry(&mut es, "protocol", str_json(report.protocol.as_str()));
    add_entry(&mut es, "baseline_conforming", Json::Bool(report.baseline_conforming));
    add_entry(&mut es, "baseline", replay_json(&report.baseline));
    add_entry(&mut es, "trials", num_json(report.trials as u64));
    add_entry(&mut es, "findings_count", num_json(report.findings.len() as u64));
    add_entry(&mut es, "findings", findings_json(report));
    let ghost ev = entries_view(es@);
    let j = Json::Obj(es);
    proof {
        let got = report_value(report@);
        assert(got->Obj_0 =~= ev);
    }
    j
}

/// Serializes a single replay result, as the `check` command reports it.
pub fn check_json(r: &ReplayResult) -> (j: Json)
    ensures
        j@ == check_value(r@),
{
    let mut es: Vec<(String, Json)> = Vec::new();
    assert(entries_view(es@) =~= seq![]);
    add_entry(&mut es, "tool", str_json("noisescope"));
    add_entry(
        &mut es,
        "disclaimer",
        str_json("structural handshake analysis only; not a cryptographic proof"),
    );
    add_entry(&mut es, "protocol", str_json(r.protocol.as_str()));
    add_entry(&mut es, "result", replay_json(r));
    let ghost ev = entries_view(es@);
    let j = Json::Obj(es);
    proof {
        let got = check_value(r@);
        assert(got->Obj_0 =~= ev);
    }
    j
}

// Text rendering.

/// `yes` or `no`.
pub open spec fn yes_no(b: bool) -> Seq<char> {
    if b {
        "yes"@
    } else {
        "no"@
    }
}

/// The text line of one path step.
pub open spec fn step_line(st: PathStepView) -> Seq<char> {
    "  "@ + st.from + " --["@ + st.event_label + "]--> "@ + st.to + "\n"@
}

/// The text lines of a path, in order.
pub open spec fn step_lines(p: Seq<PathStepView>) -> Seq<char>
    decreases p.len(),
{
    if p.len() == 0 {
        seq![]
    } else {
        step_lines(p.drop_last()) + step_line(p.last())
    }
}

/// The text line of one violation.
pub open spec fn violation_line(v: ViolationView) -> Seq<char> {
    "  ["@ + kind_label(v.kind) + "] @event "@ + decimal(v.event_index) + " state="@ + v.state
        + ": "@ + v.detail + "\n"@
}

/// The text lines of violations, in order.
pub open spec fn violation_lines(vs: Seq<ViolationView>) -> Seq<char>
    decreases vs.len(),
{
    if vs.len() == 0 {
        seq![]
    } else {
        violation_lines(vs.drop_last()) + violation_line(vs.last())
    }
}

/// The text rendering of a replay outcome.
pub open spec fn replay_text_spec(r: ReplayView) -> Seq<char> {
    "protocol: "@ + r.protocol + "\n"@ + "final state: "@ + r.final_state + " ("@ + (if r.reached_accepting {
        "accepting"@
    } else {
        "NOT accepting"@
    }) + ")\n"@ + "conforming: "@ + yes_no(conforming(r)) + "\n"@ + (if r.path.len() == 0 {
        "path: (empty)\n"@
    } else {
        "path:\n"@ + step_lines(r.path)
    }) + (if r.violations.len() == 0 {
        "violations: none\n"@
    } else {
        "violations ("@ + decimal(r.violations.len()) + "):\n"@ + violation_lines(r.violations)
    })
}

/// A line without the carriage return that ended it, if any.
pub open spec fn strip_cr(line: Seq<char>) -> Seq<char> {
    if line.len() > 0 && line.last() == '\r' {
        line.drop_last()
    } else {
        line
    }
}

/// Scanning the first `i` characters of `s`: the indented complete lines so far
/// and the characters of the line in progress.
pub open spec fn indent_scan(s: Seq<char>, i: nat) -> (Seq<char>, Seq<char>)
    decreases i,
{
    if i == 0 || i > s.len() {
        (seq![], seq![])
    } else {
        let (done, cur) = indent_scan(s, (i - 1) as nat);
        if s[i - 1] == '\n' {
            (done + "  "@ + strip_cr(cur) + "\n"@, seq![])
        } else {
            (done, cur.push(s[i - 1]))
        }
    }
}

/// Every line of `s` (as `str::lines` splits it: at `\n`, dropping a `\r`
/// before it, with no empty line after a final newline) indented by two spaces
/// and ended by a newline.
pub open spec fn indent_lines(s: Seq<char>) -> Seq<char> {
    let (done, cur) = indent_scan(s, s.len());
    if cur.len() == 0 {
        done
    } else {
        done + "  "@ + cur + "\n"@
    }
}

/// The description lines of a plan, in order.
pub open spec fn plan_lines(p: Seq<Mutation>) -> Seq<char>
    decreases p.len(),
{
    if p.len() == 0 {
        seq![]
    } else {
        plan_lines(p.drop_last()) + "  - "@ + describe_spec(p.last()) + "\n"@
    }
}

/// The text block of the finding numbered `i`.
pub open spec fn finding_text(i: nat, f: FindingView) -> Seq<char> {
    "\n--- finding #"@ + decimal(i) + " (seed 0x"@ + hex(f.seed as nat) + ") ---\n"@
        + "minimized plan ("@ + decimal(f.minimized.len()) + " of "@ + decimal(f.original_len)
        + " mutations, "@ + decimal(f.evaluations) + " evals):\n"@ + plan_lines(f.minimized)
        + "divergence:\n"@ + indent_lines(replay_text_spec(f.result))
}

/// The text blocks of findings, numbered from zero.
pub open spec fn findings_text(fs: Seq<FindingView>) -> Seq<char>
    decreases fs.len(),
{
    if fs.len() == 0 {
        seq![]
    } else {
        findings_text(fs.drop_last()) + finding_text((fs.len() - 1) as nat, fs.last())
    }
}

/// The text rendering of a fuzz report.
pub open spec fn report_text_spec(r: FuzzReportView) -> Seq<char> {
    "noisescope — divergence report\n"@ + "(structural analysis only; not a cryptographic proof)\n"@
        + "protocol: "@ + r.protocol + "\n"@ + "baseline conforming: "@ + yes_no(
        r.baseline_conforming,
    ) + "\n"@ + "trials: "@ + decimal(r.trials) + "\n"@ + "findings: "@ + decimal(
        r.findings.len(),
    ) + "\n"@ + findings_text(r.findings)
}

fn yes_no_str(b: bool) -> (r: &'static str)
    ensures
        r@ == yes_no(b),
{
    if b {
        "yes"
    } else {
        "no"
    }
}

/// Renders a replay result as compact text.
pub fn replay_text(r: &ReplayResult) -> (s: String)
    ensures
        s@ == replay_text_spec(r@),
{
    let mut out = String::new();
    push_str(&mut out, "protocol: ");
    push_str(&mut out, r.protocol.as_str());
    push_str(&mut out, "\n");
    push_str(&mut out, "final state: ");
    push_str(&mut out, r.final_state.as_str());
    push_str(&mut out, " (");
    push_str(&mut out, if r.reached_accepting {
        "accepting"
    } else {
        "NOT accepting"
    });
    push_str(&mut out, ")\n");
    push_str(&mut out, "conforming: ");
    push_str(&mut out, yes_no_str(r.is_conforming()));
    push_str(&mut out, "\n");
    let ghost head = out@;
    let ghost p = r@.path;
    if r.path.len() == 0 {
        push_str(&mut out, "path: (empty)\n");
    } else {
        push_str(&mut out, "path:\n");
        let ghost start = out@;
        let mut i: usize = 0;
        while i < r.path.len()
            invariant
                i <= r.path@.len(),
                p == r@.path,
                out@ == start + step_lines(p.take(i as int)),
            decreases r.path@.len() - i,
        {
            let st = &r.path[i];
            push_str(&mut out, "  ");
            push_str(&mut out, st.from.as_str());
            push_str(&mut out, " --[");
            push_str(&mut out, st.event_label.as_str());
            push_str(&mut out, "]--> ");
            push_str(&mut out, st.to.as_str());
            push_str(&mut out, "\n");
            assert(p.take(i + 1).drop_last() =~= p.take(i as int));
            assert(out@ =~= start + step_lines(p.take(i + 1)));
            i += 1;
        }
        assert(p.take(i as int) =~= p);
    }
    let ghost mid = out@;
    let ghost vs = r@.violations;
    if r.violations.len() == 0 {
        push_str(&mut out, "violations: none\n");
    } else {
        push_str(&mut out, "violations (");
        push_decimal(&mut out, r.violations.len() as u64);
        push_str(&mut out, "):\n");
        let ghost start = out@;
        let mut i: usize = 0;
        while i < r.violations.len()
            invariant
                i <= r.violations@.len(),
                vs == r@.violations,
                out@ == start + violation_lines(vs.take(i as int)),
            decreases r.violations@.len() - i,
        {
            push_violation_line(&mut out, &r.violations[i]);
            assert(vs.take(i + 1).drop_last() =~= vs.take(i as int));
            assert(out@ =~= start + violation_lines(vs.take(i + 1)));
            i += 1;
        }
        assert(vs.take(i as int) =~= vs);
    }
    assert(out@ =~= replay_text_spec(r@));
    out
}

/// Appends `text` with every line indented by two spaces and ended by a newline.
fn push_indented(out: &mut String, text: &str)
    ensures
        final(out)@ == old(out)@ + indent_lines(text@),
{
    let c = chars_of(text);
    let ghost s = text@;
    let ghost start = out@;
    let mut cur: Vec<char> = Vec::new();
    let mut i: usize = 0;
    while i < c.len()
        invariant
            c@ == s,
            i <= s.len(),
            (out@, cur@) == (start + indent_scan(s, i as nat).0, indent_scan(s, i as nat).1),
        decreases s.len() - i,
    {
        let ch = c[i];
        if ch == '\n' {
            let ghost before = out@;
            push_str(out, "  ");
            let mut end = cur.len();
            if end > 0 && cur[end - 1] == '\r' {
                end = end - 1;
            }
            let mut k: usize = 0;
            while k < end
                invariant
                    k <= end <= cur@.len(),
                    out@ == before + "  "@ + cur@.take(k as int),
                decreases end - k,
            {
                push_char(out, cur[k]);
                assert(cur@.take(k + 1) =~= cur@.take(k as int).push(cur@[k as int]));
                k += 1;
            }
            push_char(out, '\n');
            proof {
                assert(cur@.take(end as int) =~= strip_cr(cur@));
                assert(out@ =~= before + "  "@ + strip_cr(cur@) + "\n"@) by {
                    reveal_strlit("\n");
                }
            }
            cur = Vec::new();
        } else {
            cur.push(ch);
        }
        i += 1;
    }
    if cur.len() > 0 {
        let ghost before = out@;
        push_str(out, "  ");
        let mut k: usize = 0;
        while k < cur.len()
            invariant
                k <= cur@.len(),
                out@ == before + "  "@ + cur@.take(k as int),
            decreases cur@.len() - k,
        {
            push_char(out, cur[k]);
            assert(cur@.take(k + 1) =~= cur@.take(k as int).push(cur@[k as int]));
            k += 1;
        }
        push_char(out, '\n');
        proof {
            assert(cur@.take(k as int) =~= cur@);
            assert(out@ =~= before + "  "@ + cur@ + "\n"@) by {
                reveal_strlit("\n");
            }
        }
    }
    assert(out@ =~= start + indent_lines(s));
}

fn push_violation_line(out: &mut String, v: &Violation)
    ensures
        final(out)@ == old(out)@ + violation_line(v@),
{
    let ghost start = out@;
    push_str(out, "  [");
    push_str(out, v.kind.as_str());
    push_str(out, "] @event ");
    push_decimal(out, v.event_index as u64);
    push_str(out, " state=");
    push_str(out, v.state.as_str());
    push_str(out, ": ");
    push_str(out, v.detail.as_str());
    push_str(out, "\n");
    assert(out@ =~= start + violation_line(v@));
}

fn push_finding(out: &mut String, i: usize, f: &Finding)
    ensures
        final(out)@ == old(out)@ + finding_text(i as nat, f@),
{
    let ghost start = out@;
    push_str(out, "\n--- finding #");
    push_decimal(out, i as u64);
    push_str(out, " (seed 0x");
    push_hex(out, f.seed);
    push_str(out, ") ---\n");
    push_str(out, "minimized plan (");
    push_decimal(out, f.minimized.plan.len() as u64);
    push_str(out, " of ");
    push_decimal(out, f.minimized.original_len as u64);
    push_str(out, " mutations, ");
    push_decimal(out, f.minimized.evaluations as u64);
    push_str(out, " evals):\n");
    let ghost plan_start = out@;
    let ghost mp = f.minimized.plan@;
    let mut k: usize = 0;
    while k < f.minimized.plan.len()
        invariant
            k <= mp.len(),
            mp == f.minimized.plan@,
            out@ == plan_start + plan_lines(mp.take(k as int)),
        decreases mp.len() - k,
    {
        push_str(out, "  - ");
        push_str(out, f.minimized.plan[k].describe().as_str());
        push_str(out, "\n");
        assert(mp.take(k + 1).drop_last() =~= mp.take(k as int));
        assert(out@ =~= plan_start + plan_lines(mp.take(k + 1)));
        k += 1;
    }
    assert(mp.take(k as int) =~= mp);
    let ghost plan_end = out@;
    push_str(out, "divergence:\n");
    let body = replay_text(&f.result);
    push_indented(out, body.as_str());
    assert(plan_end == plan_start + plan_lines(mp));
    assert(out@ =~= start + finding_text(i as nat, f@));
}

/// Renders a full fuzz report as text.
pub fn report_text(report: &FuzzReport) -> (s: String)
    ensures
        s@ == report_text_spec(report@),
{
    let mut out = String::new();
    push_str(&mut out, "noisescope — divergence report\n");
    push_str(&mut out, "(structural analysis only; not a cryptographic proof)\n");
    push_str(&mut out, "protocol: ");
    push_str(&mut out, report.protocol.as_str());
    push_str(&mut out, "\n");
    push_str(&mut out, "baseline conforming: ");
    push_str(&mut out, yes_no_str(report.baseline_conforming));
    push_str(&mut out, "\n");
    push_str(&mut out, "trials: ");
    push_decimal(&mut out, report.trials as u64);
    push_str(&mut out, "\n");
    push_str(&mut out, "findings: ");
    push_decimal(&mut out, report.findings.len() as u64);
    push_str(&mut out, "\n");
    let ghost start = out@;
    let ghost fs = report@.findings;
    let mut i: usize = 0;
    while i < report.findings.len()
        invariant
            i <= report.findings@.len(),
            fs == report@.findings,
            out@ == start + findings_text(fs.take(i as int)),
        decreases report.findings@.len() - i,
    {
        let ghost before = out@;
        push_finding(&mut out, i, &report.findings[i]);
        assert(fs[i as int] == report.findings@[i as int]@);
        assert(fs.take(i + 1).drop_last() =~= fs.take(i as int));
        assert(out@ =~= start + findings_text(fs.take(i + 1)));
        i += 1;
    }
    assert(fs.take(i as int) =~= fs);
    assert(out@ =~= report_text_spec(report@));
    out
}

/// In object `obj`, the member `len_key` is the number of items of the array
/// under `arr_key`.
pub open spec fn counts_items(obj: JsonValue, arr_key: Seq<char>, len_key: Seq<char>) -> bool {
    match value_get(obj, arr_key) {
        Some(JsonValue::Arr(items)) => value_get(obj, len_key) == Some(num_value(items.len())),
        _ => false,
    }
}

proof fn lemma_entries_get_at(es: Seq<(Seq<char>, JsonValue)>, key: Seq<char>, i: int)
    requires
        0 <= i < es.len(),
        es[i].0 == key,
        forall|j: int| 0 <= j < i ==> #[trigger] es[j].0 != key,
    ensures
        entries_get(es, key) == Some(es[i].1),
    decreases i,
{
    if i > 0 {
        assert(es[0].0 != key);
        assert forall|j: int| 0 <= j < i - 1 implies #[trigger] es.drop_first()[j].0 != key by {
            assert(es.drop_first()[j] == es[j + 1]);
        }
        lemma_entries_get_at(es.drop_first(), key, i - 1);
    }
}

/// Law: in the JSON of a finding, `minimized_len` is the number of
/// mutations listed under `minimized_plan`, and that list has one item per
/// mutation of the minimized plan.
pub proof fn lemma_finding_counts(f: FindingView)
    ensures
        counts_items(finding_value(f), "minimized_plan"@, "minimized_len"@),
        value_get(finding_value(f), "minimized_plan"@) matches Some(JsonValue::Arr(items))
            && items.len() == f.minimized.len(),
        value_get(finding_value(f), "original_plan"@) matches Some(JsonValue::Arr(items))
            && items.len() == f.plan.len(),
{
    reveal_strlit("seed");
    reveal_strlit("original_plan");
    reveal_strlit("minimized_plan");
    reveal_strlit("minimized_len");
    reveal_strlit("original_len");
    reveal_strlit("minimizer_evaluations");
    reveal_strlit("divergence");
    let es = finding_value(f)->Obj_0;
    assert(es.len() == 7);
    assert("seed"@.len() != "original_plan"@.len());
    assert("seed"@.len() != "minimized_plan"@.len());
    assert("seed"@.len() != "minimized_len"@.len());
    assert("original_plan"@.len() != "minimized_plan"@.len());
    assert("original_plan"@[0] != "minimized_len"@[0]);
    assert("minimized_plan"@.len() != "minimized_len"@.len());
    assert forall|j: int| 0 <= j < 1 implies #[trigger] es[j].0 != "original_plan"@ by {}
    assert forall|j: int| 0 <= j < 2 implies #[trigger] es[j].0 != "minimized_plan"@ by {}
    assert forall|j: int| 0 <= j < 3 implies #[trigger] es[j].0 != "minimized_len"@ by {}
    lemma_entries_get_at(es, "original_plan"@, 1);
    lemma_entries_get_at(es, "minimized_plan"@, 2);
    lemma_entries_get_at(es, "minimized_len"@, 3);
    assert(mutation_values(f.minimized).len() == f.minimized.len());
    assert(mutation_values(f.plan).len() == f.plan.len());
}

/// Law: in the JSON of a fuzz report, `findings_count` is the number of
/// objects under `findings`, there is one per finding, and in each of them
/// `minimized_len` is the number of mutations under `minimized_plan`.
pub proof fn lemma_report_counts(r: FuzzReportView)
    ensures
        counts_items(report_value(r), "findings"@, "findings_count"@),
        value_get(report_value(r), "findings"@) matches Some(JsonValue::Arr(items)) && items.len()
            == r.findings.len() && forall|j: int|
            0 <= j < items.len() ==> counts_items(
                #[trigger] items[j],
                "minimized_plan"@,
                "minimized_len"@,
            ),
{
    reveal_strlit("tool");
    reveal_strlit("disclaimer");
    reveal_strlit("protocol");
    reveal_strlit("baseline_conforming");
    reveal_strlit("baseline");
    reveal_strlit("trials");
    reveal_strlit("findings_count");
    reveal_strlit("findings");
    let es = report_value(r)->Obj_0;
    assert(es.len() == 8);
    let fc = "findings_count"@;
    let fs = "findings"@;
    assert("tool"@.len() != fc.len() && "tool"@.len() != fs.len());
    assert("disclaimer"@.len() != fc.len() && "disclaimer"@.len() != fs.len());
    assert("protocol"@.len() != fc.len() && "protocol"@[0] != fs[0]);
    assert("baseline_conforming"@.len() != fc.len() && "baseline_conforming"@.len() != fs.len());
    assert("baseline"@.len() != fc.len() && "baseline"@[0] != fs[0]);
    assert("trials"@.len() != fc.len() && "trials"@.len() != fs.len());
    assert(fc.len() != fs.len());
    assert forall|j: int| 0 <= j < 6 implies #[trigger] es[j].0 != fc by {}
    assert forall|j: int| 0 <= j < 7 implies #[trigger] es[j].0 != fs by {}
    lemma_entries_get_at(es, "findings_count"@, 6);
    lemma_entries_get_at(es, "findings"@, 7);
    let items = finding_values(r.findings);
    assert(items.len() == r.findings.len());
    assert forall|j: int| 0 <= j < items.len() implies counts_items(
        #[trigger] items[j],
        "minimized_plan"@,
        "minimized_len"@,
    ) by {
        lemma_finding_counts(r.findings[j]);
    }
}

} // verus!

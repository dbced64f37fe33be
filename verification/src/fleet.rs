//! Fleet health: the status report a hub agent writes to
//! `machines/<id>/status.json` after an apply, and the roster of machines.
//! One schema, shared by the agent and the desktop app.

use vstd::prelude::*;
use crate::plan::{PlanAction, StepView, ApplyResult};
use crate::strmap::{str_lt, lemma_str_lt_total, lemma_str_lt_transitive, lemma_str_lt_asymmetric, lemma_str_lt_irreflexive, str_less};

verus! {

broadcast use vstd::seq_lib::group_to_multiset_ensures;

/// Version of the status.json schema.
pub const STATUS_SCHEMA_VERSION: u32 = 1;

/// One applied (or refused) plan action, as reported in status.json.
#[derive(Debug, Clone)]
pub struct StatusAction {
    pub skill: String,
    pub tool: String,
    /// "install", "update", "remove" or "conflict".
    pub action: String,
    pub ok: bool,
    pub error: Option<String>,
}

/// `machines/<id>/status.json`.
#[derive(Debug, Clone)]
pub struct StatusReport {
    pub schema_version: u32,
    pub machine: String,
    /// Unix seconds.
    pub applied_at_epoch: u64,
    /// False when any action failed: partial success stays visible.
    pub ok: bool,
    pub actions: Vec<StatusAction>,
}

/// The name a report gives a plan step.
pub open spec fn step_name(a: StepView) -> Seq<char> {
    match a {
        StepView::Install { .. } => "install"@,
        StepView::Update { .. } => "update"@,
        StepView::Remove { .. } => "remove"@,
        StepView::Conflict { .. } => "conflict"@,
    }
}

/// The name a report gives `action`.
pub fn action_name(action: &PlanAction) -> (n: &'static str)
    ensures
        n@ == step_name(action@),
{
    match action {
        PlanAction::Install { .. } => "install",
        PlanAction::Update { .. } => "update",
        PlanAction::Remove { .. } => "remove",
        PlanAction::Conflict { .. } => "conflict",
    }
}

/// `s` reports the result `r` of the plan step `a`.
pub open spec fn reports_action(s: StatusAction, a: StepView, r: ApplyResult) -> bool {
    &&& s.skill == r.skill
    &&& s.tool == r.tool
    &&& s.action@ == step_name(a)
    &&& s.ok == r.ok
    &&& s.error == r.error
}

fn clone_opt(o: &Option<String>) -> (r: Option<String>)
    ensures
        r == *o,
{
    match o {
        Some(s) => Some(s.clone()),
        None => None,
    }
}

/// The status report of an apply: one action per plan step and result,
/// paired in order, and `ok` exactly when every action succeeded.
pub fn build_status_report(
    machine: String,
    applied_at_epoch: u64,
    plan: &Vec<PlanAction>,
    results: &Vec<ApplyResult>,
) -> (report: StatusReport)
    ensures
        report.schema_version == STATUS_SCHEMA_VERSION,
        report.machine == machine,
        report.applied_at_epoch == applied_at_epoch,
        report.actions@.len() == if plan@.len() <= results@.len() { plan@.len() } else { results@.len() },
        forall|i: int| 0 <= i < report.actions@.len()
            ==> reports_action(#[trigger] report.actions@[i], plan@[i]@, results@[i]),
        report.ok == forall|i: int| 0 <= i < report.actions@.len() ==> (#[trigger] report.actions@[i]).ok,
{
    let mut actions: Vec<StatusAction> = Vec::new();
    let mut all_ok = true;
    let mut i: usize = 0;
    while i < plan.len() && i < results.len()
        invariant
            i <= plan@.len(),
            i <= results@.len(),
            actions@.len() == i,
            forall|j: int| 0 <= j < i ==> reports_action(#[trigger] actions@[j], plan@[j]@, results@[j]),
            all_ok == forall|j: int| 0 <= j < i ==> (#[trigger] actions@[j]).ok,
        decreases plan.len() - i,
    {
        let ghost before = actions@;
        let r = &results[i];
        let name = action_name(&plan[i]);
        actions.push(
            StatusAction {
                skill: r.skill.clone(),
                tool: r.tool.clone(),
                action: name.to_string(),
                ok: r.ok,
                error: clone_opt(&r.error),
            },
        );
        proof {
            assert(actions@[i as int].ok == r.ok);
            assert forall|j: int| 0 <= j < i implies actions@[j] == before[j] by {}
            if !all_ok {
                let j = choose|j: int| 0 <= j < i && !(#[trigger] before[j]).ok;
                assert(!actions@[j].ok);
            }
        }
        all_ok = all_ok && r.ok;
        i = i + 1;
    }
    StatusReport { schema_version: STATUS_SCHEMA_VERSION, machine, applied_at_epoch, ok: all_ok, actions }
}

/// `a` sorts no later than `b`.
pub open spec fn str_le(a: Seq<char>, b: Seq<char>) -> bool {
    !str_lt(b, a)
}

/// In non-decreasing order.
pub open spec fn sorted_names(s: Seq<String>) -> bool {
    forall|i: int, j: int| 0 <= i < j < s.len() ==> str_le(#[trigger] s[i]@, #[trigger] s[j]@)
}

proof fn lemma_str_le_transitive(a: Seq<char>, b: Seq<char>, c: Seq<char>)
    requires
        str_le(a, b),
        str_le(b, c),
    ensures
        str_le(a, c),
{
    if str_lt(c, a) {
        lemma_str_lt_total(a, b);
        if a == b {
        } else if str_lt(a, b) {
            lemma_str_lt_transitive(c, a, b);
        }
    }
}

/// The machine roster in sorted order: the same names, each as often as
/// it was given.
pub fn sorted_roster(names: &Vec<String>) -> (out: Vec<String>)
    ensures
        sorted_names(out@),
        out@.to_multiset() == names@.to_multiset(),
{
    let mut out: Vec<String> = Vec::new();
    let mut i: usize = 0;
    while i < names.len()
        invariant
            i <= names@.len(),
            sorted_names(out@),
            out@.to_multiset() == names@.subrange(0, i as int).to_multiset(),
        decreases names.len() - i,
    {
        let x = names[i].clone();
        let mut pos: usize = 0;
        while pos < out.len() && !str_less(x.as_str(), out[pos].as_str())
            invariant
                pos <= out@.len(),
                forall|j: int| 0 <= j < pos ==> str_le(#[trigger] out@[j]@, x@),
            decreases out.len() - pos,
        {
            pos = pos + 1;
        }
        let ghost r = out@;
        proof {
            if pos < r.len() {
                lemma_str_lt_asymmetric(x@, r[pos as int]@);
                assert forall|j: int| pos < j < r.len() implies str_le(x@, #[trigger] r[j]@) by {
                    assert(str_le(r[pos as int]@, r[j]@));
                    lemma_str_le_transitive(x@, r[pos as int]@, r[j]@);
                }
            }
        }
        out.insert(pos, x);
        proof {
            let t = out@;
            assert(t == r.insert(pos as int, names@[i as int]));
            assert forall|a: int, b: int| 0 <= a < b < t.len() implies str_le(#[trigger] t[a]@, #[trigger] t[b]@) by {
                if b < pos {
                    assert(t[a] == r[a] && t[b] == r[b]);
                } else if b == pos {
                    assert(t[a] == r[a]);
                } else if a == pos {
                    assert(t[b] == r[b - 1]);
                } else if a < pos {
                    assert(t[a] == r[a] && t[b] == r[b - 1]);
                } else {
                    assert(t[a] == r[a - 1] && t[b] == r[b - 1]);
                }
            }
            vstd::seq_lib::to_multiset_insert(r, pos as int, names@[i as int]);
            assert(names@.subrange(0, i + 1) == names@.subrange(0, i as int).push(names@[i as int]));
        }
        i = i + 1;
    }
    assert(names@.subrange(0, names@.len() as int) == names@);
    out
}

/// The bytes without a leading UTF-8 byte order mark.
pub open spec fn without_utf8_bom(b: Seq<u8>) -> Seq<u8> {
    if b.len() >= 3 && b[0] == 0xef && b[1] == 0xbb && b[2] == 0xbf {
        b.subrange(3, b.len() as int)
    } else {
        b
    }
}

/// `bytes` without a leading UTF-8 byte order mark: Windows editors and
/// PowerShell write one, and a hand-written file must still read.
pub fn strip_utf8_bom(bytes: &[u8]) -> (out: Vec<u8>)
    ensures
        out@ == without_utf8_bom(bytes@),
{
    let start: usize = if bytes.len() >= 3 && bytes[0] == 0xef && bytes[1] == 0xbb && bytes[2] == 0xbf { 3 } else { 0 };
    let mut out: Vec<u8> = Vec::new();
    let mut i: usize = start;
    while i < bytes.len()
        invariant
            start <= i <= bytes@.len(),
            out@ == bytes@.subrange(start as int, i as int),
        decreases bytes.len() - i,
    {
        out.push(bytes[i]);
        i = i + 1;
    }
    assert(bytes@.subrange(0, bytes@.len() as int) == bytes@);
    out
}

} // verus!

//! The sync planner: diffs a machine's pins against what a scan of its tool
//! directories found, and the per-action results of carrying a plan out.

use vstd::prelude::*;
use crate::strmap::{StrMap, sorted_keys, sorted_strict, str_lt};
use crate::text::contains_str;
use crate::paths::{path_join, join_path_in, is_safe_skill_id, check_skill_id, PathStyle, host_path_style};
use crate::pins::{MachinePins, PinEntry, EntryView, ManagedManifest, PinError};

verus! {

/// One step of a sync plan.
#[derive(Debug, Clone)]
pub enum PlanAction {
    /// Nothing at the target yet: install this version.
    Install { skill: String, version: String, tool: String, target: String, strategy: String },
    /// Managed target exists but the pin points at a different version.
    Update {
        skill: String,
        from_version: String,
        to_version: String,
        tool: String,
        target: String,
        strategy: String,
    },
    /// Managed target exists but no enabled pin wants it anymore.
    Remove { skill: String, tool: String, target: String },
    /// Something without our manifest occupies the target path: hands off.
    Conflict { skill: String, tool: String, target: String },
}

/// A plan step as plain values.
pub enum StepView {
    Install { skill: Seq<char>, version: Seq<char>, tool: Seq<char>, target: Seq<char>, strategy: Seq<char> },
    Update {
        skill: Seq<char>,
        from_version: Seq<char>,
        to_version: Seq<char>,
        tool: Seq<char>,
        target: Seq<char>,
        strategy: Seq<char>,
    },
    Remove { skill: Seq<char>, tool: Seq<char>, target: Seq<char> },
    Conflict { skill: Seq<char>, tool: Seq<char>, target: Seq<char> },
}

impl PlanAction {
    pub open spec fn view(&self) -> StepView {
        match self {
            PlanAction::Install { skill, version, tool, target, strategy } => StepView::Install {
                skill: skill@,
                version: version@,
                tool: tool@,
                target: target@,
                strategy: strategy@,
            },
            PlanAction::Update { skill, from_version, to_version, tool, target, strategy } => StepView::Update {
                skill: skill@,
                from_version: from_version@,
                to_version: to_version@,
                tool: tool@,
                target: target@,
                strategy: strategy@,
            },
            PlanAction::Remove { skill, tool, target } => StepView::Remove { skill: skill@, tool: tool@, target: target@ },
            PlanAction::Conflict { skill, tool, target } => StepView::Conflict {
                skill: skill@,
                tool: tool@,
                target: target@,
            },
        }
    }
}

/// What a scan of one tool's skills directory found.
#[derive(Debug, Clone)]
pub struct ToolScan {
    /// Names of the entries present in the directory.
    pub present: Vec<String>,
    /// Sibling manifests found next to those entries, in scan order.
    pub manifests: Vec<ManagedManifest>,
}

impl ToolScan {
    pub open spec fn present_view(&self) -> Seq<Seq<char>> {
        self.present@.map_values(|s: String| s@)
    }

    /// (skill, version) of each manifest, in scan order.
    pub open spec fn manifests_view(&self) -> Seq<(Seq<char>, Seq<char>)> {
        self.manifests@.map_values(|m: ManagedManifest| (m.skill@, m.version@))
    }
}

/// What the scan of `tool` found; nothing when the tool was not scanned.
pub open spec fn scan_present(scans: Map<Seq<char>, ToolScan>, tool: Seq<char>) -> Seq<Seq<char>> {
    if scans.contains_key(tool) {
        scans[tool].present_view()
    } else {
        Seq::empty()
    }
}

pub open spec fn scan_manifests(scans: Map<Seq<char>, ToolScan>, tool: Seq<char>) -> Seq<(Seq<char>, Seq<char>)> {
    if scans.contains_key(tool) {
        scans[tool].manifests_view()
    } else {
        Seq::empty()
    }
}

/// Desired state for `tool`: skill -> (version, strategy) over the enabled
/// targets of the entries; a later entry for the same skill wins.
pub open spec fn desired_for(es: Seq<EntryView>, tool: Seq<char>) -> Map<Seq<char>, (Seq<char>, Seq<char>)>
    decreases es.len(),
{
    if es.len() == 0 {
        Map::empty()
    } else {
        let d = desired_for(es.drop_last(), tool);
        let e = es.last();
        if e.2.contains_key(tool) && e.2[tool].enabled {
            d.insert(e.0, (e.1, e.2[tool].strategy@))
        } else {
            d
        }
    }
}

/// Managed state for one tool: skill -> installed version, from the
/// manifests in scan order; a later manifest for the same skill wins.
pub open spec fn managed_for(ms: Seq<(Seq<char>, Seq<char>)>) -> Map<Seq<char>, Seq<char>>
    decreases ms.len(),
{
    if ms.len() == 0 {
        Map::empty()
    } else {
        managed_for(ms.drop_last()).insert(ms.last().0, ms.last().1)
    }
}

/// The install / update / conflict steps for the desired skills `ks` of one tool.
pub open spec fn install_steps(
    st: PathStyle,
    ks: Seq<Seq<char>>,
    tool: Seq<char>,
    dir: Seq<char>,
    d: Map<Seq<char>, (Seq<char>, Seq<char>)>,
    m: Map<Seq<char>, Seq<char>>,
    present: Seq<Seq<char>>,
) -> Seq<StepView>
    decreases ks.len(),
{
    if ks.len() == 0 {
        Seq::empty()
    } else {
        let prev = install_steps(st, ks.drop_last(), tool, dir, d, m, present);
        let s = ks.last();
        let target = path_join(st, dir, s);
        if m.contains_key(s) {
            if m[s] == d[s].0 {
                prev
            } else {
                prev.push(
                    StepView::Update {
                        skill: s,
                        from_version: m[s],
                        to_version: d[s].0,
                        tool: tool,
                        target: target,
                        strategy: d[s].1,
                    },
                )
            }
        } else if present.contains(s) {
            prev.push(StepView::Conflict { skill: s, tool: tool, target: target })
        } else {
            prev.push(StepView::Install { skill: s, version: d[s].0, tool: tool, target: target, strategy: d[s].1 })
        }
    }
}

/// The remove steps for the managed skills `ks` of one tool.
pub open spec fn remove_steps(
    st: PathStyle,
    ks: Seq<Seq<char>>,
    tool: Seq<char>,
    dir: Seq<char>,
    d: Map<Seq<char>, (Seq<char>, Seq<char>)>,
) -> Seq<StepView>
    decreases ks.len(),
{
    if ks.len() == 0 {
        Seq::empty()
    } else {
        let prev = remove_steps(st, ks.drop_last(), tool, dir, d);
        let s = ks.last();
        if d.contains_key(s) {
            prev
        } else {
            prev.push(StepView::Remove { skill: s, tool: tool, target: path_join(st, dir, s) })
        }
    }
}

/// Install-side steps of the plan, tool by tool in the order of `tools`.
pub open spec fn plan_installs(
    st: PathStyle,
    tools: Seq<Seq<char>>,
    dirs: Map<Seq<char>, String>,
    es: Seq<EntryView>,
    scans: Map<Seq<char>, ToolScan>,
) -> Seq<StepView>
    decreases tools.len(),
{
    if tools.len() == 0 {
        Seq::empty()
    } else {
        let t = tools.last();
        let d = desired_for(es, t);
        plan_installs(st, tools.drop_last(), dirs, es, scans) + install_steps(st, 
            sorted_keys(d.dom()),
            t,
            dirs[t]@,
            d,
            managed_for(scan_manifests(scans, t)),
            scan_present(scans, t),
        )
    }
}

/// Remove steps of the plan, tool by tool in the order of `tools`.
pub open spec fn plan_removes(
    st: PathStyle,
    tools: Seq<Seq<char>>,
    dirs: Map<Seq<char>, String>,
    es: Seq<EntryView>,
    scans: Map<Seq<char>, ToolScan>,
) -> Seq<StepView>
    decreases tools.len(),
{
    if tools.len() == 0 {
        Seq::empty()
    } else {
        let t = tools.last();
        let m = managed_for(scan_manifests(scans, t));
        plan_removes(st, tools.drop_last(), dirs, es, scans) + remove_steps(st, sorted_keys(m.dom()), t, dirs[t]@, desired_for(es, t))
    }
}

/// The plan: for every (tool, skill) in increasing order that an enabled
/// pin wants, an install, update or conflict step unless the managed
/// install already has the pinned version; then, again in (tool, skill)
/// order, a remove step for every managed install no enabled pin wants.
pub open spec fn spec_plan(
    st: PathStyle,
    tools: Seq<Seq<char>>,
    dirs: Map<Seq<char>, String>,
    es: Seq<EntryView>,
    scans: Map<Seq<char>, ToolScan>,
) -> Seq<StepView> {
    plan_installs(st, tools, dirs, es, scans) + plan_removes(st, tools, dirs, es, scans)
}

/// Skill ids of the manifests found for `tools`, tool by tool.
pub open spec fn manifest_ids(tools: Seq<Seq<char>>, scans: Map<Seq<char>, ToolScan>) -> Seq<Seq<char>>
    decreases tools.len(),
{
    if tools.len() == 0 {
        Seq::empty()
    } else {
        manifest_ids(tools.drop_last(), scans) + scan_manifests(scans, tools.last()).map_values(
            |m: (Seq<char>, Seq<char>)| m.0,
        )
    }
}

/// The first id in `ids` that is not a safe skill id.
pub open spec fn first_unsafe(st: PathStyle, ids: Seq<Seq<char>>) -> Option<Seq<char>>
    decreases ids.len(),
{
    if ids.len() == 0 {
        None
    } else if !is_safe_skill_id(st, ids[0]) {
        Some(ids[0])
    } else {
        first_unsafe(st, ids.drop_first())
    }
}

/// Every skill id the planner checks, in the order it checks them: the pin
/// entries first, then the manifests tool by tool.
pub open spec fn checked_ids(es: Seq<EntryView>, tools: Seq<Seq<char>>, scans: Map<Seq<char>, ToolScan>) -> Seq<Seq<char>> {
    es.map_values(|e: EntryView| e.0) + manifest_ids(tools, scans)
}

/// `d` holds the plain-value map `s`.
pub open spec fn agrees_desired(d: Map<Seq<char>, (String, String)>, s: Map<Seq<char>, (Seq<char>, Seq<char>)>) -> bool {
    &&& d.dom() == s.dom()
    &&& forall|k: Seq<char>| #[trigger] d.contains_key(k) ==> (d[k].0@, d[k].1@) == s[k]
}

/// `m` holds the plain-value map `s`.
pub open spec fn agrees_managed(m: Map<Seq<char>, String>, s: Map<Seq<char>, Seq<char>>) -> bool {
    &&& m.dom() == s.dom()
    &&& forall|k: Seq<char>| #[trigger] m.contains_key(k) ==> m[k]@ == s[k]
}

/// The desired (version, strategy) per skill for `tool`.
fn desired_map(pins: &MachinePins, tool: &str) -> (d: StrMap<(String, String)>)
    requires
        pins.wf(),
    ensures
        d.wf(),
        agrees_desired(d.view(), desired_for(pins.entries(), tool@)),
{
    let ghost es = pins.entries();
    let mut d: StrMap<(String, String)> = StrMap::new();
    let mut i: usize = 0;
    while i < pins.pins.len()
        invariant
            pins.wf(),
            es == pins.entries(),
            i <= pins.pins@.len(),
            d.wf(),
            agrees_desired(d.view(), desired_for(es.take(i as int), tool@)),
        decreases pins.pins.len() - i,
    {
        let e = &pins.pins[i];
        assert(e.wf());
        assert(es[i as int] == e.view());
        assert(es.take(i + 1).drop_last() == es.take(i as int));
        assert(es.take(i + 1).last() == es[i as int]);
        let ghost before = d.view();
        match e.targets.get(tool) {
            Some(t) => {
                if t.enabled {
                    d.insert(e.skill.clone(), (e.version.clone(), t.strategy.clone()));
                    assert(d.view().dom() =~= desired_for(es.take(i + 1), tool@).dom());
                }
            },
            None => {},
        }
        i = i + 1;
    }
    assert(es.take(pins.pins@.len() as int) == es);
    d
}

/// The installed version per skill, from manifests in scan order.
fn managed_map(ms: &Vec<ManagedManifest>) -> (m: StrMap<String>)
    ensures
        m.wf(),
        agrees_managed(m.view(), managed_for(ms@.map_values(|x: ManagedManifest| (x.skill@, x.version@)))),
{
    let ghost mv = ms@.map_values(|x: ManagedManifest| (x.skill@, x.version@));
    let mut m: StrMap<String> = StrMap::new();
    let mut i: usize = 0;
    while i < ms.len()
        invariant
            mv == ms@.map_values(|x: ManagedManifest| (x.skill@, x.version@)),
            i <= ms@.len(),
            m.wf(),
            agrees_managed(m.view(), managed_for(mv.take(i as int))),
        decreases ms.len() - i,
    {
        assert(mv.take(i + 1).drop_last() == mv.take(i as int));
        m.insert(ms[i].skill.clone(), ms[i].version.clone());
        assert(m.view().dom() =~= managed_for(mv.take(i + 1)).dom());
        i = i + 1;
    }
    assert(mv.take(ms@.len() as int) == mv);
    m
}

proof fn lemma_first_unsafe_at(st: PathStyle, ids: Seq<Seq<char>>, p: int)
    requires
        0 <= p < ids.len(),
        forall|j: int| 0 <= j < p ==> is_safe_skill_id(st, #[trigger] ids[j]),
        !is_safe_skill_id(st, ids[p]),
    ensures
        first_unsafe(st, ids) == Some(ids[p]),
    decreases p,
{
    if p > 0 {
        let t = ids.drop_first();
        assert forall|j: int| 0 <= j < p - 1 implies is_safe_skill_id(st, #[trigger] t[j]) by {
            assert(t[j] == ids[j + 1]);
        }
        assert(is_safe_skill_id(st, ids[0]));
        lemma_first_unsafe_at(st, t, p - 1);
    }
}

proof fn lemma_all_safe(st: PathStyle, ids: Seq<Seq<char>>)
    requires
        forall|j: int| 0 <= j < ids.len() ==> is_safe_skill_id(st, #[trigger] ids[j]),
    ensures
        first_unsafe(st, ids) is None,
    decreases ids.len(),
{
    if ids.len() > 0 {
        let t = ids.drop_first();
        assert forall|j: int| 0 <= j < t.len() implies is_safe_skill_id(st, #[trigger] t[j]) by {
            assert(t[j] == ids[j + 1]);
        }
        assert(is_safe_skill_id(st, ids[0]));
        lemma_all_safe(st, t);
    }
}

proof fn lemma_manifest_ids_prefix(tools: Seq<Seq<char>>, scans: Map<Seq<char>, ToolScan>, a: int, b: int)
    requires
        0 <= a <= b <= tools.len(),
    ensures
        manifest_ids(tools.take(a), scans).len() <= manifest_ids(tools.take(b), scans).len(),
        manifest_ids(tools.take(b), scans).take(manifest_ids(tools.take(a), scans).len() as int)
            == manifest_ids(tools.take(a), scans),
    decreases b - a,
{
    if a < b {
        lemma_manifest_ids_prefix(tools, scans, a, b - 1);
        assert(tools.take(b).drop_last() == tools.take(b - 1));
        let x = manifest_ids(tools.take(b - 1), scans);
        let y = manifest_ids(tools.take(b), scans);
        let z = manifest_ids(tools.take(a), scans);
        assert(y.take(x.len() as int) == x);
        assert(y.take(z.len() as int) == x.take(z.len() as int));
    } else {
        let z = manifest_ids(tools.take(a), scans);
        assert(z.take(z.len() as int) == z);
    }
}

proof fn lemma_manifest_ids_step(tools: Seq<Seq<char>>, scans: Map<Seq<char>, ToolScan>, i: int)
    requires
        0 <= i < tools.len(),
    ensures
        manifest_ids(tools.take(i + 1), scans) == manifest_ids(tools.take(i), scans) + scan_manifests(
            scans,
            tools[i],
        ).map_values(|m: (Seq<char>, Seq<char>)| m.0),
{
    assert(tools.take(i + 1).drop_last() == tools.take(i));
    assert(tools.take(i + 1).last() == tools[i]);
}

/// The first skill id, in check order, that is not a single plain name.
fn find_unsafe(pins: &MachinePins, tool_dirs: &StrMap<String>, scans: &StrMap<ToolScan>, st: PathStyle) -> (r: Option<
    String,
>)
    requires
        tool_dirs.wf(),
        scans.wf(),
    ensures
        r is None <==> first_unsafe(st, checked_ids(pins.entries(), tool_dirs.keys(), scans.view())) is None,
        r matches Some(s) ==> first_unsafe(st, checked_ids(pins.entries(), tool_dirs.keys(), scans.view())) == Some(s@),
{
    let ghost es = pins.entries();
    let ghost tools = tool_dirs.keys();
    let ghost sv = scans.view();
    let ghost heads = es.map_values(|e: EntryView| e.0);
    let ghost ids = checked_ids(es, tools, sv);
    proof {
        lemma_manifest_ids_prefix(tools, sv, 0, tools.len() as int);
        assert(tools.take(tools.len() as int) == tools);
        assert(tools.take(0) == Seq::<Seq<char>>::empty());
    }
    let mut i: usize = 0;
    while i < pins.pins.len()
        invariant
            es == pins.entries(),
            heads == es.map_values(|e: EntryView| e.0),
            ids == heads + manifest_ids(tools, sv),
            ids == checked_ids(pins.entries(), tool_dirs.keys(), scans.view()),
            i <= es.len(),
            forall|j: int| 0 <= j < i ==> is_safe_skill_id(st, #[trigger] ids[j]),
        decreases pins.pins.len() - i,
    {
        assert(ids[i as int] == pins.pins@[i as int].skill@);
        if !check_skill_id(pins.pins[i].skill.as_str(), st) {
            proof {
                lemma_first_unsafe_at(st, ids, i as int);
            }
            return Some(pins.pins[i].skill.clone());
        }
        i = i + 1;
    }
    assert(tools.take(0) == Seq::<Seq<char>>::empty());
    assert(manifest_ids(tools.take(0), sv) == Seq::<Seq<char>>::empty());
    let mut ti: usize = 0;
    while ti < tool_dirs.len()
        invariant
            tool_dirs.wf(),
            scans.wf(),
            tools == tool_dirs.keys(),
            sv == scans.view(),
            es == pins.entries(),
            heads == es.map_values(|e: EntryView| e.0),
            ids == heads + manifest_ids(tools, sv),
            ids == checked_ids(pins.entries(), tool_dirs.keys(), scans.view()),
            ti <= tools.len(),
            forall|j: int| 0 <= j < heads.len() + manifest_ids(tools.take(ti as int), sv).len() ==> is_safe_skill_id(st, #[trigger] ids[j]),
        decreases tools.len() - ti,
    {
        let t = tool_dirs.key_at(ti);
        proof {
            lemma_manifest_ids_step(tools, sv, ti as int);
            lemma_manifest_ids_prefix(tools, sv, ti + 1, tools.len() as int);
            assert(tools.take(tools.len() as int) == tools);
            scans.lemma_view();
        }
        let ghost pre = manifest_ids(tools.take(ti as int), sv);
        let ghost ms = scan_manifests(sv, tools[ti as int]);
        match scans.get(t.as_str()) {
            Some(scan) => {
                assert(ms == scan.manifests_view());
                let mut j: usize = 0;
                while j < scan.manifests.len()
                    invariant
                        ids == heads + manifest_ids(tools, sv),
                        ids == checked_ids(pins.entries(), tool_dirs.keys(), scans.view()),
                        manifest_ids(tools.take(ti + 1), sv) == pre + ms.map_values(|m: (Seq<char>, Seq<char>)| m.0),
                        manifest_ids(tools, sv).take(manifest_ids(tools.take(ti + 1), sv).len() as int) == manifest_ids(tools.take(ti + 1), sv),
                        manifest_ids(tools.take(ti + 1), sv).len() <= manifest_ids(tools, sv).len(),
                        ms == scan.manifests_view(),
                        j <= scan.manifests@.len(),
                        forall|k: int| 0 <= k < heads.len() + pre.len() + j ==> is_safe_skill_id(st, #[trigger] ids[k]),
                    decreases scan.manifests.len() - j,
                {
                    let ghost p: int = heads.len() + pre.len() + j;
                    assert(ids[p] == scan.manifests@[j as int].skill@) by {
                        let mi = manifest_ids(tools.take(ti + 1), sv);
                        assert(mi[pre.len() + j] == ms[j as int].0);
                        assert(manifest_ids(tools, sv)[pre.len() + j] == mi[pre.len() + j]);
                    }
                    if !check_skill_id(scan.manifests[j].skill.as_str(), st) {
                        proof {
                            lemma_first_unsafe_at(st, ids, p);
                        }
                        return Some(scan.manifests[j].skill.clone());
                    }
                    j = j + 1;
                }
            },
            None => {
                assert(ms == Seq::<(Seq<char>, Seq<char>)>::empty());
                assert(manifest_ids(tools.take(ti + 1), sv) =~= pre);
            },
        }
        ti = ti + 1;
    }
    proof {
        assert(tools.take(tools.len() as int) == tools);
        lemma_all_safe(st, ids);
    }
    None
}

/// What planning answers, under the path rules of `st`: the first unsafe
/// skill id, in check order, refuses the plan; with none, the plan is
/// [`spec_plan`].
pub open spec fn sync_outcome(
    st: PathStyle,
    es: Seq<EntryView>,
    tools: Seq<Seq<char>>,
    dirs: Map<Seq<char>, String>,
    scans: Map<Seq<char>, ToolScan>,
    r: Result<Vec<PlanAction>, PinError>,
) -> bool {
    match first_unsafe(st, checked_ids(es, tools, scans)) {
        Some(id) => r matches Err(PinError::UnsafeSkillId(s)) && s@ == id,
        None => r matches Ok(plan) && plan@.map_values(|a: PlanAction| a.view()) == spec_plan(st, 
            tools,
            dirs,
            es,
            scans,
        ),
    }
}

/// Diffs the desired pins against the scanned state of the tool skill
/// directories, reading skill ids under the path rules of the platform this
/// program runs on (see [`plan_sync_in`]).
pub fn plan_sync(pins: &MachinePins, tool_dirs: &StrMap<String>, scans: &StrMap<ToolScan>) -> (r: Result<
    Vec<PlanAction>,
    PinError,
>)
    requires
        pins.wf(),
        tool_dirs.wf(),
        scans.wf(),
    ensures
        sync_outcome(PathStyle::Unix, pins.entries(), tool_dirs.keys(), tool_dirs.view(), scans.view(), r)
            || sync_outcome(PathStyle::Windows, pins.entries(), tool_dirs.keys(), tool_dirs.view(), scans.view(), r),
{
    plan_sync_in(pins, tool_dirs, scans, host_path_style())
}

/// Diffs the desired pins against the scanned state of the tool skill
/// directories. `tool_dirs` maps each tool to its skills directory;
/// `scans[tool]` is what a scan of that directory found (a tool without a
/// scan is treated as an empty directory).
///
/// Every skill id becomes a path component under a tool directory and a
/// later remove step deletes that path, so any id that is not a single plain
/// name under the path rules of `st` refuses the whole plan.
pub fn plan_sync_in(pins: &MachinePins, tool_dirs: &StrMap<String>, scans: &StrMap<ToolScan>, st: PathStyle) -> (r:
    Result<Vec<PlanAction>, PinError>)
    requires
        pins.wf(),
        tool_dirs.wf(),
        scans.wf(),
    ensures
        sync_outcome(st, pins.entries(), tool_dirs.keys(), tool_dirs.view(), scans.view(), r),
{
    match find_unsafe(pins, tool_dirs, scans, st) {
        Some(s) => {
            return Err(PinError::UnsafeSkillId(s));
        },
        None => {},
    }
    let ghost es = pins.entries();
    let ghost tools = tool_dirs.keys();
    let ghost sv = scans.view();
    let ghost dv = tool_dirs.view();
    let mut installs: Vec<PlanAction> = Vec::new();
    let mut removes: Vec<PlanAction> = Vec::new();
    let empty_present: Vec<String> = Vec::new();
    let empty_manifests: Vec<ManagedManifest> = Vec::new();
    proof {
        tool_dirs.lemma_view();
        scans.lemma_view();
        assert(tools.take(0) == Seq::<Seq<char>>::empty());
    }
    let mut ti: usize = 0;
    while ti < tool_dirs.len()
        invariant
            pins.wf(),
            tool_dirs.wf(),
            scans.wf(),
            es == pins.entries(),
            tools == tool_dirs.keys(),
            sv == scans.view(),
            dv == tool_dirs.view(),
            forall|i: int| 0 <= i < tools.len() ==> dv[#[trigger] tools[i]] == tool_dirs.vals()[i],
            forall|k: Seq<char>| scans.view().contains_key(k) <==> scans.keys().contains(k),
            empty_present@.len() == 0,
            empty_manifests@.len() == 0,
            ti <= tools.len(),
            installs@.map_values(|a: PlanAction| a.view()) == plan_installs(st, tools.take(ti as int), dv, es, sv),
            removes@.map_values(|a: PlanAction| a.view()) == plan_removes(st, tools.take(ti as int), dv, es, sv),
        decreases tools.len() - ti,
    {
        let t = tool_dirs.key_at(ti);
        let dir = tool_dirs.value_at(ti);
        assert(dv[t@] == *dir);
        let d = desired_map(pins, t.as_str());
        let ghost dd = desired_for(es, t@);
        let (present, manifests) = match scans.get(t.as_str()) {
            Some(sc) => (&sc.present, &sc.manifests),
            None => (&empty_present, &empty_manifests),
        };
        assert(present@.map_values(|x: String| x@) == scan_present(sv, t@));
        assert(manifests@.map_values(|x: ManagedManifest| (x.skill@, x.version@)) == scan_manifests(sv, t@));
        let m = managed_map(manifests);
        let ghost mm = managed_for(scan_manifests(sv, t@));
        let ghost pp = scan_present(sv, t@);
        let ghost before_i = installs@.map_values(|a: PlanAction| a.view());
        let ghost before_r = removes@.map_values(|a: PlanAction| a.view());
        proof {
            d.lemma_view();
            m.lemma_view();
            d.lemma_lens();
            m.lemma_lens();
            assert(d.keys().take(0) == Seq::<Seq<char>>::empty());
            assert(m.keys().take(0) == Seq::<Seq<char>>::empty());
        }
        let mut j: usize = 0;
        while j < d.len()
            invariant
                d.wf(),
                m.wf(),
                agrees_desired(d.view(), dd),
                agrees_managed(m.view(), mm),
                pp == present@.map_values(|x: String| x@),
                forall|i: int| 0 <= i < d.keys().len() ==> d.view()[#[trigger] d.keys()[i]] == d.vals()[i],
                forall|k: Seq<char>| d.view().contains_key(k) <==> d.keys().contains(k),
                d.keys().len() == d.vals().len(),
                j <= d.keys().len(),
                installs@.map_values(|a: PlanAction| a.view()) == before_i + install_steps(st, d.keys().take(j as int), t@, dir@, dd, mm, pp),
            decreases d.keys().len() - j,
        {
            let s = d.key_at(j);
            let vs = d.value_at(j);
            let target = join_path_in(dir.as_str(), s.as_str(), st);
            let ghost ks = d.keys().take(j + 1);
            assert(ks.drop_last() == d.keys().take(j as int));
            assert(ks.last() == s@);
            assert(d.keys().contains(s@));
            assert(d.view().contains_key(s@));
            assert(d.view()[s@] == *vs);
            assert(dd[s@] == (vs.0@, vs.1@));
            let ghost prev = installs@.map_values(|a: PlanAction| a.view());
            assert(prev == before_i + install_steps(st, d.keys().take(j as int), t@, dir@, dd, mm, pp));
            let step: Option<PlanAction> = match m.get(s.as_str()) {
                Some(mv) => {
                    assert(m.view().contains_key(s@));
                    assert(mm.contains_key(s@));
                    assert(mm[s@] == mv@);
                    if !crate::paths::str_eq(mv.as_str(), vs.0.as_str()) {
                        Some(
                            PlanAction::Update {
                                skill: s.clone(),
                                from_version: mv.clone(),
                                to_version: vs.0.clone(),
                                tool: t.clone(),
                                target,
                                strategy: vs.1.clone(),
                            },
                        )
                    } else {
                        None
                    }
                },
                None => {
                    assert(!mm.contains_key(s@));
                    if contains_str(present, s.as_str()) {
                        Some(PlanAction::Conflict { skill: s.clone(), tool: t.clone(), target })
                    } else {
                        Some(
                            PlanAction::Install {
                                skill: s.clone(),
                                version: vs.0.clone(),
                                tool: t.clone(),
                                target,
                                strategy: vs.1.clone(),
                            },
                        )
                    }
                },
            };
            let ghost tail = install_steps(st, d.keys().take(j as int), t@, dir@, dd, mm, pp);
            assert(match step {
                Some(a) => install_steps(st, ks, t@, dir@, dd, mm, pp) == tail.push(a.view()),
                None => install_steps(st, ks, t@, dir@, dd, mm, pp) == tail,
            });
            match step {
                Some(a) => {
                    let ghost av = a.view();
                    installs.push(a);
                    assert(installs@.map_values(|a: PlanAction| a.view()) =~= prev.push(av));
                },
                None => {},
            }
            assert(installs@.map_values(|a: PlanAction| a.view()) =~= before_i + install_steps(st, ks, t@, dir@, dd, mm, pp));
            j = j + 1;
        }
        let mut j: usize = 0;
        while j < m.len()
            invariant
                d.wf(),
                m.wf(),
                agrees_desired(d.view(), dd),
                forall|i: int| 0 <= i < m.keys().len() ==> m.view()[#[trigger] m.keys()[i]] == m.vals()[i],
                m.keys().len() == m.vals().len(),
                j <= m.keys().len(),
                removes@.map_values(|a: PlanAction| a.view()) == before_r + remove_steps(st, m.keys().take(j as int), t@, dir@, dd),
            decreases m.keys().len() - j,
        {
            let s = m.key_at(j);
            let ghost ks = m.keys().take(j + 1);
            assert(ks.drop_last() == m.keys().take(j as int));
            assert(ks.last() == s@);
            let ghost prev = removes@.map_values(|a: PlanAction| a.view());
            assert(d.view().contains_key(s@) == dd.contains_key(s@));
            if !d.contains_key(s.as_str()) {
                let target = join_path_in(dir.as_str(), s.as_str(), st);
                let a = PlanAction::Remove { skill: s.clone(), tool: t.clone(), target };
                let ghost av = a.view();
                assert(remove_steps(st, ks, t@, dir@, dd) == remove_steps(st, m.keys().take(j as int), t@, dir@, dd).push(av));
                removes.push(a);
                assert(removes@.map_values(|a: PlanAction| a.view()) =~= prev.push(av));
            }
            assert(removes@.map_values(|a: PlanAction| a.view()) =~= before_r + remove_steps(st, ks, t@, dir@, dd));
            j = j + 1;
        }
        proof {
            assert(d.keys().take(d.keys().len() as int) == d.keys());
            assert(m.keys().take(m.keys().len() as int) == m.keys());
            d.lemma_sorted_keys();
            m.lemma_sorted_keys();
            assert(d.view().dom() == dd.dom());
            assert(m.view().dom() == mm.dom());
            let tk = tools.take(ti + 1);
            assert(tk.drop_last() == tools.take(ti as int));
            assert(tk.last() == t@);
        }
        ti = ti + 1;
    }
    proof {
        assert(tools.take(tools.len() as int) == tools);
    }
    let ghost iv = installs@.map_values(|a: PlanAction| a.view());
    let ghost rv = removes@.map_values(|a: PlanAction| a.view());
    installs.append(&mut removes);
    assert(installs@.map_values(|a: PlanAction| a.view()) =~= iv + rv);
    Ok(installs)
}

proof fn lemma_desired_finite(es: Seq<EntryView>, tool: Seq<char>)
    ensures
        desired_for(es, tool).dom().finite(),
    decreases es.len(),
{
    if es.len() > 0 {
        lemma_desired_finite(es.drop_last(), tool);
    }
}

proof fn lemma_managed_finite(ms: Seq<(Seq<char>, Seq<char>)>)
    ensures
        managed_for(ms).dom().finite(),
    decreases ms.len(),
{
    if ms.len() > 0 {
        lemma_managed_finite(ms.drop_last());
    }
}

/// The managed installs of a tool are exactly what its enabled pins want.
pub open spec fn tool_converged(d: Map<Seq<char>, (Seq<char>, Seq<char>)>, m: Map<Seq<char>, Seq<char>>) -> bool {
    &&& m.dom() == d.dom()
    &&& forall|s: Seq<char>| #[trigger] d.contains_key(s) ==> m[s] == d[s].0
}

/// Every tool's managed installs are exactly what its enabled pins want.
pub open spec fn converged(tools: Seq<Seq<char>>, es: Seq<EntryView>, scans: Map<Seq<char>, ToolScan>) -> bool {
    forall|i: int| 0 <= i < tools.len() ==> tool_converged(
        desired_for(es, #[trigger] tools[i]),
        managed_for(scan_manifests(scans, tools[i])),
    )
}

proof fn lemma_install_steps_empty(
    st: PathStyle,
    ks: Seq<Seq<char>>,
    tool: Seq<char>,
    dir: Seq<char>,
    d: Map<Seq<char>, (Seq<char>, Seq<char>)>,
    m: Map<Seq<char>, Seq<char>>,
    present: Seq<Seq<char>>,
)
    requires
        tool_converged(d, m),
        forall|j: int| 0 <= j < ks.len() ==> d.contains_key(#[trigger] ks[j]),
    ensures
        install_steps(st, ks, tool, dir, d, m, present) == Seq::<StepView>::empty(),
    decreases ks.len(),
{
    if ks.len() > 0 {
        let k = ks.last();
        assert(d.contains_key(ks[ks.len() - 1]));
        assert(m.contains_key(k));
        lemma_install_steps_empty(st, ks.drop_last(), tool, dir, d, m, present);
    }
}

proof fn lemma_remove_steps_empty(st: PathStyle, ks: Seq<Seq<char>>, tool: Seq<char>, dir: Seq<char>, d: Map<Seq<char>, (Seq<char>, Seq<char>)>)
    requires
        forall|j: int| 0 <= j < ks.len() ==> d.contains_key(#[trigger] ks[j]),
    ensures
        remove_steps(st, ks, tool, dir, d) == Seq::<StepView>::empty(),
    decreases ks.len(),
{
    if ks.len() > 0 {
        assert(d.contains_key(ks[ks.len() - 1]));
        lemma_remove_steps_empty(st, ks.drop_last(), tool, dir, d);
    }
}

/// A converged machine has nothing to do: when every tool's managed
/// installs are exactly what its enabled pins want, the plan is empty.
pub proof fn law_converged_plan_is_empty(
    st: PathStyle,
    tools: Seq<Seq<char>>,
    dirs: Map<Seq<char>, String>,
    es: Seq<EntryView>,
    scans: Map<Seq<char>, ToolScan>,
)
    requires
        converged(tools, es, scans),
    ensures
        spec_plan(st, tools, dirs, es, scans) == Seq::<StepView>::empty(),
    decreases tools.len(),
{
    if tools.len() > 0 {
        let t = tools.last();
        let d = desired_for(es, t);
        let m = managed_for(scan_manifests(scans, t));
        let pre = tools.drop_last();
        assert(converged(pre, es, scans)) by {
            assert forall|i: int| 0 <= i < pre.len() implies tool_converged(
                desired_for(es, #[trigger] pre[i]),
                managed_for(scan_manifests(scans, pre[i])),
            ) by {
                assert(pre[i] == tools[i]);
            }
        }
        law_converged_plan_is_empty(st, pre, dirs, es, scans);
        assert(tool_converged(d, m)) by {
            assert(tools[tools.len() - 1] == t);
        }
        lemma_desired_finite(es, t);
        lemma_managed_finite(scan_manifests(scans, t));
        crate::strmap::lemma_sorted_keys_exist(d.dom());
        crate::strmap::lemma_sorted_keys_exist(m.dom());
        let dk = sorted_keys(d.dom());
        let mk = sorted_keys(m.dom());
        assert forall|j: int| 0 <= j < dk.len() implies d.contains_key(#[trigger] dk[j]) by {
            assert(dk.contains(dk[j]));
        }
        assert forall|j: int| 0 <= j < mk.len() implies d.contains_key(#[trigger] mk[j]) by {
            assert(mk.contains(mk[j]));
            assert(m.dom().contains(mk[j]));
        }
        lemma_install_steps_empty(st, dk, t, dirs[t]@, d, m, scan_present(scans, t));
        lemma_remove_steps_empty(st, mk, t, dirs[t]@, d);
        assert(plan_installs(st, tools, dirs, es, scans) =~= Seq::<StepView>::empty());
        assert(plan_removes(st, tools, dirs, es, scans) =~= Seq::<StepView>::empty());
    }
}

/// A step that fits the state of its tool: every target is the skill's
/// directory under the tool's directory; an install goes only where nothing
/// is, a conflict only where something unmanaged is, and an update or a
/// remove only where a manifest says the install is ours.
pub open spec fn step_fits(
    st: PathStyle,
    a: StepView,
    tool: Seq<char>,
    dir: Seq<char>,
    d: Map<Seq<char>, (Seq<char>, Seq<char>)>,
    m: Map<Seq<char>, Seq<char>>,
    present: Seq<Seq<char>>,
) -> bool {
    match a {
        StepView::Install { skill, version, tool: t, target, strategy } => {
            &&& t == tool
            &&& target == path_join(st, dir, skill)
            &&& d.contains_key(skill) && d[skill] == (version, strategy)
            &&& !m.contains_key(skill)
            &&& !present.contains(skill)
        },
        StepView::Update { skill, from_version, to_version, tool: t, target, strategy } => {
            &&& t == tool
            &&& target == path_join(st, dir, skill)
            &&& d.contains_key(skill) && d[skill] == (to_version, strategy)
            &&& m.contains_key(skill) && m[skill] == from_version
            &&& from_version != to_version
        },
        StepView::Conflict { skill, tool: t, target } => {
            &&& t == tool
            &&& target == path_join(st, dir, skill)
            &&& d.contains_key(skill)
            &&& !m.contains_key(skill)
            &&& present.contains(skill)
        },
        StepView::Remove { skill, tool: t, target } => {
            &&& t == tool
            &&& target == path_join(st, dir, skill)
            &&& m.contains_key(skill)
            &&& !d.contains_key(skill)
        },
    }
}

/// The tool a step is for fits it, and is one of the planned tools.
pub open spec fn step_fits_plan(
    st: PathStyle,
    a: StepView,
    tools: Seq<Seq<char>>,
    dirs: Map<Seq<char>, String>,
    es: Seq<EntryView>,
    scans: Map<Seq<char>, ToolScan>,
) -> bool {
    let t = step_tool(a);
    &&& tools.contains(t)
    &&& step_fits(st, a, t, dirs[t]@, desired_for(es, t), managed_for(scan_manifests(scans, t)), scan_present(scans, t))
}

proof fn lemma_install_steps_fit(
    st: PathStyle,
    ks: Seq<Seq<char>>,
    tool: Seq<char>,
    dir: Seq<char>,
    d: Map<Seq<char>, (Seq<char>, Seq<char>)>,
    m: Map<Seq<char>, Seq<char>>,
    present: Seq<Seq<char>>,
)
    requires
        forall|j: int| 0 <= j < ks.len() ==> d.contains_key(#[trigger] ks[j]),
    ensures
        forall|j: int| 0 <= j < install_steps(st, ks, tool, dir, d, m, present).len()
            ==> step_fits(st, #[trigger] install_steps(st, ks, tool, dir, d, m, present)[j], tool, dir, d, m, present),
    decreases ks.len(),
{
    if ks.len() > 0 {
        let pre = ks.drop_last();
        assert forall|j: int| 0 <= j < pre.len() implies d.contains_key(#[trigger] pre[j]) by {
            assert(pre[j] == ks[j]);
        }
        lemma_install_steps_fit(st, pre, tool, dir, d, m, present);
        assert(d.contains_key(ks[ks.len() - 1]));
        let prev = install_steps(st, pre, tool, dir, d, m, present);
        let all = install_steps(st, ks, tool, dir, d, m, present);
        assert forall|j: int| 0 <= j < all.len() implies step_fits(st, #[trigger] all[j], tool, dir, d, m, present) by {
            if j < prev.len() {
                assert(all[j] == prev[j]);
            }
        }
    }
}

proof fn lemma_remove_steps_fit(
    st: PathStyle,
    ks: Seq<Seq<char>>,
    tool: Seq<char>,
    dir: Seq<char>,
    d: Map<Seq<char>, (Seq<char>, Seq<char>)>,
    m: Map<Seq<char>, Seq<char>>,
    present: Seq<Seq<char>>,
)
    requires
        forall|j: int| 0 <= j < ks.len() ==> m.contains_key(#[trigger] ks[j]),
    ensures
        forall|j: int| 0 <= j < remove_steps(st, ks, tool, dir, d).len()
            ==> step_fits(st, #[trigger] remove_steps(st, ks, tool, dir, d)[j], tool, dir, d, m, present),
    decreases ks.len(),
{
    if ks.len() > 0 {
        let pre = ks.drop_last();
        assert forall|j: int| 0 <= j < pre.len() implies m.contains_key(#[trigger] pre[j]) by {
            assert(pre[j] == ks[j]);
        }
        lemma_remove_steps_fit(st, pre, tool, dir, d, m, present);
        assert(m.contains_key(ks[ks.len() - 1]));
        let prev = remove_steps(st, pre, tool, dir, d);
        let all = remove_steps(st, ks, tool, dir, d);
        assert forall|j: int| 0 <= j < all.len() implies step_fits(st, #[trigger] all[j], tool, dir, d, m, present) by {
            if j < prev.len() {
                assert(all[j] == prev[j]);
            }
        }
    }
}

proof fn lemma_plan_parts_fit(
    st: PathStyle,
    tools: Seq<Seq<char>>,
    dirs: Map<Seq<char>, String>,
    es: Seq<EntryView>,
    scans: Map<Seq<char>, ToolScan>,
)
    ensures
        forall|j: int| 0 <= j < plan_installs(st, tools, dirs, es, scans).len()
            ==> step_fits_plan(st, #[trigger] plan_installs(st, tools, dirs, es, scans)[j], tools, dirs, es, scans),
        forall|j: int| 0 <= j < plan_removes(st, tools, dirs, es, scans).len()
            ==> step_fits_plan(st, #[trigger] plan_removes(st, tools, dirs, es, scans)[j], tools, dirs, es, scans),
    decreases tools.len(),
{
    if tools.len() > 0 {
        let t = tools.last();
        let pre = tools.drop_last();
        lemma_plan_parts_fit(st, pre, dirs, es, scans);
        let d = desired_for(es, t);
        let m = managed_for(scan_manifests(scans, t));
        let present = scan_present(scans, t);
        lemma_desired_finite(es, t);
        lemma_managed_finite(scan_manifests(scans, t));
        crate::strmap::lemma_sorted_keys_exist(d.dom());
        crate::strmap::lemma_sorted_keys_exist(m.dom());
        let dk = sorted_keys(d.dom());
        let mk = sorted_keys(m.dom());
        assert forall|j: int| 0 <= j < dk.len() implies d.contains_key(#[trigger] dk[j]) by {
            assert(dk.contains(dk[j]));
        }
        assert forall|j: int| 0 <= j < mk.len() implies m.contains_key(#[trigger] mk[j]) by {
            assert(mk.contains(mk[j]));
        }
        lemma_install_steps_fit(st, dk, t, dirs[t]@, d, m, present);
        lemma_remove_steps_fit(st, mk, t, dirs[t]@, d, m, present);
        assert(tools.contains(t)) by {
            assert(tools[tools.len() - 1] == t);
        }
        let a = plan_installs(st, pre, dirs, es, scans);
        let b = install_steps(st, dk, t, dirs[t]@, d, m, present);
        assert forall|j: int| 0 <= j < plan_installs(st, tools, dirs, es, scans).len()
            implies step_fits_plan(st, #[trigger] plan_installs(st, tools, dirs, es, scans)[j], tools, dirs, es, scans) by {
            if j < a.len() {
                assert(plan_installs(st, tools, dirs, es, scans)[j] == a[j]);
                assert(step_fits_plan(st, a[j], pre, dirs, es, scans));
                let k = choose|k: int| 0 <= k < pre.len() && pre[k] == step_tool(a[j]);
                assert(tools[k] == pre[k]);
            } else {
                assert(plan_installs(st, tools, dirs, es, scans)[j] == b[j - a.len()]);
                assert(step_fits(st, b[j - a.len()], t, dirs[t]@, d, m, present));
            }
        }
        let c = plan_removes(st, pre, dirs, es, scans);
        let e = remove_steps(st, mk, t, dirs[t]@, d);
        assert forall|j: int| 0 <= j < plan_removes(st, tools, dirs, es, scans).len()
            implies step_fits_plan(st, #[trigger] plan_removes(st, tools, dirs, es, scans)[j], tools, dirs, es, scans) by {
            if j < c.len() {
                assert(plan_removes(st, tools, dirs, es, scans)[j] == c[j]);
                assert(step_fits_plan(st, c[j], pre, dirs, es, scans));
                let k = choose|k: int| 0 <= k < pre.len() && pre[k] == step_tool(c[j]);
                assert(tools[k] == pre[k]);
            } else {
                assert(plan_removes(st, tools, dirs, es, scans)[j] == e[j - c.len()]);
                assert(step_fits(st, e[j - c.len()], t, dirs[t]@, d, m, present));
            }
        }
    }
}

/// The planner only ever touches what is ours: every step's target is the
/// skill's directory under its tool's directory; an update or a remove
/// only where a manifest says the install is ours; an install only where
/// nothing is; an unmanaged occupant only ever yields a conflict.
pub proof fn law_plan_touches_only_managed(
    st: PathStyle,
    tools: Seq<Seq<char>>,
    dirs: Map<Seq<char>, String>,
    es: Seq<EntryView>,
    scans: Map<Seq<char>, ToolScan>,
)
    ensures
        forall|j: int| 0 <= j < spec_plan(st, tools, dirs, es, scans).len()
            ==> step_fits_plan(st, #[trigger] spec_plan(st, tools, dirs, es, scans)[j], tools, dirs, es, scans),
{
    lemma_plan_parts_fit(st, tools, dirs, es, scans);
    let a = plan_installs(st, tools, dirs, es, scans);
    let b = plan_removes(st, tools, dirs, es, scans);
    assert forall|j: int| 0 <= j < spec_plan(st, tools, dirs, es, scans).len()
        implies step_fits_plan(st, #[trigger] spec_plan(st, tools, dirs, es, scans)[j], tools, dirs, es, scans) by {
        if j < a.len() {
            assert(spec_plan(st, tools, dirs, es, scans)[j] == a[j]);
        } else {
            assert(spec_plan(st, tools, dirs, es, scans)[j] == b[j - a.len()]);
        }
    }
}

/// The skill a plan step is about.
pub open spec fn step_skill(a: StepView) -> Seq<char> {
    match a {
        StepView::Install { skill, .. } => skill,
        StepView::Update { skill, .. } => skill,
        StepView::Remove { skill, .. } => skill,
        StepView::Conflict { skill, .. } => skill,
    }
}

/// The tool a plan step is about.
pub open spec fn step_tool(a: StepView) -> Seq<char> {
    match a {
        StepView::Install { tool, .. } => tool,
        StepView::Update { tool, .. } => tool,
        StepView::Remove { tool, .. } => tool,
        StepView::Conflict { tool, .. } => tool,
    }
}

/// What carrying out one plan step takes on disk.
#[derive(Debug, Clone)]
pub enum ApplyStep {
    /// Sync `version` of `skill` from the basin to `target` with `strategy`,
    /// then write its managed manifest.
    Install { skill: String, version: String, tool: String, target: String, strategy: String },
    /// Delete the managed install at `target` and its manifest.
    Remove { target: String },
    /// Touch nothing: an unmanaged directory occupies `target`.
    Refuse { target: String },
}

/// `s` is what carrying out `a` takes: an update installs the new version
/// over the old one.
pub open spec fn is_step_for(s: ApplyStep, a: StepView) -> bool {
    match a {
        StepView::Install { skill, version, tool, target, strategy } => s matches ApplyStep::Install {
            skill: s2,
            version: v2,
            tool: t2,
            target: g2,
            strategy: st2,
        } && s2@ == skill && v2@ == version && t2@ == tool && g2@ == target && st2@ == strategy,
        StepView::Update { skill, to_version, tool, target, strategy, .. } => s matches ApplyStep::Install {
            skill: s2,
            version: v2,
            tool: t2,
            target: g2,
            strategy: st2,
        } && s2@ == skill && v2@ == to_version && t2@ == tool && g2@ == target && st2@ == strategy,
        StepView::Remove { target, .. } => s matches ApplyStep::Remove { target: g2 } && g2@ == target,
        StepView::Conflict { target, .. } => s matches ApplyStep::Refuse { target: g2 } && g2@ == target,
    }
}

/// What carrying out `action` takes.
pub fn apply_step(action: &PlanAction) -> (s: ApplyStep)
    ensures
        is_step_for(s, action@),
{
    match action {
        PlanAction::Install { skill, version, tool, target, strategy } => ApplyStep::Install {
            skill: skill.clone(),
            version: version.clone(),
            tool: tool.clone(),
            target: target.clone(),
            strategy: strategy.clone(),
        },
        PlanAction::Update { skill, to_version, tool, target, strategy, .. } => ApplyStep::Install {
            skill: skill.clone(),
            version: to_version.clone(),
            tool: tool.clone(),
            target: target.clone(),
            strategy: strategy.clone(),
        },
        PlanAction::Remove { target, .. } => ApplyStep::Remove { target: target.clone() },
        PlanAction::Conflict { target, .. } => ApplyStep::Refuse { target: target.clone() },
    }
}

/// The outcome of one plan action.
#[derive(Debug, Clone)]
pub struct ApplyResult {
    pub skill: String,
    pub tool: String,
    pub ok: bool,
    pub error: Option<String>,
    /// A non-fatal advisory attached after a successful sync. The sync
    /// itself never sets it.
    pub warning: Option<String>,
}

/// `r` reports `outcome` for the action `a`.
pub open spec fn reports(r: ApplyResult, a: StepView, outcome: Result<(), String>) -> bool {
    &&& r.skill@ == step_skill(a)
    &&& r.tool@ == step_tool(a)
    &&& r.ok == (outcome is Ok)
    &&& r.error == match outcome {
        Ok(_) => None,
        Err(e) => Some(e),
    }
    &&& r.warning is None
}

fn action_skill_tool(action: &PlanAction) -> (r: (String, String))
    ensures
        r.0@ == step_skill(action@),
        r.1@ == step_tool(action@),
{
    match action {
        PlanAction::Install { skill, tool, .. } => (skill.clone(), tool.clone()),
        PlanAction::Update { skill, tool, .. } => (skill.clone(), tool.clone()),
        PlanAction::Remove { skill, tool, .. } => (skill.clone(), tool.clone()),
        PlanAction::Conflict { skill, tool, .. } => (skill.clone(), tool.clone()),
    }
}

/// The result of one plan action, given how carrying it out went.
pub fn apply_result(action: &PlanAction, outcome: Result<(), String>) -> (r: ApplyResult)
    ensures
        reports(r, action@, outcome),
{
    let (skill, tool) = action_skill_tool(action);
    let ok = outcome.is_ok();
    let error = match outcome {
        Ok(_) => None,
        Err(e) => Some(e),
    };
    ApplyResult { skill, tool, ok, error, warning: None }
}

/// One result per plan action, in plan order: a failed action is reported
/// and never stops the ones after it.
pub fn apply_results(plan: &Vec<PlanAction>, outcomes: Vec<Result<(), String>>) -> (rs: Vec<ApplyResult>)
    requires
        outcomes@.len() == plan@.len(),
    ensures
        rs@.len() == plan@.len(),
        forall|i: int| 0 <= i < plan@.len() ==> reports(#[trigger] rs@[i], plan@[i]@, outcomes@[i]),
{
    let ghost outs = outcomes@;
    let mut outcomes = outcomes;
    let mut rs: Vec<ApplyResult> = Vec::new();
    let mut i: usize = 0;
    while i < plan.len()
        invariant
            outs.len() == plan@.len(),
            i <= plan@.len(),
            outcomes@ == outs.subrange(i as int, outs.len() as int),
            rs@.len() == i,
            forall|j: int| 0 <= j < i ==> reports(#[trigger] rs@[j], plan@[j]@, outs[j]),
        decreases plan.len() - i,
    {
        let o = outcomes.remove(0);
        rs.push(apply_result(&plan[i], o));
        i = i + 1;
    }
    rs
}

/// What a carried-out step leaves of `tool`'s managed installs (the skill
/// ids its sibling manifests name, with their versions): an install or an
/// update ([`ApplyStep::Install`]) writes the manifest of the version it
/// put there, a remove ([`ApplyStep::Remove`]) deletes the skill's; a
/// refused step, and a step for another tool, changes nothing.
pub open spec fn after_step(m: Map<Seq<char>, Seq<char>>, tool: Seq<char>, s: StepView) -> Map<Seq<char>, Seq<char>> {
    match s {
        StepView::Install { skill, version, tool: t, .. } => if t == tool {
            m.insert(skill, version)
        } else {
            m
        },
        StepView::Update { skill, to_version, tool: t, .. } => if t == tool {
            m.insert(skill, to_version)
        } else {
            m
        },
        StepView::Remove { skill, tool: t, .. } => if t == tool {
            m.remove(skill)
        } else {
            m
        },
        StepView::Conflict { .. } => m,
    }
}

/// What carrying out `steps` in order leaves of `tool`'s managed installs.
pub open spec fn after_steps(m: Map<Seq<char>, Seq<char>>, tool: Seq<char>, steps: Seq<StepView>) -> Map<
    Seq<char>,
    Seq<char>,
>
    decreases steps.len(),
{
    if steps.len() == 0 {
        m
    } else {
        after_step(after_steps(m, tool, steps.drop_last()), tool, steps.last())
    }
}

proof fn lemma_after_steps_concat(m: Map<Seq<char>, Seq<char>>, tool: Seq<char>, a: Seq<StepView>, b: Seq<StepView>)
    ensures
        after_steps(m, tool, a + b) == after_steps(after_steps(m, tool, a), tool, b),
    decreases b.len(),
{
    if b.len() == 0 {
        assert(a + b =~= a);
    } else {
        lemma_after_steps_concat(m, tool, a, b.drop_last());
        assert((a + b).drop_last() =~= a + b.drop_last());
        assert((a + b).last() == b.last());
    }
}

proof fn lemma_after_other_tool(m: Map<Seq<char>, Seq<char>>, tool: Seq<char>, steps: Seq<StepView>)
    requires
        forall|j: int| 0 <= j < steps.len() ==> step_tool(#[trigger] steps[j]) != tool,
    ensures
        after_steps(m, tool, steps) == m,
    decreases steps.len(),
{
    if steps.len() > 0 {
        let pre = steps.drop_last();
        assert forall|j: int| 0 <= j < pre.len() implies step_tool(#[trigger] pre[j]) != tool by {
            assert(pre[j] == steps[j]);
        }
        lemma_after_other_tool(m, tool, pre);
        assert(step_tool(steps[steps.len() - 1]) != tool);
    }
}

proof fn lemma_install_steps_tool(
    st: PathStyle,
    ks: Seq<Seq<char>>,
    tool: Seq<char>,
    dir: Seq<char>,
    d: Map<Seq<char>, (Seq<char>, Seq<char>)>,
    m: Map<Seq<char>, Seq<char>>,
    present: Seq<Seq<char>>,
)
    ensures
        forall|j: int| 0 <= j < install_steps(st, ks, tool, dir, d, m, present).len()
            ==> step_tool(#[trigger] install_steps(st, ks, tool, dir, d, m, present)[j]) == tool,
    decreases ks.len(),
{
    if ks.len() > 0 {
        let all = install_steps(st, ks, tool, dir, d, m, present);
        let prev = install_steps(st, ks.drop_last(), tool, dir, d, m, present);
        lemma_install_steps_tool(st, ks.drop_last(), tool, dir, d, m, present);
        assert forall|j: int| 0 <= j < all.len() implies step_tool(#[trigger] all[j]) == tool by {
            if j < prev.len() {
                assert(all[j] == prev[j]);
            }
        }
    }
}

proof fn lemma_remove_steps_tool(
    st: PathStyle,
    ks: Seq<Seq<char>>,
    tool: Seq<char>,
    dir: Seq<char>,
    d: Map<Seq<char>, (Seq<char>, Seq<char>)>,
)
    ensures
        forall|j: int| 0 <= j < remove_steps(st, ks, tool, dir, d).len()
            ==> step_tool(#[trigger] remove_steps(st, ks, tool, dir, d)[j]) == tool,
    decreases ks.len(),
{
    if ks.len() > 0 {
        let all = remove_steps(st, ks, tool, dir, d);
        let prev = remove_steps(st, ks.drop_last(), tool, dir, d);
        lemma_remove_steps_tool(st, ks.drop_last(), tool, dir, d);
        assert forall|j: int| 0 <= j < all.len() implies step_tool(#[trigger] all[j]) == tool by {
            if j < prev.len() {
                assert(all[j] == prev[j]);
            }
        }
    }
}

/// A desired skill whose managed install is missing or at another version.
pub open spec fn needs_install(m0: Map<Seq<char>, Seq<char>>, d: Map<Seq<char>, (Seq<char>, Seq<char>)>, s: Seq<char>) -> bool {
    !(m0.contains_key(s) && m0[s] == d[s].0)
}

proof fn lemma_installs_apply(
    st: PathStyle,
    ks: Seq<Seq<char>>,
    tool: Seq<char>,
    dir: Seq<char>,
    d: Map<Seq<char>, (Seq<char>, Seq<char>)>,
    m0: Map<Seq<char>, Seq<char>>,
    present: Seq<Seq<char>>,
    m: Map<Seq<char>, Seq<char>>,
)
    requires
        sorted_strict(ks),
        forall|j: int| 0 <= j < install_steps(st, ks, tool, dir, d, m0, present).len()
            ==> !((#[trigger] install_steps(st, ks, tool, dir, d, m0, present)[j]) is Conflict),
    ensures
        forall|s: Seq<char>| #![trigger after_steps(m, tool, install_steps(st, ks, tool, dir, d, m0, present)).dom().contains(s)]
            ks.contains(s) && needs_install(m0, d, s) ==> after_steps(m, tool, install_steps(st, ks, tool, dir, d, m0, present)).dom().contains(s)
                && after_steps(m, tool, install_steps(st, ks, tool, dir, d, m0, present))[s] == d[s].0,
        forall|s: Seq<char>| #![trigger after_steps(m, tool, install_steps(st, ks, tool, dir, d, m0, present)).dom().contains(s)]
            !(ks.contains(s) && needs_install(m0, d, s)) ==> after_steps(m, tool, install_steps(st, ks, tool, dir, d, m0, present)).dom().contains(s)
                == m.dom().contains(s) && (m.dom().contains(s) ==> after_steps(m, tool, install_steps(st, ks, tool, dir, d, m0, present))[s] == m[s]),
    decreases ks.len(),
{
    if ks.len() > 0 {
        let pre = ks.drop_last();
        let s0 = ks.last();
        let all = install_steps(st, ks, tool, dir, d, m0, present);
        let prev = install_steps(st, pre, tool, dir, d, m0, present);
        assert(sorted_strict(pre)) by {
            assert forall|i: int, j: int| 0 <= i < j < pre.len() implies str_lt(#[trigger] pre[i], #[trigger] pre[j]) by {
                assert(pre[i] == ks[i] && pre[j] == ks[j]);
            }
        }
        assert forall|j: int| 0 <= j < prev.len() implies !((#[trigger] prev[j]) is Conflict) by {
            assert(all[j] == prev[j]);
        }
        lemma_installs_apply(st, pre, tool, dir, d, m0, present, m);
        assert(!pre.contains(s0)) by {
            if pre.contains(s0) {
                let i = choose|i: int| 0 <= i < pre.len() && pre[i] == s0;
                assert(str_lt(ks[i], ks[ks.len() - 1]));
                crate::strmap::lemma_str_lt_irreflexive(s0);
            }
        }
        assert forall|s: Seq<char>| s != s0 implies (#[trigger] ks.contains(s)) == pre.contains(s) by {
            if ks.contains(s) {
                let i = choose|i: int| 0 <= i < ks.len() && ks[i] == s;
                assert(i < ks.len() - 1);
                assert(pre[i] == s);
            }
            if pre.contains(s) {
                let i = choose|i: int| 0 <= i < pre.len() && pre[i] == s;
                assert(ks[i] == s);
            }
        }
        assert(ks.contains(s0)) by {
            assert(ks[ks.len() - 1] == s0);
        }
        let r_pre = after_steps(m, tool, prev);
        if all.len() > prev.len() {
            assert(all == prev.push(all.last()));
            assert(all.drop_last() =~= prev);
            assert(!(all[all.len() - 1] is Conflict));
            assert(step_tool(all.last()) == tool);
        }
        let r = after_steps(m, tool, all);
        assert forall|s: Seq<char>| ks.contains(s) && needs_install(m0, d, s) implies #[trigger] r.dom().contains(s)
            && r[s] == d[s].0 by {
            if s != s0 {
                assert(pre.contains(s));
                assert(r_pre.dom().contains(s));
            }
        }
        assert forall|s: Seq<char>| !(ks.contains(s) && needs_install(m0, d, s)) implies (#[trigger] r.dom().contains(s))
            == m.dom().contains(s) && (m.dom().contains(s) ==> r[s] == m[s]) by {
            assert(r_pre.dom().contains(s) == m.dom().contains(s));
        }
    }
}

proof fn lemma_removes_apply(
    st: PathStyle,
    ks: Seq<Seq<char>>,
    tool: Seq<char>,
    dir: Seq<char>,
    d: Map<Seq<char>, (Seq<char>, Seq<char>)>,
    m: Map<Seq<char>, Seq<char>>,
)
    ensures
        forall|s: Seq<char>| #![trigger after_steps(m, tool, remove_steps(st, ks, tool, dir, d)).dom().contains(s)]
            ks.contains(s) && !d.contains_key(s) ==> !after_steps(m, tool, remove_steps(st, ks, tool, dir, d)).dom().contains(s),
        forall|s: Seq<char>| #![trigger after_steps(m, tool, remove_steps(st, ks, tool, dir, d)).dom().contains(s)]
            !(ks.contains(s) && !d.contains_key(s)) ==> after_steps(m, tool, remove_steps(st, ks, tool, dir, d)).dom().contains(s)
                == m.dom().contains(s) && (m.dom().contains(s) ==> after_steps(m, tool, remove_steps(st, ks, tool, dir, d))[s] == m[s]),
    decreases ks.len(),
{
    if ks.len() > 0 {
        let pre = ks.drop_last();
        let s0 = ks.last();
        let all = remove_steps(st, ks, tool, dir, d);
        let prev = remove_steps(st, pre, tool, dir, d);
        lemma_removes_apply(st, pre, tool, dir, d, m);
        let r_pre = after_steps(m, tool, prev);
        if all.len() > prev.len() {
            assert(all.drop_last() =~= prev);
        }
        let r = after_steps(m, tool, all);
        assert forall|s: Seq<char>| (#[trigger] ks.contains(s)) == (pre.contains(s) || s == s0) by {
            if ks.contains(s) {
                let i = choose|i: int| 0 <= i < ks.len() && ks[i] == s;
                if i < ks.len() - 1 {
                    assert(pre[i] == s);
                }
            }
            if pre.contains(s) {
                let i = choose|i: int| 0 <= i < pre.len() && pre[i] == s;
                assert(ks[i] == s);
            }
            if s == s0 {
                assert(ks[ks.len() - 1] == s0);
            }
        }
        assert forall|s: Seq<char>| ks.contains(s) && !d.contains_key(s) implies !(#[trigger] r.dom().contains(s)) by {
            assert(r_pre.dom().contains(s) == r_pre.dom().contains(s));
        }
        assert forall|s: Seq<char>| !(ks.contains(s) && !d.contains_key(s)) implies (#[trigger] r.dom().contains(s))
            == m.dom().contains(s) && (m.dom().contains(s) ==> r[s] == m[s]) by {
            assert(r_pre.dom().contains(s) == m.dom().contains(s));
        }
    }
}

proof fn lemma_tool_converges(
    st: PathStyle,
    t: Seq<char>,
    dir: Seq<char>,
    d: Map<Seq<char>, (Seq<char>, Seq<char>)>,
    m0: Map<Seq<char>, Seq<char>>,
    present: Seq<Seq<char>>,
)
    requires
        d.dom().finite(),
        m0.dom().finite(),
        forall|j: int| 0 <= j < install_steps(st, sorted_keys(d.dom()), t, dir, d, m0, present).len()
            ==> !((#[trigger] install_steps(st, sorted_keys(d.dom()), t, dir, d, m0, present)[j]) is Conflict),
    ensures
        tool_converged(
            d,
            after_steps(
                after_steps(m0, t, install_steps(st, sorted_keys(d.dom()), t, dir, d, m0, present)),
                t,
                remove_steps(st, sorted_keys(m0.dom()), t, dir, d),
            ),
        ),
{
    crate::strmap::lemma_sorted_keys_exist(d.dom());
    crate::strmap::lemma_sorted_keys_exist(m0.dom());
    let ks = sorted_keys(d.dom());
    let rk = sorted_keys(m0.dom());
    let m1 = after_steps(m0, t, install_steps(st, ks, t, dir, d, m0, present));
    let m2 = after_steps(m1, t, remove_steps(st, rk, t, dir, d));
    lemma_installs_apply(st, ks, t, dir, d, m0, present, m0);
    lemma_removes_apply(st, rk, t, dir, d, m1);
    assert forall|s: Seq<char>| #[trigger] m2.dom().contains(s) == d.dom().contains(s) by {
        assert(m1.dom().contains(s) == m1.dom().contains(s));
        assert(ks.contains(s) == d.dom().contains(s));
        assert(rk.contains(s) == m0.dom().contains(s));
    }
    assert(m2.dom() =~= d.dom());
    assert forall|s: Seq<char>| #[trigger] d.contains_key(s) implies m2[s] == d[s].0 by {
        assert(m1.dom().contains(s) == m1.dom().contains(s));
        assert(m2.dom().contains(s) == m2.dom().contains(s));
        assert(ks.contains(s));
    }
}

/// Install steps of the plan for tool `t`.
spec fn tool_installs(
    st: PathStyle,
    dirs: Map<Seq<char>, String>,
    es: Seq<EntryView>,
    scans: Map<Seq<char>, ToolScan>,
    t: Seq<char>,
) -> Seq<StepView> {
    let d = desired_for(es, t);
    install_steps(st, sorted_keys(d.dom()), t, dirs[t]@, d, managed_for(scan_manifests(scans, t)), scan_present(scans, t))
}

/// Remove steps of the plan for tool `t`.
spec fn tool_removes(
    st: PathStyle,
    dirs: Map<Seq<char>, String>,
    es: Seq<EntryView>,
    scans: Map<Seq<char>, ToolScan>,
    t: Seq<char>,
) -> Seq<StepView> {
    remove_steps(st, sorted_keys(managed_for(scan_manifests(scans, t)).dom()), t, dirs[t]@, desired_for(es, t))
}

proof fn lemma_plan_installs_for(
    st: PathStyle,
    tools: Seq<Seq<char>>,
    dirs: Map<Seq<char>, String>,
    es: Seq<EntryView>,
    scans: Map<Seq<char>, ToolScan>,
    t: Seq<char>,
    m: Map<Seq<char>, Seq<char>>,
)
    requires
        tools.no_duplicates(),
    ensures
        after_steps(m, t, plan_installs(st, tools, dirs, es, scans)) == if tools.contains(t) {
            after_steps(m, t, tool_installs(st, dirs, es, scans, t))
        } else {
            m
        },
        tools.contains(t) ==> forall|j: int| 0 <= j < tool_installs(st, dirs, es, scans, t).len()
            ==> plan_installs(st, tools, dirs, es, scans).contains(#[trigger] tool_installs(st, dirs, es, scans, t)[j]),
    decreases tools.len(),
{
    if tools.len() > 0 {
        let pre = tools.drop_last();
        let u = tools.last();
        assert(pre.no_duplicates()) by {
            assert forall|i: int, j: int| 0 <= i < pre.len() && 0 <= j < pre.len() && i != j implies pre[i] != pre[j] by {
                assert(pre[i] == tools[i] && pre[j] == tools[j]);
            }
        }
        lemma_plan_installs_for(st, pre, dirs, es, scans, t, m);
        let head = plan_installs(st, pre, dirs, es, scans);
        let tail = tool_installs(st, dirs, es, scans, u);
        assert(plan_installs(st, tools, dirs, es, scans) == head + tail);
        lemma_after_steps_concat(m, t, head, tail);
        assert forall|s: Seq<char>| s != u implies (#[trigger] tools.contains(s)) == pre.contains(s) by {
            if tools.contains(s) {
                let i = choose|i: int| 0 <= i < tools.len() && tools[i] == s;
                assert(i < tools.len() - 1);
                assert(pre[i] == s);
            }
            if pre.contains(s) {
                let i = choose|i: int| 0 <= i < pre.len() && pre[i] == s;
                assert(tools[i] == s);
            }
        }
        assert(tools.contains(u)) by {
            assert(tools[tools.len() - 1] == u);
        }
        if u == t {
            assert(!pre.contains(t)) by {
                if pre.contains(t) {
                    let i = choose|i: int| 0 <= i < pre.len() && pre[i] == t;
                    assert(tools[i] == tools[tools.len() - 1]);
                }
            }
            assert forall|j: int| 0 <= j < tail.len() implies (head + tail).contains(#[trigger] tail[j]) by {
                assert((head + tail)[head.len() + j] == tail[j]);
            }
        } else {
            lemma_install_steps_tool(st, 
                sorted_keys(desired_for(es, u).dom()),
                u,
                dirs[u]@,
                desired_for(es, u),
                managed_for(scan_manifests(scans, u)),
                scan_present(scans, u),
            );
            lemma_after_other_tool(after_steps(m, t, head), t, tail);
            if tools.contains(t) {
                let ti = tool_installs(st, dirs, es, scans, t);
                assert forall|j: int| 0 <= j < ti.len() implies (head + tail).contains(#[trigger] ti[j]) by {
                    assert(head.contains(ti[j]));
                    let k = choose|k: int| 0 <= k < head.len() && head[k] == ti[j];
                    assert((head + tail)[k] == ti[j]);
                }
            }
        }
    }
}

proof fn lemma_plan_removes_for(
    st: PathStyle,
    tools: Seq<Seq<char>>,
    dirs: Map<Seq<char>, String>,
    es: Seq<EntryView>,
    scans: Map<Seq<char>, ToolScan>,
    t: Seq<char>,
    m: Map<Seq<char>, Seq<char>>,
)
    requires
        tools.no_duplicates(),
    ensures
        after_steps(m, t, plan_removes(st, tools, dirs, es, scans)) == if tools.contains(t) {
            after_steps(m, t, tool_removes(st, dirs, es, scans, t))
        } else {
            m
        },
    decreases tools.len(),
{
    if tools.len() > 0 {
        let pre = tools.drop_last();
        let u = tools.last();
        assert(pre.no_duplicates()) by {
            assert forall|i: int, j: int| 0 <= i < pre.len() && 0 <= j < pre.len() && i != j implies pre[i] != pre[j] by {
                assert(pre[i] == tools[i] && pre[j] == tools[j]);
            }
        }
        lemma_plan_removes_for(st, pre, dirs, es, scans, t, m);
        let head = plan_removes(st, pre, dirs, es, scans);
        let tail = tool_removes(st, dirs, es, scans, u);
        assert(plan_removes(st, tools, dirs, es, scans) == head + tail);
        lemma_after_steps_concat(m, t, head, tail);
        assert forall|s: Seq<char>| s != u implies (#[trigger] tools.contains(s)) == pre.contains(s) by {
            if tools.contains(s) {
                let i = choose|i: int| 0 <= i < tools.len() && tools[i] == s;
                assert(i < tools.len() - 1);
                assert(pre[i] == s);
            }
            if pre.contains(s) {
                let i = choose|i: int| 0 <= i < pre.len() && pre[i] == s;
                assert(tools[i] == s);
            }
        }
        assert(tools.contains(u)) by {
            assert(tools[tools.len() - 1] == u);
        }
        if u == t {
            assert(!pre.contains(t)) by {
                if pre.contains(t) {
                    let i = choose|i: int| 0 <= i < pre.len() && pre[i] == t;
                    assert(tools[i] == tools[tools.len() - 1]);
                }
            }
        } else {
            lemma_remove_steps_tool(st, 
                sorted_keys(managed_for(scan_manifests(scans, u)).dom()),
                u,
                dirs[u]@,
                desired_for(es, u),
            );
            lemma_after_other_tool(after_steps(m, t, head), t, tail);
        }
    }
}

/// Re-planning after a plan was carried out in full finds nothing left to
/// do: when no step of the plan is a conflict (none was refused), and a
/// rescan of every tool finds the managed installs that the plan's steps
/// left behind, the new plan is empty.
pub proof fn law_carried_out_plan_converges(
    st: PathStyle,
    tools: Seq<Seq<char>>,
    dirs: Map<Seq<char>, String>,
    es: Seq<EntryView>,
    scans: Map<Seq<char>, ToolScan>,
    rescans: Map<Seq<char>, ToolScan>,
)
    requires
        tools.no_duplicates(),
        forall|j: int| 0 <= j < spec_plan(st, tools, dirs, es, scans).len()
            ==> !((#[trigger] spec_plan(st, tools, dirs, es, scans)[j]) is Conflict),
        forall|i: int| 0 <= i < tools.len() ==> managed_for(scan_manifests(rescans, #[trigger] tools[i])) == after_steps(
            managed_for(scan_manifests(scans, tools[i])),
            tools[i],
            spec_plan(st, tools, dirs, es, scans),
        ),
    ensures
        spec_plan(st, tools, dirs, es, rescans) == Seq::<StepView>::empty(),
{
    let plan = spec_plan(st, tools, dirs, es, scans);
    let ins = plan_installs(st, tools, dirs, es, scans);
    let rms = plan_removes(st, tools, dirs, es, scans);
    assert forall|i: int| 0 <= i < tools.len() implies tool_converged(
        desired_for(es, #[trigger] tools[i]),
        managed_for(scan_manifests(rescans, tools[i])),
    ) by {
        let t = tools[i];
        let d = desired_for(es, t);
        let m0 = managed_for(scan_manifests(scans, t));
        assert(tools.contains(t));
        lemma_desired_finite(es, t);
        lemma_managed_finite(scan_manifests(scans, t));
        lemma_plan_installs_for(st, tools, dirs, es, scans, t, m0);
        let m1 = after_steps(m0, t, ins);
        lemma_plan_removes_for(st, tools, dirs, es, scans, t, m1);
        lemma_after_steps_concat(m0, t, ins, rms);
        let ti = tool_installs(st, dirs, es, scans, t);
        assert forall|j: int| 0 <= j < ti.len() implies !((#[trigger] ti[j]) is Conflict) by {
            assert(ins.contains(ti[j]));
            let k = choose|k: int| 0 <= k < ins.len() && ins[k] == ti[j];
            assert(plan[k] == ins[k]);
        }
        lemma_tool_converges(st, t, dirs[t]@, d, m0, scan_present(scans, t));
    }
    law_converged_plan_is_empty(st, tools, dirs, es, rescans);
}

} // verus!

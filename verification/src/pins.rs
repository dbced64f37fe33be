//! Per-machine version pins and the desired-state sync planner.
//!
//! `machines/<machine-id>/pins.json` inside the basin is the lockfile: it
//! says which version of which skill goes to which tool on that machine.
//! The planner diffs this desired state against what a scan of the tool
//! directories found and produces actions.
//!
//! Ownership rule: SkillBasin only ever touches directories it installed
//! itself. Every managed install leaves a sibling manifest next to the
//! target (`<target>.skillbasin.json`); no sibling manifest means not ours,
//! and the planner never plans to remove or update such an entry.

use vstd::prelude::*;
use crate::strmap::StrMap;
use crate::paths::{
    str_eq, path_join, join_path_in, PathStyle, path_file_name, path_with_file_name, file_name_in,
    with_file_name_in, host_path_style,
};
use crate::text::{chars_of, push_chars};

verus! {

pub const PINS_FILE: &'static str = "pins.json";
pub const MANAGED_MANIFEST_SUFFIX: &'static str = ".skillbasin.json";

/// Per-tool settings of a pin.
#[derive(Debug, Clone)]
pub struct PinTarget {
    pub enabled: bool,
    /// "auto" (symlink, junction, copy) | "copy"
    pub strategy: String,
}

impl Default for PinTarget {
    fn default() -> (t: Self)
        ensures
            t.enabled,
            t.strategy@ == "auto"@,
    {
        PinTarget { enabled: true, strategy: String::from_str("auto") }
    }
}

/// One pinned `skill`@`version` and the tools it goes to.
#[derive(Debug)]
pub struct PinEntry {
    pub skill: String,
    pub version: String,
    /// tool key -> per-target settings
    pub targets: StrMap<PinTarget>,
}

/// The pins of one machine: the contents of its `pins.json`.
#[derive(Debug)]
pub struct MachinePins {
    pub machine: String,
    pub pins: Vec<PinEntry>,
}

/// Sibling manifest proving a target directory is managed by SkillBasin.
#[derive(Debug, Clone)]
pub struct ManagedManifest {
    pub skill: String,
    pub version: String,
    pub content_hash: String,
}

/// `machines/<machine>/pins.json` under the basin, joined under the rules
/// of `st`.
pub open spec fn machine_pins_path_of(st: PathStyle, basin_dir: Seq<char>, machine: Seq<char>) -> Seq<char> {
    path_join(st, path_join(st, path_join(st, basin_dir, "machines"@), machine), PINS_FILE@)
}

/// `machines/<machine>/pins.json` under the basin, under the path rules of
/// `st`.
pub fn machine_pins_path_in(basin_dir: &str, machine: &str, st: PathStyle) -> (p: String)
    ensures
        p@ == machine_pins_path_of(st, basin_dir@, machine@),
{
    let m = join_path_in(basin_dir, "machines", st);
    let d = join_path_in(m.as_str(), machine, st);
    join_path_in(d.as_str(), PINS_FILE, st)
}

/// `machines/<machine>/pins.json` under the basin, under the path rules of
/// the platform this program runs on.
pub fn machine_pins_path(basin_dir: &str, machine: &str) -> (p: String)
    ensures
        p@ == machine_pins_path_of(PathStyle::Unix, basin_dir@, machine@) || p@ == machine_pins_path_of(
            PathStyle::Windows,
            basin_dir@,
            machine@,
        ),
{
    machine_pins_path_in(basin_dir, machine, host_path_style())
}

/// The pins of `machine`: those stored in its pins.json, or none at all
/// when it has no pins.json yet (the first pin ever set on it).
pub fn read_machine_pins_or_empty(machine: &str, stored: Option<MachinePins>) -> (p: MachinePins)
    ensures
        match stored {
            Some(s) => p == s,
            None => p.machine@ == machine@ && p.pins@.len() == 0,
        },
{
    match stored {
        Some(s) => s,
        None => MachinePins { machine: machine.to_string(), pins: Vec::new() },
    }
}

/// The sibling manifest path of a target under the path rules of `st`:
/// the target's file name with the managed-manifest suffix, next to the
/// target.
pub open spec fn manifest_path_of(st: PathStyle, target: Seq<char>) -> Seq<char> {
    let name = match path_file_name(st, target) {
        Some(n) => n,
        None => Seq::empty(),
    };
    path_with_file_name(st, target, name + MANAGED_MANIFEST_SUFFIX@)
}

/// Path of the sibling manifest for a target directory, under the path
/// rules of `st`.
pub fn manifest_path_in(target: &str, st: PathStyle) -> (p: String)
    ensures
        p@ == manifest_path_of(st, target@),
{
    let mut name = match file_name_in(target, st) {
        Some(n) => n,
        None => String::new(),
    };
    let suffix = chars_of(MANAGED_MANIFEST_SUFFIX);
    push_chars(&mut name, &suffix);
    with_file_name_in(target, name.as_str(), st)
}

/// Path of the sibling manifest for a target directory, under the path
/// rules of the platform this program runs on.
pub fn manifest_path_for(target: &str) -> (p: String)
    ensures
        p@ == manifest_path_of(PathStyle::Unix, target@) || p@ == manifest_path_of(
            PathStyle::Windows,
            target@,
        ),
{
    manifest_path_in(target, host_path_style())
}

/// A pin entry as plain values: skill, version, and the targets by tool.
pub type EntryView = (Seq<char>, Seq<char>, Map<Seq<char>, PinTarget>);

impl PinEntry {
    pub open spec fn view(&self) -> EntryView {
        (self.skill@, self.version@, self.targets.view())
    }

    pub open spec fn wf(&self) -> bool {
        self.targets.wf()
    }
}

impl MachinePins {
    /// The entries as plain values, in file order.
    pub open spec fn entries(&self) -> Seq<EntryView> {
        self.pins@.map_values(|e: PinEntry| e.view())
    }

    /// Every entry's target map is well formed.
    pub open spec fn wf(&self) -> bool {
        forall|i: int| 0 <= i < self.pins@.len() ==> (#[trigger] self.pins@[i]).wf()
    }
}

/// Why a pin change or a plan was refused.
#[derive(Debug, Clone, PartialEq, Eq)]
pub enum PinError {
    /// The tool has no known skills directory on this machine.
    ToolDirUnknown(String),
    /// A skill id in pins.json or in a managed manifest is not a single
    /// plain directory name.
    UnsafeSkillId(String),
}

/// An entry with at least one target.
pub open spec fn has_targets(e: EntryView) -> bool {
    e.2.dom() != Set::<Seq<char>>::empty()
}

/// Keeps the entries that still target some tool.
pub open spec fn targeted() -> spec_fn(EntryView) -> bool {
    |e: EntryView| has_targets(e)
}

/// `tool` leaves the entries of `skill` at any version but `version`.
pub open spec fn moved_off(skill: Seq<char>, version: Seq<char>, tool: Seq<char>) -> spec_fn(EntryView) -> EntryView {
    |e: EntryView|
        if e.0 == skill && e.1 != version {
            (e.0, e.1, e.2.remove(tool))
        } else {
            e
        }
}

/// `set_pin`'s first step: `tool` leaves every other version of `skill`,
/// then entries nobody targets are dropped.
pub open spec fn pruned_for_set(es: Seq<EntryView>, skill: Seq<char>, version: Seq<char>, tool: Seq<char>) -> Seq<EntryView> {
    es.map_values(moved_off(skill, version, tool)).filter(targeted())
}

/// Index of the first entry for `skill`@`version`, if any.
pub open spec fn find_entry(es: Seq<EntryView>, skill: Seq<char>, version: Seq<char>) -> Option<int>
    decreases es.len(),
{
    if es.len() == 0 {
        None
    } else {
        match find_entry(es.drop_last(), skill, version) {
            Some(i) => Some(i),
            None => if es.last().0 == skill && es.last().1 == version {
                Some(es.len() - 1)
            } else {
                None
            },
        }
    }
}

/// The entries after `set_pin`: pruned, then `tool` recorded on the first
/// entry for `skill`@`version`, or on a new entry appended at the end.
pub open spec fn spec_set_pin(
    es: Seq<EntryView>,
    skill: Seq<char>,
    version: Seq<char>,
    tool: Seq<char>,
    target: PinTarget,
) -> Seq<EntryView> {
    let p = pruned_for_set(es, skill, version, tool);
    match find_entry(p, skill, version) {
        Some(i) => p.update(i, (p[i].0, p[i].1, p[i].2.insert(tool, target))),
        None => p.push((skill, version, Map::empty().insert(tool, target))),
    }
}

/// `tool` leaves the entries of `skill`.
pub open spec fn unpinned(skill: Seq<char>, tool: Seq<char>) -> spec_fn(EntryView) -> EntryView {
    |e: EntryView|
        if e.0 == skill {
            (e.0, e.1, e.2.remove(tool))
        } else {
            e
        }
}

/// The entries after `unset_pin`: `tool` leaves every entry of `skill`,
/// then entries nobody targets are dropped.
pub open spec fn spec_unset_pin(es: Seq<EntryView>, skill: Seq<char>, tool: Seq<char>) -> Seq<EntryView> {
    es.map_values(unpinned(skill, tool)).filter(targeted())
}

/// A target with its `enabled` flag set to `enabled`.
pub open spec fn with_enabled(t: PinTarget, enabled: bool) -> PinTarget {
    PinTarget { enabled: enabled, strategy: t.strategy }
}

/// Every target of the entries of `skill` gets `enabled`.
pub open spec fn enabled_as(skill: Seq<char>, enabled: bool) -> spec_fn(EntryView) -> EntryView {
    |e: EntryView|
        if e.0 == skill {
            (e.0, e.1, e.2.map_values(|t: PinTarget| with_enabled(t, enabled)))
        } else {
            e
        }
}

/// The entries after `set_pins_enabled`: every target of every entry of
/// `skill` gets `enabled`; nothing else changes.
pub open spec fn spec_set_pins_enabled(es: Seq<EntryView>, skill: Seq<char>, enabled: bool) -> Seq<EntryView> {
    es.map_values(enabled_as(skill, enabled))
}

proof fn lemma_targets_nonempty(m: &StrMap<PinTarget>)
    requires
        m.wf(),
    ensures
        (m.keys().len() > 0) == (m.view().dom() != Set::<Seq<char>>::empty()),
{
    m.lemma_view();
    if m.keys().len() > 0 {
        assert(m.view().dom().contains(m.keys()[0]));
    } else {
        assert(m.view().dom() =~= Set::<Seq<char>>::empty());
    }
}

/// Keeps the entries that still target some tool.
fn retain_targeted(es: Vec<PinEntry>) -> (out: Vec<PinEntry>)
    requires
        forall|i: int| 0 <= i < es@.len() ==> (#[trigger] es@[i]).wf(),
    ensures
        forall|i: int| 0 <= i < out@.len() ==> (#[trigger] out@[i]).wf(),
        out@.map_values(|e: PinEntry| e.view()) == es@.map_values(|e: PinEntry| e.view()).filter(targeted()),
{
    let ghost src = es@;
    let ghost vs = es@.map_values(|e: PinEntry| e.view());
    let ghost pred = targeted();
    let mut out: Vec<PinEntry> = Vec::new();
    let mut rest = es;
    let ghost n = src.len();
    let len0 = rest.len();
    let mut i: usize = 0;
    while rest.len() > 0
        invariant
            n == src.len(),
            n == len0,
            pred == targeted(),
            i + rest@.len() == n,
            forall|j: int| 0 <= j < rest@.len() ==> rest@[j] == src[i + j],
            forall|j: int| 0 <= j < src.len() ==> (#[trigger] src[j]).wf(),
            forall|j: int| 0 <= j < out@.len() ==> (#[trigger] out@[j]).wf(),
            vs == src.map_values(|e: PinEntry| e.view()),
            out@.map_values(|e: PinEntry| e.view()) == vs.take(i as int).filter(pred),
        decreases rest.len(),
    {
        let e = rest.remove(0);
        assert(e == src[i as int]);
        assert(vs[i as int] == e.view());
        proof {
            lemma_targets_nonempty(&e.targets);
            assert(vs.take(i + 1) == vs.take(i as int).push(vs[i as int]));
            vs.take(i as int).lemma_filter_push(vs[i as int], pred);
        }
        let ghost before = out@;
        assert(pred(vs[i as int]) == (e.targets.keys().len() > 0));
        assert(vs.take(i + 1).filter(pred) == if pred(vs[i as int]) { vs.take(i as int).filter(pred).push(vs[i as int]) } else { vs.take(i as int).filter(pred) });
        if e.targets.len() > 0 {
            out.push(e);
            assert(out@.map_values(|e: PinEntry| e.view()) =~= before.map_values(|e: PinEntry| e.view()).push(vs[i as int]));
        }
        i = i + 1;
    }
    assert(vs.take(n as int) == vs);
    out
}

/// Pins `tool` to `skill`@`version` in `pins`, moving it off any other
/// version of the same skill, and gives back the new pin set.
///
/// A pin for a tool with no known skills directory is refused: recording
/// it would claim a sync that can never happen.
pub fn set_pin(
    pins: MachinePins,
    skill: &str,
    version: &str,
    tool: &str,
    target: PinTarget,
    tool_dirs: &StrMap<String>,
) -> (r: Result<MachinePins, PinError>)
    requires
        pins.wf(),
        tool_dirs.wf(),
    ensures
        !tool_dirs.view().contains_key(tool@) ==> (r matches Err(PinError::ToolDirUnknown(t)) && t@ == tool@),
        tool_dirs.view().contains_key(tool@) ==> r is Ok,
        r matches Ok(p) ==> {
            &&& p.wf()
            &&& p.machine == pins.machine
            &&& p.entries() == spec_set_pin(pins.entries(), skill@, version@, tool@, target)
        },
{
    if !tool_dirs.contains_key(tool) {
        return Err(PinError::ToolDirUnknown(tool.to_string()));
    }
    let MachinePins { machine, pins: entries } = pins;
    let ghost es0 = entries@.map_values(|e: PinEntry| e.view());
    let ghost step = moved_off(skill@, version@, tool@);
    let mut rest = entries;
    let ghost src = rest@;
    let ghost n = src.len();
    let mut moved: Vec<PinEntry> = Vec::new();
    while rest.len() > 0
        invariant
            n == src.len(),
            moved@.len() + rest@.len() == n,
            forall|j: int| 0 <= j < rest@.len() ==> rest@[j] == src[moved@.len() + j],
            forall|j: int| 0 <= j < src.len() ==> (#[trigger] src[j]).wf(),
            forall|j: int| 0 <= j < moved@.len() ==> (#[trigger] moved@[j]).wf(),
            es0 == src.map_values(|e: PinEntry| e.view()),
            step == moved_off(skill@, version@, tool@),
            moved@.map_values(|e: PinEntry| e.view()) == es0.take(moved@.len() as int).map_values(step),
        decreases rest.len(),
    {
        let ghost i = moved@.len() as int;
        let mut e = rest.remove(0);
        assert(e == src[i]);
        assert(es0[i] == e.view());
        let c = str_eq(e.skill.as_str(), skill) && !str_eq(e.version.as_str(), version);
        assert(c == (es0[i].0 == skill@ && es0[i].1 != version@));
        if c {
            e.targets.remove(tool);
            assert(e.view().2 == es0[i].2.remove(tool@));
            assert(e.view() == (es0[i].0, es0[i].1, es0[i].2.remove(tool@)));
        }
        let ghost before = moved@;
        assert(e.view() == step(es0[i]));
        moved.push(e);
        assert(es0.take(i + 1) =~= es0.take(i).push(es0[i]));
        assert(moved@.map_values(|e: PinEntry| e.view()) =~= before.map_values(|e: PinEntry| e.view()).push(step(es0[i])));
        assert(es0.take(i + 1).map_values(step) =~= es0.take(i).map_values(step).push(step(es0[i])));
    }
    assert(es0.take(n as int) == es0);
    let mut kept = retain_targeted(moved);
    let ghost p = kept@.map_values(|e: PinEntry| e.view());
    assert(p == pruned_for_set(es0, skill@, version@, tool@));
    let mut i: usize = 0;
    while i < kept.len()
        invariant
            i <= kept@.len(),
            tool_dirs.view().contains_key(tool@),
            machine == pins.machine,
            p == pruned_for_set(pins.entries(), skill@, version@, tool@),
            p == kept@.map_values(|e: PinEntry| e.view()),
            forall|j: int| 0 <= j < kept@.len() ==> (#[trigger] kept@[j]).wf(),
            find_entry(p.take(i as int), skill@, version@) is None,
        decreases kept.len() - i,
    {
        assert(p.take(i + 1).drop_last() == p.take(i as int));
        if str_eq(kept[i].skill.as_str(), skill) && str_eq(kept[i].version.as_str(), version) {
            proof {
                lemma_find_entry_prefix(p, skill@, version@, i as int);
            }
            let ghost before = kept@;
            let mut e = kept.remove(i);
            e.targets.insert(tool.to_string(), target);
            kept.insert(i, e);
            assert(kept@.map_values(|e: PinEntry| e.view()) =~= p.update(i as int, (p[i as int].0, p[i as int].1, p[i as int].2.insert(tool@, target))));
            return Ok(MachinePins { machine, pins: kept });
        }
        i = i + 1;
    }
    assert(p.take(p.len() as int) == p);
    let mut targets: StrMap<PinTarget> = StrMap::new();
    targets.insert(tool.to_string(), target);
    let e = PinEntry { skill: skill.to_string(), version: version.to_string(), targets };
    let ghost before = kept@;
    kept.push(e);
    assert(kept@.map_values(|e: PinEntry| e.view()) =~= p.push((skill@, version@, Map::empty().insert(tool@, target))));
    Ok(MachinePins { machine, pins: kept })
}

/// Removes `tool` from every entry of `skill`, then drops the entries
/// nobody targets, and gives back the new pin set.
pub fn unset_pin(pins: MachinePins, skill: &str, tool: &str) -> (p: MachinePins)
    requires
        pins.wf(),
    ensures
        p.wf(),
        p.machine == pins.machine,
        p.entries() == spec_unset_pin(pins.entries(), skill@, tool@),
{
    let MachinePins { machine, pins: entries } = pins;
    let ghost es0 = entries@.map_values(|e: PinEntry| e.view());
    let ghost step = unpinned(skill@, tool@);
    let mut rest = entries;
    let ghost src = rest@;
    let ghost n = src.len();
    let mut moved: Vec<PinEntry> = Vec::new();
    while rest.len() > 0
        invariant
            n == src.len(),
            moved@.len() + rest@.len() == n,
            forall|j: int| 0 <= j < rest@.len() ==> rest@[j] == src[moved@.len() + j],
            forall|j: int| 0 <= j < src.len() ==> (#[trigger] src[j]).wf(),
            forall|j: int| 0 <= j < moved@.len() ==> (#[trigger] moved@[j]).wf(),
            es0 == src.map_values(|e: PinEntry| e.view()),
            step == unpinned(skill@, tool@),
            moved@.map_values(|e: PinEntry| e.view()) == es0.take(moved@.len() as int).map_values(step),
        decreases rest.len(),
    {
        let ghost i = moved@.len() as int;
        let mut e = rest.remove(0);
        assert(e == src[i]);
        assert(es0[i] == e.view());
        if str_eq(e.skill.as_str(), skill) {
            e.targets.remove(tool);
            assert(e.view() == (es0[i].0, es0[i].1, es0[i].2.remove(tool@)));
        }
        let ghost before = moved@;
        assert(e.view() == step(es0[i]));
        moved.push(e);
        assert(es0.take(i + 1) =~= es0.take(i).push(es0[i]));
        assert(moved@.map_values(|e: PinEntry| e.view()) =~= before.map_values(|e: PinEntry| e.view()).push(step(es0[i])));
        assert(es0.take(i + 1).map_values(step) =~= es0.take(i).map_values(step).push(step(es0[i])));
    }
    assert(es0.take(n as int) == es0);
    let kept = retain_targeted(moved);
    MachinePins { machine, pins: kept }
}

/// Sets `enabled` on every target of `targets`.
fn set_all_enabled(targets: &mut StrMap<PinTarget>, enabled: bool)
    requires
        old(targets).wf(),
    ensures
        final(targets).wf(),
        final(targets).view() == old(targets).view().map_values(|t: PinTarget| with_enabled(t, enabled)),
{
    let ghost ok = targets.keys();
    let ghost ov = targets.vals();
    proof {
        targets.lemma_lens();
    }
    let mut i: usize = 0;
    while i < targets.len()
        invariant
            targets.wf(),
            targets.keys() == ok,
            ok.len() == ov.len(),
            targets.vals().len() == ov.len(),
            i <= ok.len(),
            forall|j: int| 0 <= j < i ==> targets.vals()[j] == with_enabled(#[trigger] ov[j], enabled),
            forall|j: int| i <= j < ov.len() ==> targets.vals()[j] == #[trigger] ov[j],
        decreases ok.len() - i,
    {
        let strategy = targets.value_at(i).strategy.clone();
        targets.set_value_at(i, PinTarget { enabled, strategy });
        i = i + 1;
    }
    proof {
        targets.lemma_view();
        old(targets).lemma_view();
        let m = old(targets).view().map_values(|t: PinTarget| with_enabled(t, enabled));
        assert forall|k: Seq<char>| #[trigger] targets.view().contains_key(k) implies targets.view()[k] == m[k] by {
            let j = choose|j: int| 0 <= j < ok.len() && ok[j] == k;
            assert(targets.view()[ok[j]] == targets.vals()[j]);
            assert(old(targets).view()[ok[j]] == ov[j]);
        }
        assert(targets.view() =~= m);
    }
}

/// Flips every target of every entry of `skill` to `enabled`. Disabling
/// keeps the pin (so a re-enable restores the exact version); the planner
/// treats a disabled target as unpinned.
pub fn set_pins_enabled(pins: MachinePins, skill: &str, enabled: bool) -> (p: MachinePins)
    requires
        pins.wf(),
    ensures
        p.wf(),
        p.machine == pins.machine,
        p.entries() == spec_set_pins_enabled(pins.entries(), skill@, enabled),
{
    let MachinePins { machine, pins: entries } = pins;
    let ghost es0 = entries@.map_values(|e: PinEntry| e.view());
    let ghost step = enabled_as(skill@, enabled);
    let mut rest = entries;
    let ghost src = rest@;
    let ghost n = src.len();
    let mut moved: Vec<PinEntry> = Vec::new();
    while rest.len() > 0
        invariant
            n == src.len(),
            moved@.len() + rest@.len() == n,
            forall|j: int| 0 <= j < rest@.len() ==> rest@[j] == src[moved@.len() + j],
            forall|j: int| 0 <= j < src.len() ==> (#[trigger] src[j]).wf(),
            forall|j: int| 0 <= j < moved@.len() ==> (#[trigger] moved@[j]).wf(),
            es0 == src.map_values(|e: PinEntry| e.view()),
            step == enabled_as(skill@, enabled),
            moved@.map_values(|e: PinEntry| e.view()) == es0.take(moved@.len() as int).map_values(step),
        decreases rest.len(),
    {
        let ghost i = moved@.len() as int;
        let mut e = rest.remove(0);
        assert(e == src[i]);
        assert(es0[i] == e.view());
        if str_eq(e.skill.as_str(), skill) {
            set_all_enabled(&mut e.targets, enabled);
        }
        let ghost before = moved@;
        assert(e.view() == step(es0[i]));
        moved.push(e);
        assert(es0.take(i + 1) =~= es0.take(i).push(es0[i]));
        assert(moved@.map_values(|e: PinEntry| e.view()) =~= before.map_values(|e: PinEntry| e.view()).push(step(es0[i])));
        assert(es0.take(i + 1).map_values(step) =~= es0.take(i).map_values(step).push(step(es0[i])));
    }
    assert(es0.take(n as int) == es0);
    assert(moved@.map_values(|e: PinEntry| e.view()) =~= spec_set_pins_enabled(es0, skill@, enabled));
    MachinePins { machine, pins: moved }
}

proof fn lemma_find_entry_prefix(p: Seq<EntryView>, skill: Seq<char>, version: Seq<char>, i: int)
    requires
        0 <= i < p.len(),
        find_entry(p.take(i), skill, version) is None,
        p[i].0 == skill && p[i].1 == version,
    ensures
        find_entry(p, skill, version) == Some(i),
    decreases p.len(),
{
    if i == p.len() - 1 {
        assert(p.drop_last() == p.take(i));
    } else {
        assert(p.drop_last().take(i) == p.take(i));
        lemma_find_entry_prefix(p.drop_last(), skill, version, i);
    }
}

} // verus!

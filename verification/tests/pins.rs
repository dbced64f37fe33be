use skillbasin::pins::{
    machine_pins_path, machine_pins_path_in, manifest_path_for, read_machine_pins_or_empty, set_pin, set_pins_enabled, unset_pin,
    MachinePins, ManagedManifest, PinEntry, PinError, PinTarget,
};
use skillbasin::paths::PathStyle;
use skillbasin::plan::{plan_sync, plan_sync_in, PlanAction, ToolScan};
use skillbasin::strmap::StrMap;

fn pin(skill: &str, version: &str, tools: &[&str]) -> PinEntry {
    let mut targets = StrMap::new();
    for t in tools {
        targets.insert(t.to_string(), PinTarget::default());
    }
    PinEntry { skill: skill.to_string(), version: version.to_string(), targets }
}

fn pins_of(entries: Vec<PinEntry>) -> MachinePins {
    MachinePins { machine: "m".to_string(), pins: entries }
}

fn dirs(tools: &[(&str, &str)]) -> StrMap<String> {
    let mut m = StrMap::new();
    for (k, d) in tools {
        m.insert(k.to_string(), d.to_string());
    }
    m
}

fn manifest(skill: &str, version: &str) -> ManagedManifest {
    ManagedManifest { skill: skill.to_string(), version: version.to_string(), content_hash: "sha256:00".to_string() }
}

/// What scanning each tool directory found.
fn scans(found: &[(&str, &[&str], Vec<ManagedManifest>)]) -> StrMap<ToolScan> {
    let mut m = StrMap::new();
    for (tool, present, manifests) in found {
        m.insert(
            tool.to_string(),
            ToolScan { present: present.iter().map(|s| s.to_string()).collect(), manifests: manifests.clone() },
        );
    }
    m
}

fn no_scans() -> StrMap<ToolScan> {
    StrMap::new()
}

#[test]
fn planner_installs_missing_pins() {
    let pins = pins_of(vec![pin("demo", "1.0.0", &["claude_code"])]);
    let plan = plan_sync(&pins, &dirs(&[("claude_code", "/t/cc")]), &no_scans()).unwrap();
    assert_eq!(plan.len(), 1);
    match &plan[0] {
        PlanAction::Install { skill, version, tool, target, strategy } => {
            assert_eq!(skill, "demo");
            assert_eq!(version, "1.0.0");
            assert_eq!(tool, "claude_code");
            assert_eq!(target, "/t/cc/demo");
            assert_eq!(strategy, "auto");
        },
        other => panic!("expected Install, got {:?}", other),
    }
}

#[test]
fn same_skill_two_versions_to_two_tools_at_once() {
    let pins = pins_of(vec![pin("demo", "2.0.0", &["claude_code"]), pin("demo", "1.0.0", &["hermes"])]);
    let d = dirs(&[("claude_code", "/t/cc"), ("hermes", "/t/hermes")]);
    let plan = plan_sync(&pins, &d, &no_scans()).unwrap();
    assert_eq!(plan.len(), 2);
    assert!(matches!(&plan[0], PlanAction::Install { tool, version, .. } if tool == "claude_code" && version == "2.0.0"));
    assert!(matches!(&plan[1], PlanAction::Install { tool, version, .. } if tool == "hermes" && version == "1.0.0"));
}

#[test]
fn planner_updates_when_pin_moves_and_apply_swaps_content() {
    let d = dirs(&[("claude_code", "/t/cc")]);
    let found = scans(&[("claude_code", &["demo", "demo.skillbasin.json"], vec![manifest("demo", "1.0.0")])]);
    let v2 = pins_of(vec![pin("demo", "2.0.0", &["claude_code"])]);
    let plan = plan_sync(&v2, &d, &found).unwrap();
    assert_eq!(plan.len(), 1);
    assert!(matches!(
        &plan[0],
        PlanAction::Update { from_version, to_version, .. } if from_version == "1.0.0" && to_version == "2.0.0"
    ));
    // Same pins again on the updated directory -> empty plan (converged).
    let after = scans(&[("claude_code", &["demo", "demo.skillbasin.json"], vec![manifest("demo", "2.0.0")])]);
    assert!(plan_sync(&v2, &d, &after).unwrap().is_empty());
}

#[test]
fn planner_removes_only_managed_dirs() {
    let d = dirs(&[("claude_code", "/t/cc")]);
    let found = scans(&[("claude_code", &["demo", "demo.skillbasin.json", "handmade"], vec![manifest("demo", "1.0.0")])]);
    let plan = plan_sync(&pins_of(vec![]), &d, &found).unwrap();
    assert_eq!(plan.len(), 1);
    assert!(matches!(&plan[0], PlanAction::Remove { skill, target, .. } if skill == "demo" && target == "/t/cc/demo"));
}

#[test]
fn planner_ignores_loose_files_and_manifests_in_a_tool_dir() {
    let d = dirs(&[("claude_code", "/t/cc")]);
    let pins = pins_of(vec![pin("demo", "1.0.0", &["claude_code"])]);
    let found = scans(&[("claude_code", &["demo", "demo.skillbasin.json", "README.md"], vec![manifest("demo", "1.0.0")])]);
    assert!(plan_sync(&pins, &d, &found).unwrap().is_empty());
}

#[test]
fn planner_flags_unmanaged_dir_at_target_as_conflict() {
    let pins = pins_of(vec![pin("demo", "1.0.0", &["claude_code"])]);
    let found = scans(&[("claude_code", &["demo"], vec![])]);
    let plan = plan_sync(&pins, &dirs(&[("claude_code", "/t/cc")]), &found).unwrap();
    assert_eq!(plan.len(), 1);
    assert!(matches!(&plan[0], PlanAction::Conflict { skill, .. } if skill == "demo"));
}

#[test]
fn disabled_target_counts_as_unpinned() {
    let d = dirs(&[("claude_code", "/t/cc")]);
    let found = scans(&[("claude_code", &["demo", "demo.skillbasin.json"], vec![manifest("demo", "1.0.0")])]);
    let enabled = pins_of(vec![pin("demo", "1.0.0", &["claude_code"])]);
    assert!(plan_sync(&enabled, &d, &found).unwrap().is_empty());

    let disabled = set_pins_enabled(enabled, "demo", false);
    assert!(!disabled.pins[0].targets.get("claude_code").unwrap().enabled);
    let plan = plan_sync(&disabled, &d, &found).unwrap();
    assert_eq!(plan.len(), 1);
    assert!(matches!(&plan[0], PlanAction::Remove { .. }));

    // Re-enabling restores the exact pin.
    let again = set_pins_enabled(disabled, "demo", true);
    assert!(plan_sync(&again, &d, &found).unwrap().is_empty());
}

#[test]
fn planner_refuses_unsafe_skill_ids() {
    let d = dirs(&[("claude_code", "/t/cc")]);
    for bad in ["../../.ssh", "a/b", "..", ".", ""] {
        let pins = pins_of(vec![pin(bad, "1.0.0", &["claude_code"])]);
        match plan_sync(&pins, &d, &no_scans()) {
            Err(PinError::UnsafeSkillId(id)) => assert_eq!(id, bad),
            other => panic!("expected UnsafeSkillId for {bad:?}, got {other:?}"),
        }
    }
    // A tampered manifest is refused too.
    let found = scans(&[("claude_code", &[], vec![manifest("../x", "1")])]);
    assert!(matches!(plan_sync(&pins_of(vec![]), &d, &found), Err(PinError::UnsafeSkillId(_))));
}

#[test]
fn planner_reads_skill_ids_under_the_given_platform_rules() {
    let d = dirs(&[("claude_code", "C:\\t\\cc")]);
    let pins = pins_of(vec![pin("..\\..\\.ssh", "1.0.0", &["claude_code"])]);
    match plan_sync_in(&pins, &d, &no_scans(), PathStyle::Windows) {
        Err(PinError::UnsafeSkillId(id)) => assert_eq!(id, "..\\..\\.ssh"),
        other => panic!("expected UnsafeSkillId, got {other:?}"),
    }
    assert_eq!(plan_sync_in(&pins, &d, &no_scans(), PathStyle::Unix).unwrap().len(), 1);
    let fine = pins_of(vec![pin("demo", "1.0.0", &["claude_code"])]);
    let plan = plan_sync_in(&fine, &d, &no_scans(), PathStyle::Windows).unwrap();
    assert_eq!(plan.len(), 1);
    assert!(matches!(&plan[0], PlanAction::Install { target, .. } if target == "C:\\t\\cc\\demo"));
    assert_eq!(machine_pins_path_in("C:\\b", "m1", PathStyle::Windows), "C:\\b\\machines\\m1\\pins.json");
}

#[test]
fn set_pin_creates_and_installs_on_first_call() {
    let d = dirs(&[("claude_code", "/t/cc")]);
    let pins = set_pin(pins_of(vec![]), "demo", "1.0.0", "claude_code", PinTarget::default(), &d).unwrap();
    assert_eq!(pins.pins.len(), 1);
    assert_eq!(pins.pins[0].version, "1.0.0");
    let plan = plan_sync(&pins, &d, &no_scans()).unwrap();
    assert!(matches!(&plan[0], PlanAction::Install { target, .. } if target == "/t/cc/demo"));
}

#[test]
fn set_pin_refuses_a_tool_without_a_directory() {
    let d = dirs(&[("claude_code", "/t/cc")]);
    let err = set_pin(pins_of(vec![]), "demo", "1.0.0", "cursor", PinTarget::default(), &d).unwrap_err();
    assert_eq!(err, PinError::ToolDirUnknown("cursor".to_string()));
}

#[test]
fn set_pin_leaves_other_skills_pins_for_the_same_tool_alone() {
    let d = dirs(&[("claude_code", "/t/cc")]);
    let pins = set_pin(pins_of(vec![]), "solo", "1.0.0", "claude_code", PinTarget::default(), &d).unwrap();
    let pins = set_pin(pins, "demo", "2.0.0", "claude_code", PinTarget::default(), &d).unwrap();
    let solo = pins.pins.iter().find(|e| e.skill == "solo").expect("solo's pin must survive pinning demo");
    assert!(solo.targets.contains_key("claude_code"));
    let plan = plan_sync(&pins, &d, &no_scans()).unwrap();
    assert_eq!(plan.len(), 2);
}

#[test]
fn unset_pin_leaves_other_skills_alone() {
    let d = dirs(&[("claude_code", "/t/cc")]);
    let mut pins = pins_of(vec![]);
    for (skill, version) in [("demo", "1.0.0"), ("solo", "1.0.0")] {
        pins = set_pin(pins, skill, version, "claude_code", PinTarget::default(), &d).unwrap();
    }
    let pins = unset_pin(pins, "demo", "claude_code");
    assert_eq!(pins.pins.len(), 1, "only solo's pin remains");
    assert_eq!(pins.pins[0].skill, "solo");
}

#[test]
fn set_pin_moves_tool_off_previous_version_of_same_skill() {
    let d = dirs(&[("claude_code", "/t/cc")]);
    let pins = set_pin(pins_of(vec![]), "demo", "1.0.0", "claude_code", PinTarget::default(), &d).unwrap();
    let pins = set_pin(pins, "demo", "2.0.0", "claude_code", PinTarget::default(), &d).unwrap();
    let demo_entries: Vec<_> = pins.pins.iter().filter(|e| e.skill == "demo").collect();
    assert_eq!(demo_entries.len(), 1);
    assert_eq!(demo_entries[0].version, "2.0.0");
    // The managed 1.0.0 install is updated to 2.0.0.
    let found = scans(&[("claude_code", &["demo"], vec![manifest("demo", "1.0.0")])]);
    let plan = plan_sync(&pins, &d, &found).unwrap();
    assert!(matches!(&plan[0], PlanAction::Update { to_version, .. } if to_version == "2.0.0"));
}

#[test]
fn set_pin_lets_two_tools_pin_different_versions_of_same_skill() {
    let d = dirs(&[("claude_code", "/t/cc"), ("cursor", "/t/cursor")]);
    let pins = set_pin(pins_of(vec![]), "demo", "1.0.0", "claude_code", PinTarget::default(), &d).unwrap();
    let pins = set_pin(pins, "demo", "2.0.0", "cursor", PinTarget::default(), &d).unwrap();
    let demo_entries: Vec<_> = pins.pins.iter().filter(|e| e.skill == "demo").collect();
    assert_eq!(demo_entries.len(), 2);
    let plan = plan_sync(&pins, &d, &no_scans()).unwrap();
    assert!(matches!(&plan[0], PlanAction::Install { tool, version, .. } if tool == "claude_code" && version == "1.0.0"));
    assert!(matches!(&plan[1], PlanAction::Install { tool, version, .. } if tool == "cursor" && version == "2.0.0"));
}

#[test]
fn unset_pin_removes_the_managed_install() {
    let d = dirs(&[("claude_code", "/t/cc")]);
    let pins = set_pin(pins_of(vec![]), "demo", "1.0.0", "claude_code", PinTarget::default(), &d).unwrap();
    let pins = unset_pin(pins, "demo", "claude_code");
    assert!(pins.pins.iter().all(|e| e.skill != "demo"));
    let found = scans(&[("claude_code", &["demo"], vec![manifest("demo", "1.0.0")])]);
    let plan = plan_sync(&pins, &d, &found).unwrap();
    assert!(matches!(&plan[0], PlanAction::Remove { skill, .. } if skill == "demo"));
}

#[test]
fn read_machine_pins_or_empty_returns_empty_set_when_missing() {
    let pins = read_machine_pins_or_empty("never-seen", None);
    assert_eq!(pins.machine, "never-seen");
    assert!(pins.pins.is_empty());
    let stored = pins_of(vec![pin("demo", "1.0.0", &["t"])]);
    let kept = read_machine_pins_or_empty("m", Some(stored));
    assert_eq!(kept.pins.len(), 1);
}

#[test]
fn pins_and_manifest_paths() {
    assert_eq!(machine_pins_path("/b", "m1"), "/b/machines/m1/pins.json");
    assert_eq!(manifest_path_for("/t/cc/demo"), "/t/cc/demo.skillbasin.json");
    assert_eq!(manifest_path_for("/t/cc/demo/"), "/t/cc/demo.skillbasin.json");
}

#[test]
fn replanning_after_every_step_was_carried_out_finds_nothing_to_do() {
    let d = dirs(&[("claude_code", "/t/cc"), ("hermes", "/t/hermes")]);
    let pins = pins_of(vec![pin("demo", "2.0.0", &["claude_code"]), pin("fresh", "1.0.0", &["claude_code", "hermes"])]);
    let found = scans(&[
        ("claude_code", &["demo", "old"], vec![manifest("demo", "1.0.0"), manifest("old", "0.1.0")]),
        ("hermes", &["notes.txt"], vec![]),
    ]);
    let plan = plan_sync(&pins, &d, &found).unwrap();
    assert_eq!(plan.len(), 4);
    assert!(plan.iter().all(|a| !matches!(a, PlanAction::Conflict { .. })));
    // What the steps leave behind: the managed installs by tool.
    let mut managed: Vec<(String, Vec<ManagedManifest>)> = vec![
        ("claude_code".to_string(), vec![manifest("demo", "1.0.0"), manifest("old", "0.1.0")]),
        ("hermes".to_string(), vec![]),
    ];
    for a in &plan {
        let (tool, skill, version) = match a {
            PlanAction::Install { tool, skill, version, .. } => (tool, skill, Some(version)),
            PlanAction::Update { tool, skill, to_version, .. } => (tool, skill, Some(to_version)),
            PlanAction::Remove { tool, skill, .. } => (tool, skill, None),
            PlanAction::Conflict { .. } => unreachable!(),
        };
        let entry = managed.iter_mut().find(|(t, _)| t == tool).expect("tool");
        entry.1.retain(|m| &m.skill != skill);
        if let Some(v) = version {
            entry.1.push(manifest(skill, v));
        }
    }
    let mut rescans = StrMap::new();
    for (tool, manifests) in managed {
        let present = manifests.iter().map(|m| m.skill.clone()).collect();
        rescans.insert(tool, ToolScan { present, manifests });
    }
    assert!(plan_sync(&pins, &d, &rescans).unwrap().is_empty());
}

use skillbasin::fleet::{action_name, build_status_report, sorted_roster, strip_utf8_bom, STATUS_SCHEMA_VERSION};
use skillbasin::hub::resolve_tool_dirs;
use skillbasin::agents::{AdapterKind, ResolvedAdapter};
use skillbasin::plan::{apply_result, apply_results, apply_step, ApplyStep, PlanAction};
use skillbasin::strmap::StrMap;

fn install(skill: &str, tool: &str) -> PlanAction {
    PlanAction::Install {
        skill: skill.to_string(),
        version: "1.0.0".to_string(),
        tool: tool.to_string(),
        target: format!("/t/{tool}/{skill}"),
        strategy: "auto".to_string(),
    }
}

fn conflict(skill: &str, tool: &str) -> PlanAction {
    PlanAction::Conflict { skill: skill.to_string(), tool: tool.to_string(), target: format!("/t/{tool}/{skill}") }
}

#[test]
fn update_installs_the_new_version_and_conflict_touches_nothing() {
    let update = PlanAction::Update {
        skill: "demo".to_string(),
        from_version: "1.0.0".to_string(),
        to_version: "2.0.0".to_string(),
        tool: "t0".to_string(),
        target: "/t/t0/demo".to_string(),
        strategy: "copy".to_string(),
    };
    match apply_step(&update) {
        ApplyStep::Install { version, target, strategy, .. } => {
            assert_eq!(version, "2.0.0");
            assert_eq!(target, "/t/t0/demo");
            assert_eq!(strategy, "copy");
        },
        other => panic!("expected Install, got {other:?}"),
    }
    assert!(matches!(apply_step(&conflict("demo", "t0")), ApplyStep::Refuse { target } if target == "/t/t0/demo"));
    let remove = PlanAction::Remove { skill: "x".to_string(), tool: "t0".to_string(), target: "/t/t0/x".to_string() };
    assert!(matches!(apply_step(&remove), ApplyStep::Remove { target } if target == "/t/t0/x"));
}

#[test]
fn failed_action_is_reported_not_swallowed() {
    let plan = vec![install("demo", "t0"), conflict("other", "t0")];
    let results = apply_results(&plan, vec![Ok(()), Err("unmanaged directory".to_string())]);
    assert_eq!(results.len(), 2);
    assert!(results[0].ok && results[0].error.is_none());
    assert!(!results[1].ok);
    assert_eq!(results[1].skill, "other");
    assert_eq!(results[1].error.as_deref(), Some("unmanaged directory"));
    assert!(results.iter().all(|r| r.warning.is_none()));

    let report = build_status_report("m1".to_string(), 1_700_000_000, &plan, &results);
    assert_eq!(report.schema_version, STATUS_SCHEMA_VERSION);
    assert!(!report.ok, "partial failure must be visible");
    assert_eq!(report.actions.len(), 2);
    assert_eq!(report.actions[0].action, "install");
    assert_eq!(report.actions[1].action, "conflict");
    assert_eq!(report.actions[1].error.as_deref(), Some("unmanaged directory"));
    assert_eq!(report.machine, "m1");
    assert_eq!(report.applied_at_epoch, 1_700_000_000);
}

#[test]
fn clean_apply_reports_ok() {
    let plan = vec![install("demo", "t0")];
    let r = apply_result(&plan[0], Ok(()));
    let report = build_status_report("m1".to_string(), 5, &plan, &vec![r]);
    assert!(report.ok);
    assert_eq!(action_name(&plan[0]), "install");
    // An empty plan is a clean apply.
    assert!(build_status_report("m1".to_string(), 5, &vec![], &vec![]).ok);
}

#[test]
fn fleet_roster_is_sorted() {
    let names = vec!["m2".to_string(), "a".to_string(), "m10".to_string(), "m1".to_string()];
    assert_eq!(sorted_roster(&names), vec!["a", "m1", "m10", "m2"]);
}

#[test]
fn config_bytes_lose_a_leading_byte_order_mark() {
    assert_eq!(strip_utf8_bom(b"\xef\xbb\xbf{}"), b"{}".to_vec());
    assert_eq!(strip_utf8_bom(b"{}"), b"{}".to_vec());
    assert_eq!(strip_utf8_bom(b"\xef\xbb"), b"\xef\xbb".to_vec());
}

fn adapter(key: &str, dir: Option<&str>, enabled: bool) -> ResolvedAdapter {
    ResolvedAdapter {
        key: key.to_string(),
        display_name: key.to_string(),
        adapter_kind: AdapterKind::Dir,
        skills_dir: dir.map(|d| d.to_string()),
        project_skills_dir: None,
        mcp_endpoint: None,
        default_strategy: "auto".to_string(),
        is_custom: false,
        verified: true,
        enabled,
    }
}

#[test]
fn tool_dirs_come_from_enabled_adapters_with_overrides_on_top() {
    let adapters = vec![
        adapter("claude_code", Some("/home/u/.cc/skills"), true),
        adapter("cursor", Some("/home/u/.cursor/skills"), false),
        adapter("mcp_only", None, true),
        adapter("t0", Some("/default/t0"), true),
    ];
    let mut overrides = StrMap::new();
    overrides.insert("t0".to_string(), "/mnt/tool-t0".to_string());
    overrides.insert("extra".to_string(), "/mnt/extra".to_string());
    let dirs = resolve_tool_dirs(&adapters, &overrides);
    assert_eq!(dirs.get("claude_code").unwrap(), "/home/u/.cc/skills");
    assert!(!dirs.contains_key("cursor"), "disabled tools resolve to no directory");
    assert!(!dirs.contains_key("mcp_only"));
    assert_eq!(dirs.get("t0").unwrap(), "/mnt/tool-t0", "an override always wins");
    assert_eq!(dirs.get("extra").unwrap(), "/mnt/extra");
    assert_eq!(dirs.len(), 3);
}

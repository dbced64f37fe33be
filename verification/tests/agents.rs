use skillbasin::agents::{
    add_custom_agent, is_tier1_key, is_valid_custom_tool_key, remove_custom_agent, resolve_all_adapters,
    update_custom_agent, AdapterKind, AgentEntry, AgentRegistry, BuiltinAdapter, RegistryErrorKind, ResolvedAdapter,
    TIER1_KEYS,
};
use skillbasin::strmap::StrMap;

fn dir_entry(display_name: &str) -> AgentEntry {
    AgentEntry {
        display_name: display_name.to_string(),
        adapter_kind: AdapterKind::Dir,
        global_skills_dir: Some("~/.fake/skills".to_string()),
        project_skills_dir: Some(".fake/skills".to_string()),
        detect: vec!["~/.fake".to_string()],
        mcp_endpoint: None,
        default_strategy: "auto".to_string(),
        verified: false,
        source: Some("https://example.com/docs".to_string()),
        custom: false,
    }
}

fn mcp_entry(display_name: &str) -> AgentEntry {
    AgentEntry {
        display_name: display_name.to_string(),
        adapter_kind: AdapterKind::Mcp,
        global_skills_dir: None,
        project_skills_dir: None,
        detect: vec![],
        mcp_endpoint: Some("stdio:skills-mcp".to_string()),
        default_strategy: "auto".to_string(),
        verified: true,
        source: None,
        custom: true,
    }
}

fn builtin(key: &str, name: &str, project: &str, enabled: bool) -> BuiltinAdapter {
    BuiltinAdapter {
        key: key.to_string(),
        display_name: name.to_string(),
        skills_dir: Some(format!("/home/u/{project}")),
        project_skills_dir: project.to_string(),
        enabled,
    }
}

/// A small built-in table: the Tier1 tools and two others.
fn builtins() -> Vec<BuiltinAdapter> {
    vec![
        builtin("claude_code", "Code Agent", ".code-agent/skills", true),
        builtin("cursor", "Cursor", ".cursor/skills", true),
        builtin("antigravity", "Antigravity", ".agent/skills", true),
        builtin("hermes_agent", "Hermes Agent", ".hermes/skills", true),
        builtin("codex", "Codex", ".codex/skills", true),
        builtin("junie", "Junie", ".junie/skills", true),
    ]
}

fn registry(adapters: Vec<(&str, AgentEntry)>) -> AgentRegistry {
    let mut map = StrMap::new();
    for (k, e) in adapters {
        map.insert(k.to_string(), e);
    }
    AgentRegistry { version: 1, adapters: map }
}

fn find<'a>(resolved: &'a [ResolvedAdapter], key: &str) -> &'a ResolvedAdapter {
    resolved.iter().find(|a| a.key == key).expect("adapter must resolve")
}

#[test]
fn tier1_builtin_always_wins_over_agents_json() {
    let reg = registry(vec![("claude_code", dir_entry("Fake Code Agent Override"))]);
    let resolved = resolve_all_adapters(&reg, &builtins());
    let tier1 = find(&resolved, "claude_code");
    assert_eq!(tier1.display_name, "Code Agent");
    assert!(!tier1.is_custom);
    assert_eq!(tier1.project_skills_dir.as_deref(), Some(".code-agent/skills"));
    assert_eq!(resolved.iter().filter(|a| a.key == "claude_code").count(), 1);
}

#[test]
fn non_tier1_builtin_is_overridden_by_agents_json() {
    let reg = registry(vec![("codex", dir_entry("Codex (vendored override)"))]);
    let resolved = resolve_all_adapters(&reg, &builtins());
    let codex = find(&resolved, "codex");
    assert_eq!(codex.display_name, "Codex (vendored override)");
    assert_eq!(codex.project_skills_dir.as_deref(), Some(".fake/skills"));
}

#[test]
fn builtin_without_agents_json_entry_falls_back_to_rust_default() {
    let resolved = resolve_all_adapters(&registry(vec![]), &builtins());
    let cursor = find(&resolved, "cursor");
    assert_eq!(cursor.display_name, "Cursor");
    assert!(!cursor.is_custom);
    assert_eq!(cursor.default_strategy, "auto");
    assert!(cursor.verified);
    assert_eq!(resolved.len(), builtins().len());
}

#[test]
fn custom_mcp_entry_resolves_without_skills_dir() {
    let reg = add_custom_agent(registry(vec![]), "hermes_via_mcp", mcp_entry("Hermes MCP")).unwrap();
    let resolved = resolve_all_adapters(&reg, &builtins());
    let hermes = find(&resolved, "hermes_via_mcp");
    assert_eq!(hermes.adapter_kind, AdapterKind::Mcp);
    assert!(hermes.skills_dir.is_none());
    assert_eq!(hermes.mcp_endpoint.as_deref(), Some("stdio:skills-mcp"));
    assert!(hermes.is_custom);
}

#[test]
fn tier2_vendored_entries_are_never_dropped_by_seen_set() {
    let reg = registry(vec![("junie", dir_entry("Junie override")), ("zzz-brand-new", dir_entry("Brand New Tool"))]);
    let resolved = resolve_all_adapters(&reg, &builtins());
    assert!(resolved.iter().any(|a| a.key == "junie" && a.display_name == "Junie override"));
    assert!(resolved.iter().any(|a| a.key == "zzz-brand-new" && a.display_name == "Brand New Tool"));
}

#[test]
fn resolution_order_is_tier1_then_builtins_then_registry_only_entries() {
    let reg = registry(vec![("zeta", dir_entry("Zeta")), ("alpha", dir_entry("Alpha")), ("cursor", dir_entry("X"))]);
    let resolved = resolve_all_adapters(&reg, &builtins());
    let keys: Vec<&str> = resolved.iter().map(|a| a.key.as_str()).collect();
    assert_eq!(
        keys,
        vec!["claude_code", "cursor", "antigravity", "hermes_agent", "codex", "junie", "alpha", "zeta"]
    );
}

#[test]
fn add_custom_agent_rejects_tier1_key() {
    let err = add_custom_agent(registry(vec![]), "cursor", dir_entry("Nope")).unwrap_err();
    assert_eq!(err.kind, RegistryErrorKind::Tier1Key);
    assert!(err.message().contains("Tier1"));
}

#[test]
fn add_custom_agent_rejects_invalid_key_format() {
    let err = add_custom_agent(registry(vec![]), "Not Valid Key!", dir_entry("Nope")).unwrap_err();
    assert!(err.message().contains("invalid characters"));
}

#[test]
fn add_custom_agent_rejects_duplicate_key() {
    let reg = add_custom_agent(registry(vec![]), "my_tool", dir_entry("My Tool")).unwrap();
    let err = add_custom_agent(reg, "my_tool", dir_entry("My Tool 2")).unwrap_err();
    assert!(err.message().contains("already exists"));
}

#[test]
fn update_custom_agent_round_trip() {
    let reg = add_custom_agent(registry(vec![]), "my_tool", dir_entry("My Tool")).unwrap();
    assert!(reg.adapters.get("my_tool").unwrap().custom);
    let reg = update_custom_agent(reg, "my_tool", dir_entry("My Tool Renamed")).unwrap();
    assert_eq!(reg.adapters.get("my_tool").unwrap().display_name, "My Tool Renamed");
    assert!(reg.adapters.get("my_tool").unwrap().custom);
}

#[test]
fn update_custom_agent_rejects_missing_key() {
    let err = update_custom_agent(registry(vec![]), "ghost", dir_entry("X")).unwrap_err();
    assert!(err.message().contains("not found"));
}

#[test]
fn update_custom_agent_rejects_vendored_entry() {
    let reg = registry(vec![("codex", dir_entry("Codex vendored"))]);
    let err = update_custom_agent(reg, "codex", dir_entry("Hijacked")).unwrap_err();
    assert!(err.message().contains("vendored"));
}

#[test]
fn remove_custom_agent_round_trip() {
    let reg = add_custom_agent(registry(vec![]), "my_tool", dir_entry("My Tool")).unwrap();
    let reg = remove_custom_agent(reg, "my_tool").unwrap();
    assert!(!reg.adapters.contains_key("my_tool"));
    assert_eq!(reg.adapters.len(), 0);
}

#[test]
fn remove_custom_agent_rejects_vendored_entry() {
    let reg = registry(vec![("codex", dir_entry("Codex vendored"))]);
    let err = remove_custom_agent(reg, "codex").unwrap_err();
    assert!(err.message().contains("vendored"));
    assert_eq!(err.message(), "cannot remove a vendored (non-custom) agent entry: codex");
}

#[test]
fn disabled_builtin_tools_still_resolve_but_marked_disabled() {
    let mut table = builtins();
    table[1].enabled = false; // cursor
    let resolved = resolve_all_adapters(&registry(vec![]), &table);
    assert!(!find(&resolved, "cursor").enabled);
    assert!(find(&resolved, "codex").enabled);
}

#[test]
fn custom_keys_are_lowercase_ascii_digits_dash_and_underscore() {
    assert!(is_valid_custom_tool_key("my_tool-2"));
    assert!(!is_valid_custom_tool_key(""));
    assert!(!is_valid_custom_tool_key("MyTool"));
    assert!(!is_valid_custom_tool_key("a b"));
    for k in TIER1_KEYS {
        assert!(is_tier1_key(k));
    }
    assert!(!is_tier1_key("codex"));
}

use skillbasin::plugins::{enabled_plugin_keys, enabled_plugin_skills, first_install_path, parse_skill_name};
use skillbasin::strmap::StrMap;

fn skill_md(name: &str) -> String {
    format!("---\nname: {name}\ndescription: does {name} things\n---\n\n# {name}\n")
}

#[test]
fn reports_enabled_plugin_skill_with_attribution() {
    let flags = vec![("off-one@mp".to_string(), Some(false)), ("vercel-plugin@vercel".to_string(), Some(true))];
    let enabled = enabled_plugin_keys(&flags);
    assert_eq!(enabled, vec!["vercel-plugin@vercel".to_string()]);

    let install = first_install_path(&vec![Some("/home/u/.agent/plugins/cache/vercel/vercel-plugin/abc".to_string())]);
    assert!(install.is_some());
    // Skills found under `skills/` and the nested skills directory of the install.
    let names: Vec<String> = [skill_md("nextjs"), skill_md("ai-sdk")].iter().filter_map(|t| parse_skill_name(t)).collect();
    let mut provided = StrMap::new();
    provided.insert("vercel-plugin@vercel".to_string(), names);

    let got = enabled_plugin_skills(&enabled, &provided);
    assert_eq!(got.get("nextjs").map(String::as_str), Some("vercel-plugin@vercel"));
    assert_eq!(got.get("ai-sdk").map(String::as_str), Some("vercel-plugin@vercel"));
    assert_eq!(got.len(), 2);
}

#[test]
fn ignores_disabled_plugin() {
    let enabled = enabled_plugin_keys(&vec![("p@x".to_string(), Some(false))]);
    let mut provided = StrMap::new();
    provided.insert("p@x".to_string(), vec!["nextjs".to_string()]);
    assert_eq!(enabled_plugin_skills(&enabled, &provided).len(), 0);
}

#[test]
fn missing_config_yields_empty() {
    assert_eq!(enabled_plugin_skills(&vec![], &StrMap::new()).len(), 0);
}

#[test]
fn enabled_but_not_installed_is_skipped() {
    let enabled = enabled_plugin_keys(&vec![("ghost@mp".to_string(), Some(true))]);
    assert_eq!(enabled_plugin_skills(&enabled, &StrMap::new()).len(), 0);
}

#[test]
fn the_first_plugin_to_claim_a_name_keeps_it() {
    let enabled = vec!["a@m".to_string(), "b@m".to_string()];
    let mut provided = StrMap::new();
    provided.insert("a@m".to_string(), vec!["shared".to_string()]);
    provided.insert("b@m".to_string(), vec!["shared".to_string(), "own".to_string()]);
    let got = enabled_plugin_skills(&enabled, &provided);
    assert_eq!(got.get("shared").unwrap(), "a@m");
    assert_eq!(got.get("own").unwrap(), "b@m");
}

#[test]
fn non_boolean_flags_and_records_without_a_path_count_for_nothing() {
    assert!(enabled_plugin_keys(&vec![("x@m".to_string(), None)]).is_empty());
    assert_eq!(first_install_path(&vec![None, Some("/p".to_string()), Some("/q".to_string())]).as_deref(), Some("/p"));
    assert_eq!(first_install_path(&vec![None]), None);
}

#[test]
fn skill_name_comes_from_the_frontmatter() {
    assert_eq!(parse_skill_name(&skill_md("nextjs")).as_deref(), Some("nextjs"));
    assert_eq!(parse_skill_name("\u{feff}\n\n---\r\nname: \"quoted\"  \r\n---\r\n").as_deref(), Some("quoted"));
    assert_eq!(parse_skill_name("---\nname: '  '\nname: second\n---\n").as_deref(), Some("second"));
    assert_eq!(parse_skill_name("# no frontmatter\n---\nname: x\n---\n"), None);
    assert_eq!(parse_skill_name("---\ndescription: d\n---\nname: late\n"), None);
    assert_eq!(parse_skill_name(""), None);
}

use skillbasin::export::{archive_entry_name, default_export_file_name};

#[test]
fn default_export_file_name_is_slugged_and_stable() {
    assert_eq!(default_export_file_name("frontend-design", "2026-07-09.85fe"), "frontend-design-2026-07-09.85fe.zip");
    // Version labels are filesystem-safe already, but a display name may not
    // be; never let a name build a path.
    assert_eq!(default_export_file_name("my skill/v2", "1.0.0"), "my-skill-v2-1.0.0.zip");
}

#[test]
fn export_file_name_of_an_unusable_name_falls_back_to_skill() {
    assert_eq!(default_export_file_name("///", "1.0.0"), "skill-1.0.0.zip");
    assert_eq!(default_export_file_name("", "2"), "skill-2.zip");
    assert_eq!(default_export_file_name("a.b_c", "1"), "a.b_c-1.zip");
}

#[test]
fn archive_entries_sit_under_the_skill_root_with_forward_slashes() {
    let comps = vec!["assets".to_string(), "a.txt".to_string()];
    assert_eq!(archive_entry_name("demo", &comps), "demo/assets/a.txt");
    assert_eq!(archive_entry_name("demo", &vec!["SKILL.md".to_string()]), "demo/SKILL.md");
}

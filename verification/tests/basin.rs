use skillbasin::paths::PathStyle;
use skillbasin::basin::{
    add_skill_version, basin_init, migrate_central_to_basin, recorded_content_hash, skill_dir, unix_days_to_date,
    version_dir, version_dir_in, version_label, BasinError, BasinManifest, SecurityInfo, SkillMeta, SkillSource, VersionInfo,
    BASIN_SCHEMA_VERSION,
};
use skillbasin::strmap::StrMap;

fn info(hash: &str, at: &str) -> VersionInfo {
    VersionInfo { content_hash: hash.to_string(), added_at: at.to_string() }
}

#[test]
fn version_label_prefers_semver() {
    assert_eq!(version_label(Some("2.1.0"), "2026-07-08", "sha256:a3f2eeff"), "2.1.0");
}

#[test]
fn version_label_falls_back_to_date_and_hash4() {
    assert_eq!(version_label(None, "2026-07-08", "sha256:a3f2eeff"), "2026-07-08.a3f2");
    // No algorithm prefix: first 4 chars of the raw hash.
    assert_eq!(version_label(None, "2026-07-08", "deadbeef"), "2026-07-08.dead");
}

#[test]
fn version_label_with_a_short_hash_keeps_what_there_is() {
    assert_eq!(version_label(None, "2026-07-08", "sha256:ab"), "2026-07-08.ab");
}

#[test]
fn unix_days_convert_to_civil_dates() {
    assert_eq!(unix_days_to_date(0), "1970-01-01");
    assert_eq!(unix_days_to_date(19723), "2024-01-01");
    assert_eq!(unix_days_to_date(11016), "2000-02-29"); // leap day
}

#[test]
fn unix_days_cross_month_and_century_edges() {
    assert_eq!(unix_days_to_date(31), "1970-02-01");
    assert_eq!(unix_days_to_date(365), "1971-01-01");
    assert_eq!(unix_days_to_date(10957), "2000-01-01");
    assert_eq!(unix_days_to_date(47541), "2100-03-01"); // 2100 is not a leap year
}

#[test]
fn basin_init_writes_a_fresh_manifest_and_keeps_an_existing_one() {
    let manifest = basin_init(None, "kerem-basin", "2026-07-08");
    assert_eq!(manifest.schema_version, BASIN_SCHEMA_VERSION);
    assert_eq!(manifest.name, "kerem-basin");
    assert_eq!(manifest.created_at, "2026-07-08");

    // Second init must not overwrite the manifest.
    let again = basin_init(Some(manifest), "other-name", "2027-01-01");
    assert_eq!(again.name, "kerem-basin");
    let _: BasinManifest = again;
}

#[test]
fn skill_and_version_dirs_follow_the_layout() {
    assert_eq!(skill_dir("/b", "demo"), "/b/skills/demo");
    assert_eq!(version_dir("/b", "demo", "1.0.0"), "/b/skills/demo/versions/1.0.0");
    assert_eq!(version_dir("/b/", "demo", "1.0.0"), "/b/skills/demo/versions/1.0.0");
    assert_eq!(version_dir_in("C:\\b", "demo", "1.0.0", PathStyle::Windows), "C:\\b\\skills\\demo\\versions\\1.0.0");
}

#[test]
fn add_skill_version_updates_latest_and_keeps_old_versions() {
    let first = add_skill_version(None, "demo", "1.0.0", info("sha256:aa", "2026-07-08"), None).unwrap();
    assert_eq!(first.latest, "1.0.0");
    assert_eq!(first.display_name, "demo");
    assert_eq!(first.source.source_type, "local");
    assert_eq!(first.security.scan_status, "unscanned");
    assert_eq!(first.versions.get("1.0.0").unwrap().content_hash, "sha256:aa");

    let second = add_skill_version(Some(first), "demo", "1.0.1", info("sha256:aa", "2026-07-09"), None).unwrap();
    assert_eq!(second.latest, "1.0.1");
    assert_eq!(second.versions.len(), 2);
    // The old version stays: rollback is free.
    assert!(second.versions.contains_key("1.0.0"));
}

#[test]
fn add_skill_version_rejects_duplicate_label() {
    let first = add_skill_version(None, "demo", "1.0.0", info("sha256:aa", "2026-07-08"), None).unwrap();
    let err = add_skill_version(Some(first), "demo", "1.0.0", info("sha256:bb", "2026-07-08"), None).unwrap_err();
    match err {
        BasinError::DuplicateLabel { id, label } => {
            assert_eq!(id, "demo");
            assert!(label.contains("1.0.0"));
        },
    }
}

#[test]
fn add_skill_version_takes_a_given_source() {
    let src = SkillSource {
        source_type: "git".to_string(),
        url: Some("https://github.com/x/y".to_string()),
        subpath: None,
        git_ref: Some("main".to_string()),
    };
    let meta = add_skill_version(None, "demo", "1.0.0", info("sha256:aa", "2026-07-08"), Some(src)).unwrap();
    assert_eq!(meta.source.source_type, "git");
    assert_eq!(meta.source.git_ref.as_deref(), Some("main"));
}

#[test]
fn recorded_content_hash_reads_the_metadata() {
    let mut versions = StrMap::new();
    versions.insert("1.0.0".to_string(), info("sha256:aabbccdd", "2026-06-01"));
    let meta = SkillMeta {
        id: "x".to_string(),
        display_name: "X".to_string(),
        source: SkillSource::default(),
        tags: vec![],
        latest: "1.0.0".to_string(),
        versions,
        security: SecurityInfo::default(),
    };
    assert_eq!(recorded_content_hash(Some(&meta), "1.0.0").as_deref(), Some("sha256:aabbccdd"));
    assert_eq!(recorded_content_hash(Some(&meta), "2.0.0"), None);
    assert_eq!(recorded_content_hash(None, "1.0.0"), None);
}

#[test]
fn migrate_central_moves_skills_as_initial_versions() {
    let central = vec!["skill-a".to_string(), "skill-b".to_string()];
    let mut sources = StrMap::new();
    sources.insert(
        "skill-a".to_string(),
        SkillSource {
            source_type: "git".to_string(),
            url: Some("https://github.com/x/y".to_string()),
            ..Default::default()
        },
    );

    let (report, picked) = migrate_central_to_basin(&central, &vec![], &sources);
    assert_eq!(report.migrated.len(), 2);
    assert!(report.skipped.is_empty());
    assert_eq!(picked[0].source_type, "git");
    // No source info in the store -> falls back to "local".
    assert_eq!(picked[1].source_type, "local");

    // Re-running the migration skips everything (idempotent).
    let (report2, picked2) = migrate_central_to_basin(&central, &central, &sources);
    assert!(report2.migrated.is_empty());
    assert_eq!(report2.skipped.len(), 2);
    assert!(picked2.is_empty());
}

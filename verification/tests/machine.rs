use skillbasin::machine::{choose_machine_id, slugify};

#[test]
fn slugify_lowercases_and_replaces_non_alphanumeric() {
    assert_eq!(slugify("Kerem-PC"), "kerem-pc");
    assert_eq!(slugify("kerem_pc.local"), "kerem-pc-local");
    assert_eq!(slugify("---weird---"), "weird");
}

#[test]
fn slugify_is_idempotent_and_never_leaves_edge_dashes() {
    for name in ["Kerem-PC", "  spaced  host ", "é-ü", "a--b"] {
        let once = slugify(name);
        assert_eq!(slugify(&once), once);
        assert!(!once.starts_with('-') && !once.ends_with('-'));
        assert!(once.chars().all(|c| c.is_ascii_lowercase() || c.is_ascii_digit() || c == '-'));
    }
    assert_eq!(slugify("é-ü"), "");
}

#[test]
fn generates_and_persists_a_machine_id() {
    let (first, generated) = choose_machine_id(None, None);
    assert!(generated);
    assert!(!first.is_empty());
    assert!(first.starts_with("machine-"));
    assert_eq!(first.len(), "machine-".len() + 32);

    let (second, generated_again) = choose_machine_id(Some(first.clone()), None);
    assert!(!generated_again);
    assert_eq!(first, second, "machine id must be stable across calls");
}

#[test]
fn machine_id_prefers_the_host_name_and_ignores_a_blank_stored_id() {
    let (id, generated) = choose_machine_id(Some("   ".to_string()), Some("Kerem-PC".to_string()));
    assert!(generated);
    assert_eq!(id, "kerem-pc");
    // A host name that slugs to nothing falls back to a generated id.
    let (id2, _) = choose_machine_id(None, Some("---".to_string()));
    assert!(id2.starts_with("machine-"));
}

#[test]
fn a_host_name_id_is_kept_when_handed_back() {
    let (id, generated) = choose_machine_id(None, Some("  Kerem-PC.local ".to_string()));
    assert!(generated);
    assert_eq!(id, "kerem-pc-local");
    let (again, generated_again) = choose_machine_id(Some(id.clone()), Some("other-host".to_string()));
    assert!(!generated_again);
    assert_eq!(again, id);
}

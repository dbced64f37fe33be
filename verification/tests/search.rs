use skillbasin::search::{
    github_search_url, normalize_spdx, online_results, repo_summaries, skills_search_url, RepoItem, SkillsShItem,
};

fn item(name: &str, installs: u64, source: &str, license: Option<&str>) -> SkillsShItem {
    SkillsShItem {
        name: name.to_string(),
        installs,
        source: source.to_string(),
        license: license.map(|l| l.to_string()),
    }
}

fn response_items() -> Vec<SkillsShItem> {
    vec![
        item("react-expert", 203000, "vercel-labs/agent-skills", Some("MIT")),
        item("vue-master", 57000, "vuejs/vue-skills", None),
    ]
}

#[test]
fn parses_search_results() {
    assert_eq!(skills_search_url("http://127.0.0.1:1234", "react", 20), "http://127.0.0.1:1234/api/search?q=react&limit=20");
    let out = online_results(&response_items());
    assert_eq!(out.len(), 2);
    assert_eq!(out[0].name, "react-expert");
    assert_eq!(out[0].installs, 203000);
    assert_eq!(out[0].source, "vercel-labs/agent-skills");
    assert_eq!(out[0].source_url, "https://github.com/vercel-labs/agent-skills");
}

#[test]
fn source_url_is_constructed_from_source() {
    assert_eq!(skills_search_url("http://h/", "vue", 5), "http://h/api/search?q=vue&limit=5");
    let out = online_results(&response_items());
    assert_eq!(out[1].source_url, "https://github.com/vuejs/vue-skills");
}

#[test]
fn empty_results() {
    assert_eq!(skills_search_url("http://h", "nonexistent", 10), "http://h/api/search?q=nonexistent&limit=10");
    assert!(online_results(&vec![]).is_empty());
}

#[test]
fn license_is_carried_through_when_present_and_absent() {
    let out = online_results(&response_items());
    assert_eq!(out[0].license.as_deref(), Some("MIT"));
    assert_eq!(out[1].license, None);
}

#[test]
fn blank_license_string_is_treated_as_unknown() {
    let out = online_results(&vec![item("x", 1, "a/b", Some("  "))]);
    assert_eq!(out[0].license, None);
    let trimmed = online_results(&vec![item("x", 1, "a/b", Some(" Apache-2.0 "))]);
    assert_eq!(trimmed[0].license.as_deref(), Some("Apache-2.0"));
}

#[test]
fn search_queries_are_percent_encoded_and_limits_clamped() {
    assert_eq!(skills_search_url("https://skills.sh", "a b&c/é", 0), "https://skills.sh/api/search?q=a%20b%26c%2F%C3%A9&limit=1");
    assert_eq!(skills_search_url("https://skills.sh", "x", 51), "https://skills.sh/api/search?q=x&limit=50");
    assert_eq!(skills_search_url("https://skills.sh", "A-z_0.~", 7), "https://skills.sh/api/search?q=A-z_0.~&limit=7");
}

fn repo(name: &str, license: Option<Option<&str>>) -> RepoItem {
    RepoItem {
        full_name: name.to_string(),
        html_url: format!("https://example.com/{name}"),
        description: None,
        stargazers_count: 1,
        updated_at: "2020-01-01T00:00:00Z".to_string(),
        clone_url: format!("https://example.com/{name}.git"),
        license: license.map(|l| l.map(|s| s.to_string())),
    }
}

#[test]
fn license_is_read_from_spdx_id_and_stays_unknown_when_absent() {
    let items = vec![
        repo("o/licensed", Some(Some("MIT"))),
        repo("o/unlicensed", None),
        repo("o/noassertion", Some(Some("NOASSERTION"))),
    ];
    let out = repo_summaries(&items);
    assert_eq!(out[0].license.as_deref(), Some("MIT"));
    assert_eq!(out[1].license, None);
    // NOASSERTION is not a license.
    assert_eq!(out[2].license, None);
}

#[test]
fn spdx_normalization_trims_and_ignores_case_of_noassertion() {
    assert_eq!(normalize_spdx(&Some(Some("  noassertion ".to_string()))), None);
    assert_eq!(normalize_spdx(&Some(Some(" ".to_string()))), None);
    assert_eq!(normalize_spdx(&Some(None)), None);
    assert_eq!(normalize_spdx(&Some(Some(" BSD-3-Clause ".to_string()))).as_deref(), Some("BSD-3-Clause"));
}

#[test]
fn limit_is_clamped() {
    assert_eq!(github_search_url("http://h", "hello", 0), "http://h/search/repositories?q=hello&per_page=1");
    assert_eq!(github_search_url("http://h", "hello", 999), "http://h/search/repositories?q=hello&per_page=50");
}

#[test]
fn maps_fields() {
    assert_eq!(github_search_url("http://h", "x", 2), "http://h/search/repositories?q=x&per_page=2");
    let mut one = repo("o/r", None);
    one.description = Some("d".to_string());
    one.stargazers_count = 123;
    let out = repo_summaries(&vec![one]);
    assert_eq!(out[0].full_name, "o/r");
    assert_eq!(out[0].stars, 123);
    assert_eq!(out[0].description.as_deref(), Some("d"));
    assert_eq!(out[0].clone_url, "https://example.com/o/r.git");
}

use skillbasin::paths::{
    check_skill_id, expand_home_path, expand_home_path_with, file_name_in, host_path_style, join_path, join_path_in,
    with_file_name_in, PathError,
    PathStyle,
};
use skillbasin::pins::manifest_path_in;

#[test]
fn expand_home_path_basic() {
    let home = dirs::home_dir().expect("home");
    assert_eq!(expand_home_path("~").unwrap(), home.to_string_lossy());
    assert_eq!(expand_home_path("~/abc").unwrap(), home.join("abc").to_string_lossy());
}

#[test]
fn expand_home_path_empty_is_error() {
    let err = expand_home_path("  ").unwrap_err().message();
    assert!(err.contains("storage path is empty"));
}

#[test]
fn expand_home_path_with_a_given_home() {
    let home = Some("/home/u".to_string());
    assert_eq!(expand_home_path_with(" ~/x/y ", home.clone(), PathStyle::Unix).unwrap(), "/home/u/x/y");
    assert_eq!(expand_home_path_with("~", home.clone(), PathStyle::Unix).unwrap(), "/home/u");
    assert_eq!(expand_home_path_with("/abs/p", home.clone(), PathStyle::Unix).unwrap(), "/abs/p");
    assert_eq!(expand_home_path_with("~user", home, PathStyle::Unix).unwrap(), "~user");
    assert_eq!(expand_home_path_with("~/x", None, PathStyle::Unix).unwrap_err(), PathError::NoHome);
    assert_eq!(expand_home_path_with("\t", None, PathStyle::Unix).unwrap_err(), PathError::Empty);
}

#[test]
fn paths_join_like_pathbuf_push() {
    assert_eq!(join_path("/a", "b"), "/a/b");
    assert_eq!(join_path("/a/", "b"), "/a/b");
    assert_eq!(join_path("/a", "/b"), "/b");
    assert_eq!(join_path("", "b"), "b");
}

#[test]
fn unix_joins_agree_with_std_path() {
    let bases = ["/a", "/a/", "", "a", "C:", "a\\b"];
    let comps = ["b", "/b", "", "b/c", "C:x", "\\x"];
    for base in bases {
        for comp in comps {
            let expected = std::path::Path::new(base).join(comp).to_string_lossy().to_string();
            assert_eq!(join_path_in(base, comp, PathStyle::Unix), expected, "{base:?} + {comp:?}");
        }
    }
}

#[test]
fn windows_joins_use_backslashes_and_keep_the_drive() {
    assert_eq!(join_path_in("C:\\a", "b", PathStyle::Windows), "C:\\a\\b");
    assert_eq!(join_path_in("C:\\a\\", "b", PathStyle::Windows), "C:\\a\\b");
    assert_eq!(join_path_in("C:\\a/", "b", PathStyle::Windows), "C:\\a/b");
    assert_eq!(join_path_in("C:", "b", PathStyle::Windows), "C:b");
    assert_eq!(join_path_in("C:\\a", "\\b", PathStyle::Windows), "C:\\b");
    assert_eq!(join_path_in("C:\\a", "D:\\b", PathStyle::Windows), "D:\\b");
    assert_eq!(join_path_in("a", "/b", PathStyle::Windows), "/b");
    assert_eq!(
        expand_home_path_with("~/x/y", Some("C:\\Users\\u".to_string()), PathStyle::Windows).unwrap(),
        "C:\\Users\\u\\x/y"
    );
}

#[test]
fn skill_ids_must_be_one_plain_name() {
    for st in [PathStyle::Unix, PathStyle::Windows] {
        assert!(check_skill_id("demo", st));
        assert!(check_skill_id("demo/", st));
        assert!(check_skill_id("demo/.", st));
        assert!(check_skill_id("..demo", st));
        assert!(check_skill_id("ab:c", st));
        for bad in ["", ".", "..", "/demo", "a/b", "../../.ssh", "de\0mo", "./demo"] {
            assert!(!check_skill_id(bad, st), "{bad:?}");
        }
    }
}

#[test]
fn unix_skill_ids_agree_with_std_components() {
    let cases = ["demo", "demo/", "demo/.", "..demo", "", ".", "..", "/demo", "a/b", "../../.ssh", "./demo", "a\\b", "C:x", "a//./"];
    for c in cases {
        let mut comps = std::path::Path::new(c).components();
        let single = matches!(comps.next(), Some(std::path::Component::Normal(_))) && comps.next().is_none();
        assert_eq!(check_skill_id(c, PathStyle::Unix), single, "{c:?}");
    }
}

#[test]
fn windows_skill_ids_split_on_backslashes_and_refuse_prefixes() {
    assert!(check_skill_id("..\\..\\.ssh", PathStyle::Unix));
    assert!(!check_skill_id("..\\..\\.ssh", PathStyle::Windows));
    assert!(check_skill_id("a\\b", PathStyle::Unix));
    assert!(!check_skill_id("a\\b", PathStyle::Windows));
    assert!(check_skill_id("demo\\", PathStyle::Windows));
    assert!(check_skill_id("demo\\.", PathStyle::Windows));
    assert!(check_skill_id("C:x", PathStyle::Unix));
    assert!(!check_skill_id("C:x", PathStyle::Windows));
    assert!(!check_skill_id("C:", PathStyle::Windows));
    assert!(!check_skill_id("\\\\server\\share", PathStyle::Windows));
    assert!(!check_skill_id("\\demo", PathStyle::Windows));
}

#[test]
fn unix_file_names_agree_with_std_path() {
    let cases = [
        "/t/cc/demo", "/t/cc/demo/", "demo", "a/./", "a/b/.", "/", "", ".", "..", "a/..", "./a", "//a//b//",
        "a\\b", "/a/./b/./", "./", "a/b/../c", ".hidden", "a/.x/",
    ];
    for c in cases {
        let expected = std::path::Path::new(c).file_name().map(|n| n.to_string_lossy().to_string());
        assert_eq!(file_name_in(c, PathStyle::Unix), expected, "file name of {:?}", c);
        let renamed = std::path::Path::new(c).with_file_name("n.json").to_string_lossy().to_string();
        assert_eq!(with_file_name_in(c, "n.json", PathStyle::Unix), renamed, "renamed {:?}", c);
    }
}

#[test]
fn windows_paths_split_on_both_separators_and_keep_the_drive() {
    assert_eq!(file_name_in("a\\b", PathStyle::Windows), Some("b".to_string()));
    assert_eq!(file_name_in("a\\b", PathStyle::Unix), Some("a\\b".to_string()));
    assert_eq!(file_name_in("C:\\", PathStyle::Windows), None);
    assert_eq!(file_name_in("C:", PathStyle::Windows), None);
    assert_eq!(file_name_in("C:demo", PathStyle::Windows), Some("demo".to_string()));
    assert_eq!(file_name_in("C:\\t\\demo\\", PathStyle::Windows), Some("demo".to_string()));
    assert_eq!(with_file_name_in("C:\\t\\demo", "x", PathStyle::Windows), "C:\\t\\x");
    assert_eq!(with_file_name_in("C:\\t/demo\\", "x", PathStyle::Windows), "C:\\t\\x");
    assert_eq!(with_file_name_in("C:demo", "x", PathStyle::Windows), "C:x");
    assert_eq!(with_file_name_in("C:\\", "x", PathStyle::Windows), "C:\\x");
    assert_eq!(with_file_name_in("demo", "x", PathStyle::Windows), "x");
}

#[test]
fn manifest_paths_under_each_platform() {
    assert_eq!(manifest_path_in("/t/cc/demo/", PathStyle::Unix), "/t/cc/demo.skillbasin.json");
    assert_eq!(manifest_path_in("C:\\t\\cc\\demo", PathStyle::Windows), "C:\\t\\cc\\demo.skillbasin.json");
    assert_eq!(manifest_path_in("C:/t/cc/demo/", PathStyle::Windows), "C:/t/cc\\demo.skillbasin.json");
    assert_eq!(manifest_path_in("a\\b", PathStyle::Unix), "a\\b.skillbasin.json");
    assert_eq!(manifest_path_in("a\\b", PathStyle::Windows), "a\\b.skillbasin.json");
    assert_eq!(manifest_path_in("/", PathStyle::Unix), "/.skillbasin.json");
}

#[test]
fn the_host_path_rules_follow_the_main_separator() {
    let expected = if std::path::MAIN_SEPARATOR == '\\' { PathStyle::Windows } else { PathStyle::Unix };
    assert_eq!(host_path_style(), expected);
    assert_eq!(join_path("/a", "b"), join_path_in("/a", "b", expected));
}

use qplug::{CheckOption, Template, find_project_dir};

fn dir(parts: &[&str]) -> Vec<String> {
    parts.iter().map(|p| p.to_string()).collect()
}

#[test]
fn test_find_marker_file() {
    let root_path = dir(&["/", "tmp", "project"]);
    let found_marker = find_project_dir(&root_path, &vec![true, false, false]).unwrap();
    assert_eq!(found_marker, root_path);
}

#[test]
fn test_find_marker_file_not_found() {
    let nested = dir(&["/", "tmp", "project", "nested"]);
    let found_marker = find_project_dir(&nested, &vec![false, false, false, false]);
    assert!(found_marker.is_none());
}

#[test]
fn nearest_marked_ancestor_wins() {
    let start = dir(&["/", "home", "outer", "inner", "src"]);
    let root = find_project_dir(&start, &vec![false, true, true, false, false]).unwrap();
    assert_eq!(root, dir(&["/", "home", "outer", "inner"]));
}

#[test]
fn two_directories_in_one_project_share_the_root() {
    let a = dir(&["/", "p", "x", "y"]);
    let b = dir(&["/", "p", "z"]);
    let ra = find_project_dir(&a, &vec![false, false, true, false]).unwrap();
    let rb = find_project_dir(&b, &vec![false, true, false]).unwrap();
    assert_eq!(ra, rb);
    let again = find_project_dir(&ra, &vec![true, false]).unwrap();
    assert_eq!(again, ra);
}

#[test]
fn short_observation_list_counts_as_not_found() {
    let start = dir(&["/", "a", "b"]);
    assert!(find_project_dir(&start, &vec![false]).is_none());
    assert!(find_project_dir(&dir(&[]), &vec![true]).is_none());
}

#[test]
fn template_from_setting() {
    assert_eq!(Template::from_setting(None), Template::EmbeddedBundle);
    assert_eq!(
        Template::from_setting(Some("https://example.com/t.git".to_string())),
        Template::RemoteRepository("https://example.com/t.git".to_string())
    );
    assert_eq!(
        Template::from_setting(Some("My/path/to/template".to_string())),
        Template::LocalDirectory("My/path/to/template".to_string())
    );
    assert_eq!(
        Template::from_setting(Some("htt".to_string())),
        Template::LocalDirectory("htt".to_string())
    );
}

#[test]
fn check_options_are_distinct() {
    assert_ne!(CheckOption::Version, CheckOption::Qplug);
    assert_eq!(qplug::MARKER_FILE, ".qplug");
    assert_eq!(qplug::PLUGIN_ROOT, "plugin_src");
}

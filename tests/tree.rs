use qplug::{extraction_plan, find_file_recursively, CopyStep, FileTree};

fn file(n: &str) -> FileTree {
    FileTree::File(n.to_string())
}

fn dir(n: &str, children: Vec<FileTree>) -> FileTree {
    FileTree::Dir(n.to_string(), children)
}

fn path(parts: &[&str]) -> Vec<String> {
    parts.iter().map(|p| p.to_string()).collect()
}

fn sample() -> Vec<FileTree> {
    vec![
        dir("a", vec![file("x.lua"), dir("info.lua", vec![]), dir("deep", vec![file("info.lua")])]),
        file("info.lua"),
        dir("b", vec![file("info.lua")]),
    ]
}

#[test]
fn finds_first_file_depth_first() {
    let found = find_file_recursively(&sample(), "info.lua").unwrap();
    assert_eq!(found, path(&["a", "deep", "info.lua"]));
}

#[test]
fn directories_do_not_match_and_absence_is_none() {
    let entries = vec![dir("init.lua", vec![])];
    assert!(find_file_recursively(&entries, "init.lua").is_none());
    assert!(find_file_recursively(&sample(), "missing.lua").is_none());
    assert_eq!(find_file_recursively(&sample(), "x.lua").unwrap(), path(&["a", "x.lua"]));
}

#[test]
fn plan_makes_directories_before_their_files() {
    let entries = vec![file("init.lua"), dir("lib", vec![file("m.lua"), dir("sub", vec![])])];
    let plan = extraction_plan(&entries);
    assert_eq!(
        plan,
        vec![
            CopyStep::CopyFile(path(&["init.lua"])),
            CopyStep::MakeDir(path(&["lib"])),
            CopyStep::CopyFile(path(&["lib", "m.lua"])),
            CopyStep::MakeDir(path(&["lib", "sub"])),
        ]
    );
}

#[test]
fn empty_tree_has_empty_plan() {
    assert!(extraction_plan(&vec![]).is_empty());
}

use qplug::{BundleError, ModuleSet, bundle_file_name, find_lua_requirements, module_file_path};

fn modules(files: &[(&str, &str)]) -> ModuleSet {
    ModuleSet {
        files: files.iter().map(|(p, t)| (p.to_string(), t.to_string())).collect(),
    }
}

#[test]
fn dotted_module_resolves_to_nested_file() {
    assert_eq!(module_file_path("a.b"), "a/b.lua");
    assert_eq!(module_file_path("a/b"), "a/b.lua");
    assert_eq!(module_file_path("core"), "core.lua");
}

#[test]
fn module_text_is_inlined_at_the_call_site() {
    let m = modules(&[("a/b.lua", "local x = 1")]);
    let out = find_lua_requirements("start\nrequire('a.b')\nend", &m).unwrap();
    assert_eq!(out.text, "start\nlocal x = 1\nend");
    assert!(out.missing.is_empty());
}

#[test]
fn quoting_and_separators_resolve_the_same() {
    let m = modules(&[("a/b.lua", "B")]);
    let out = find_lua_requirements(
        "require('a.b') require(\"a.b\") require('a/b') require(\"a/b\")",
        &m,
    )
    .unwrap();
    assert_eq!(out.text, "B B B B");
}

#[test]
fn missing_module_is_reported_and_left_in_place() {
    let m = modules(&[("present.lua", "P")]);
    let out = find_lua_requirements("require('present')\nrequire('gone.away')", &m).unwrap();
    assert_eq!(out.text, "P\nrequire('gone.away')");
    assert_eq!(out.missing, vec!["gone.away".to_string()]);
    assert!(!out.text.is_empty());
}

#[test]
fn nested_requirements_are_expanded() {
    let m = modules(&[
        ("a.lua", "A[require('b')]"),
        ("b.lua", "B[require('c.d')]"),
        ("c/d.lua", "D"),
    ]);
    let out = find_lua_requirements("require(\"a\")", &m).unwrap();
    assert_eq!(out.text, "A[B[D]]");
}

#[test]
fn shared_module_is_inlined_at_every_site() {
    let m = modules(&[
        ("a.lua", "a(require('util'))"),
        ("b.lua", "b(require('util'))"),
        ("util.lua", "U"),
    ]);
    let out = find_lua_requirements("require('a') require('b')", &m).unwrap();
    assert_eq!(out.text, "a(U) b(U)");
}

#[test]
fn cycle_between_two_modules_is_an_error() {
    let m = modules(&[("a.lua", "require('b')"), ("b.lua", "require('a')")]);
    match find_lua_requirements("main require('a')", &m) {
        Err(BundleError::CyclicRequirement(chain)) => {
            assert_eq!(chain, vec!["a.lua".to_string(), "b.lua".to_string(), "a.lua".to_string()]);
        }
        Ok(_) => panic!("cycle not detected"),
    }
}

#[test]
fn module_requiring_itself_is_an_error() {
    let m = modules(&[("self.lua", "x require('self') y")]);
    assert!(find_lua_requirements("require('self')", &m).is_err());
}

#[test]
fn text_without_requirements_is_unchanged() {
    let m = modules(&[]);
    let text = "print('require') require() require('') require('x'";
    let out = find_lua_requirements(text, &m).unwrap();
    assert_eq!(out.text, text);
    assert!(out.missing.is_empty());
}

#[test]
fn bundle_is_named_after_the_root_directory() {
    assert_eq!(bundle_file_name("MyPlugin"), "MyPlugin.qplug");
}

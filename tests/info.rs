use qplug::{BuildIncrement, MetadataError, PluginInfo};

fn sample_source() -> String {
    r#"
-- plugin metadata
PluginInfo = {
  Name = "Example Plugin",
  Version = "1.0",
  BuildVersion = "1.0.0.0",
  Id = "2a5c1cde-4d8c-4a7e-9f0e-7c0b9f6a1d23",
  Author = "Jane Doe",
  Description = "An example",
}
"#
    .to_string()
}

fn sample_info() -> PluginInfo {
    PluginInfo::from_lua_source(&sample_source()).expect("info file not found")
}

#[test]
fn test_update_major_build_number() {
    let updated = PluginInfo::update_build_version("1.0.0.0".to_string(), BuildIncrement::Major);
    let control = "2.0.0.0".to_string();
    assert_eq!(updated, control);
}

#[test]
fn test_update_minor_build_number() {
    let updated = PluginInfo::update_build_version("1.0.0.0".to_string(), BuildIncrement::Minor);
    let control = "1.1.0.0".to_string();
    assert_eq!(updated, control);
}

#[test]
fn test_update_patch_build_number() {
    let updated = PluginInfo::update_build_version("1.0.0.0".to_string(), BuildIncrement::Patch);
    let control = "1.0.1.0".to_string();
    assert_eq!(updated, control);
}

#[test]
fn test_update_patch_build_number_with_big_number() {
    let updated = PluginInfo::update_build_version("1.0.999.0".to_string(), BuildIncrement::Patch);
    let control = "1.0.1000.0".to_string();
    assert_eq!(updated, control);
}

#[test]
fn test_update_dev_build_number() {
    let updated = PluginInfo::update_build_version("1.0.0.0".to_string(), BuildIncrement::Dev);
    let control = "1.0.0.1".to_string();
    assert_eq!(updated, control);
}

#[test]
fn test_get_info() {
    let info = sample_info();
    assert_eq!(info.name, "Example Plugin");
    assert_eq!(info.build_version, "1.0.0.0");
    assert_eq!(info.id, "2a5c1cde-4d8c-4a7e-9f0e-7c0b9f6a1d23");
}

#[test]
fn test_update_info() {
    let info = sample_info();
    let id = info.id.clone();
    let before = info.build_version.clone();
    let updated = info.update_version(BuildIncrement::Patch);

    assert_ne!(&updated.build_version, &before);
    assert_eq!(&updated.id, &id);
}

#[test]
fn test_write_info() {
    let info = sample_info();
    let text = info.to_lua_source();
    assert_eq!(
        text,
        r#"PluginInfo = {Name = "Example Plugin", Version = "1.0", BuildVersion = "1.0.0.0", Id = "2a5c1cde-4d8c-4a7e-9f0e-7c0b9f6a1d23", Author = "Jane Doe", Description = "An example"}"#
    );
}

#[test]
fn large_patch_keeps_short_version() {
    let info = PluginInfo {
        name: "p".to_string(),
        version: "1.0".to_string(),
        build_version: "1.0.999.0".to_string(),
        id: "x".to_string(),
        author: "a".to_string(),
        description: "d".to_string(),
    };
    let updated = info.update_version(BuildIncrement::Patch);
    assert_eq!(updated.build_version, "1.0.1000.0");
    assert_eq!(updated.version, "1.0");
}

#[test]
fn major_update_moves_short_version() {
    let mut info = sample_info();
    info.build_version = "1.4.7.9".to_string();
    let updated = info.update_version(BuildIncrement::Major);
    assert_eq!(updated.build_version, "2.0.0.0");
    assert_eq!(updated.version, "2.0");
    assert_eq!(updated.name, "Example Plugin");
    assert_eq!(updated.author, "Jane Doe");
    assert_eq!(updated.description, "An example");
}

#[test]
fn increments_are_monotonic_on_examples() {
    let levels = [
        BuildIncrement::Dev,
        BuildIncrement::Patch,
        BuildIncrement::Minor,
        BuildIncrement::Major,
    ];
    let start = "3.9.12.40";
    let expected = ["3.9.12.41", "3.9.13.0", "3.10.0.0", "4.0.0.0"];
    for (level, want) in levels.iter().zip(expected.iter()) {
        assert_eq!(PluginInfo::update_build_version(start.to_string(), *level), *want);
    }
}

#[test]
fn unparsable_components_count_as_zero() {
    assert_eq!(
        PluginInfo::update_build_version("1.x.3.4".to_string(), BuildIncrement::Minor),
        "1.1.0.0"
    );
    assert_eq!(
        PluginInfo::update_build_version("a.b.c.d".to_string(), BuildIncrement::Dev),
        "0.0.0.1"
    );
    assert_eq!(
        PluginInfo::update_build_version("".to_string(), BuildIncrement::Patch),
        "0.0.1.0"
    );
}

#[test]
fn missing_components_count_as_zero() {
    assert_eq!(
        PluginInfo::update_build_version("1.2".to_string(), BuildIncrement::Dev),
        "1.2.0.1"
    );
    assert_eq!(
        PluginInfo::update_build_version("0.0.1".to_string(), BuildIncrement::Patch),
        "0.0.2.0"
    );
}

#[test]
fn leading_zeros_and_extra_components() {
    assert_eq!(
        PluginInfo::update_build_version("01.002.0.0.7".to_string(), BuildIncrement::Minor),
        "1.3.0.0"
    );
}

#[test]
fn numbers_beyond_machine_integers_still_grow() {
    assert_eq!(
        PluginInfo::update_build_version(
            "1.0.99999999999999999999.0".to_string(),
            BuildIncrement::Patch
        ),
        "1.0.100000000000000000000.0"
    );
}

#[test]
fn short_version_follows_build_version() {
    assert_eq!(qplug::short_version("7.3.1.9"), "7.3");
    assert_eq!(qplug::short_version("7"), "7.0");
    let mut info = sample_info();
    info.build_version = "5.6.7.8".to_string();
    info.sync_version_with_build_version();
    assert_eq!(info.version, "5.6");
}

#[test]
fn new_record_starts_at_zero_with_fresh_id() {
    let info = PluginInfo::new("p".to_string(), "me".to_string(), "about".to_string());
    assert_eq!(info.build_version, "0.0.0.0");
    assert_eq!(info.version, "0.0");
    assert_eq!(info.id.len(), 36);
    assert_eq!(info.id.chars().filter(|c| *c == '-').count(), 4);
    let other = PluginInfo::new("p".to_string(), "me".to_string(), "about".to_string());
    assert_ne!(info.id, other.id);
}

#[test]
fn fields_by_name() {
    let mut info = sample_info();
    assert_eq!(info.get_field("Author"), "Jane Doe");
    assert_eq!(info.get_field("BuildVersion"), "1.0.0.0");
    assert!(info.update_field("Description", "changed".to_string()));
    assert_eq!(info.description, "changed");
    assert!(!info.update_field("Colour", "blue".to_string()));
    assert_eq!(info.get_field("Name"), "Example Plugin");
}

#[test]
fn metadata_round_trip_with_escapes() {
    let info = PluginInfo {
        name: "Quote \"q\" and \\ slash".to_string(),
        version: "0.1".to_string(),
        build_version: "0.1.2.3".to_string(),
        id: "id-1".to_string(),
        author: "Line\nbreak\rreturn\ttab".to_string(),
        description: "it's".to_string(),
    };
    let text = info.to_lua_source();
    let back = PluginInfo::from_lua_source(&text).unwrap();
    assert_eq!(back.name, info.name);
    assert_eq!(back.version, info.version);
    assert_eq!(back.build_version, info.build_version);
    assert_eq!(back.id, info.id);
    assert_eq!(back.author, info.author);
    assert_eq!(back.description, info.description);
}

#[test]
fn metadata_errors() {
    assert_eq!(PluginInfo::from_lua_source("PluginInfo = {").unwrap_err(), MetadataError::Syntax);
    assert_eq!(PluginInfo::from_lua_source("").unwrap_err(), MetadataError::Syntax);
    assert_eq!(
        PluginInfo::from_lua_source("Other = {}").unwrap_err(),
        MetadataError::TableNotFound
    );
    assert_eq!(
        PluginInfo::from_lua_source("PluginInfo = 3").unwrap_err(),
        MetadataError::TableNotFound
    );
    assert_eq!(
        PluginInfo::from_lua_source("PluginInfo = {Name = \"n\", Version = 1}").unwrap_err(),
        MetadataError::MissingField("Version".to_string())
    );
    assert_eq!(
        PluginInfo::from_lua_source("PluginInfo = {}").unwrap_err(),
        MetadataError::MissingField("Name".to_string())
    );
}

#[test]
fn table_of_record_is_in_field_order() {
    let info = sample_info();
    let t = info.to_lua_table();
    let keys: Vec<&str> = t.entries.iter().map(|e| e.0.as_str()).collect();
    assert_eq!(keys, ["Name", "Version", "BuildVersion", "Id", "Author", "Description"]);
    let back = PluginInfo::from_table(&t).unwrap();
    assert_eq!(back.author, "Jane Doe");
}

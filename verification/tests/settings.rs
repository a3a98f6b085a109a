use path_sense_lsp::settings::{
    CompiledSettings, ConditionalMapping, MappingTargets, PathMapping, PathSenseSettings, SlashRoot,
};

fn targets(values: &[&str]) -> MappingTargets {
    MappingTargets::Many(values.iter().map(|value| value.to_string()).collect())
}

#[test]
fn defaults_match_linux_macos_plan() {
    let settings = PathSenseSettings::default();
    assert_eq!(settings.slash_root, SlashRoot::Filesystem);
    assert_eq!(settings.path_separators, " \t({[");
    assert_eq!(settings.directory_suffix, "/");
    assert!(!settings.trigger_outside_strings);
    assert!(!settings.disable_up_one_folder);
    assert!(settings.path_mappings.is_empty());
    assert!(settings.ignored_files_patterns.is_empty());
    assert!(settings.ignored_prefixes.is_empty());
}

#[test]
fn compiled_settings_precomputes_mapping_and_ignores_invalid_globs() {
    let mut raw = PathSenseSettings::default();
    raw.insert_path_mapping("/".to_string(), PathMapping::Targets(MappingTargets::One("/tmp".to_string())));
    raw.insert_path_mapping(
        "/test".to_string(),
        PathMapping::Conditional {
            conditions: vec![
                ConditionalMapping { when: "src/**".to_string(), value: targets(&["${workspace}/assets"]) },
                ConditionalMapping { when: "[".to_string(), value: targets(&["/ignored"]) },
            ],
        },
    );
    raw.ignored_files_patterns = vec!["vendor/**".to_string(), "[".to_string()];
    let settings = CompiledSettings::from_settings(raw);

    assert_eq!(settings.normalized_path_mapping_keys(), &["/".to_string(), "/test".to_string()]);
    assert_eq!(settings.mapping_entries()[0].normalized_key(), "/test");
    assert!(settings.ignored_files_matcher().is_some_and(|matcher| matcher.is_match("vendor/lib.rs")));
    assert_eq!(settings.mapping_entries()[0].expand_targets(Some("src/main.rs")), vec!["${workspace}/assets"]);
    assert!(settings.mapping_entries()[0].expand_targets(Some("docs/readme.md")).is_empty());
}

#[test]
fn retrigger_follows_directory_suffix() {
    let mut settings = PathSenseSettings::default();
    assert!(settings.should_retrigger_after_directory_completion());
    settings.directory_suffix = String::new();
    assert!(!settings.should_retrigger_after_directory_completion());
    settings.directory_suffix = "\\/".to_string();
    assert!(settings.should_retrigger_after_directory_completion());
}

#[test]
fn mapping_targets_list_their_values() {
    assert_eq!(MappingTargets::One("/a".to_string()).values(), vec!["/a"]);
    assert_eq!(targets(&["/a", "/b"]).values(), vec!["/a", "/b"]);
    assert!(targets(&[]).values().is_empty());
}

#[test]
fn inserting_a_mapping_keeps_keys_ordered_and_replaces_duplicates() {
    let mut raw = PathSenseSettings::default();
    raw.insert_path_mapping("@b".to_string(), PathMapping::Targets(MappingTargets::One("/b".to_string())));
    raw.insert_path_mapping("@a".to_string(), PathMapping::Targets(MappingTargets::One("/a".to_string())));
    raw.insert_path_mapping("@c".to_string(), PathMapping::Targets(MappingTargets::One("/c".to_string())));
    raw.insert_path_mapping("@b".to_string(), PathMapping::Targets(MappingTargets::One("/b2".to_string())));
    let keys: Vec<&str> = raw.path_mappings.iter().map(|(key, _)| key.as_str()).collect();
    assert_eq!(keys, vec!["@a", "@b", "@c"]);
    match &raw.path_mappings[1].1 {
        PathMapping::Targets(MappingTargets::One(value)) => assert_eq!(value, "/b2"),
        _ => panic!("expected the replaced mapping"),
    }
}

#[test]
fn mapping_entries_put_longer_keys_first_and_trim_trailing_slashes() {
    let mut raw = PathSenseSettings::default();
    for key in ["/", "@a/", "@bb", "@ab"] {
        raw.insert_path_mapping(key.to_string(), PathMapping::Targets(MappingTargets::One("/x".to_string())));
    }
    let settings = CompiledSettings::from_settings(raw);
    let keys: Vec<&str> = settings.mapping_entries().iter().map(|entry| entry.normalized_key()).collect();
    assert_eq!(keys, vec!["@ab", "@bb", "@a", "/"]);
    assert_eq!(settings.normalized_path_mapping_keys(), &["/".to_string(), "@a".to_string(), "@ab".to_string(), "@bb".to_string()]);
}

#[test]
fn invalid_ignored_patterns_alone_give_no_matcher() {
    let mut raw = PathSenseSettings::default();
    raw.ignored_files_patterns = vec!["[".to_string()];
    let settings = CompiledSettings::from_settings(raw);
    assert!(settings.ignored_files_matcher().is_none());
}

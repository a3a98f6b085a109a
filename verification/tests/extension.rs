use path_sense_lsp::extension::{
    alias_trigger_characters, completion_annotation, completion_annotation_highlight, completion_code_label,
    completion_label, is_path_sense_server, label_for_completion, language_server_command, worktree_binary_path,
    BinarySettings, Completion, CompletionKind, CompletionLabelDetails,
};

fn completion(label: &str, kind: Option<CompletionKind>, detail: Option<&str>) -> Completion {
    Completion {
        label: label.to_string(),
        label_details: None,
        detail: detail.map(str::to_string),
        kind,
    }
}

#[test]
fn worktree_binary_path_points_to_debug_build() {
    assert_eq!(worktree_binary_path("/tmp/demo"), "/tmp/demo/target/debug/path-sense-lsp");
}

#[test]
fn directory_labels_use_server_label_verbatim() {
    let completion = completion("src/", Some(CompletionKind::Folder), Some("ignored"));
    assert_eq!(completion_label(&completion), "src/");
}

#[test]
fn annotation_uses_server_detail() {
    let completion = completion("src/", Some(CompletionKind::File), Some("File"));
    assert_eq!(completion_annotation(&completion).as_deref(), Some("File"));
}

#[test]
fn annotation_spans_use_semantic_highlights() {
    let completion = completion("src/", Some(CompletionKind::Folder), Some("Directory"));
    let label = completion_code_label(&completion);
    let Some(annotation) = label.spans.get(2) else {
        panic!("expected annotation literal span");
    };
    assert_eq!(annotation.text, "[Directory]");
    assert_eq!(annotation.highlight_name.as_deref(), Some("type"));
}

#[test]
fn alias_trigger_characters_are_derived_from_path_mappings() {
    let keys = vec![
        "@assets".to_string(),
        "$lib".to_string(),
        "/test".to_string(),
        "plain".to_string(),
    ];
    assert_eq!(alias_trigger_characters(Some(&keys)), vec!["$".to_string(), "@".to_string()]);
}

#[test]
fn alias_trigger_characters_are_empty_without_mappings() {
    assert!(alias_trigger_characters(None).is_empty());
    let keys = vec!["@a".to_string(), "@b/".to_string(), "~".to_string(), "9x".to_string(), "".to_string()];
    assert_eq!(alias_trigger_characters(Some(&keys)), vec!["@".to_string()]);
}

#[test]
fn label_details_take_precedence_over_detail() {
    let mut c = completion("a.txt", Some(CompletionKind::File), Some("File"));
    c.label_details = Some(CompletionLabelDetails { detail: Some("d".to_string()), description: None });
    assert_eq!(completion_annotation(&c).as_deref(), Some("d"));
    c.label_details = Some(CompletionLabelDetails { detail: Some("d".to_string()), description: Some("e".to_string()) });
    assert_eq!(completion_annotation(&c).as_deref(), Some("e"));
    assert_eq!(completion_annotation_highlight(&c).as_deref(), Some("string"));
}

#[test]
fn code_label_without_annotation_is_the_label() {
    let c = completion("naïve", None, None);
    let label = completion_code_label(&c);
    assert_eq!(label.code, "naïve");
    assert_eq!(label.spans.len(), 1);
    assert_eq!((label.filter_start, label.filter_end), (0, 6));
    let annotated = completion_code_label(&completion("src/", Some(CompletionKind::Folder), Some("Directory")));
    assert_eq!(annotated.code, "src/ [Directory]");
}

#[test]
fn only_this_server_is_served() {
    assert!(is_path_sense_server("path-sense"));
    assert!(!is_path_sense_server("rust-analyzer"));
    assert!(label_for_completion("other", &completion("x", None, None)).is_none());
    assert_eq!(
        language_server_command("other", None, "/w", true, None).err().as_deref(),
        Some("unsupported language server id `other`")
    );
}

#[test]
fn server_command_prefers_override_then_worktree_then_path() {
    let binary = BinarySettings { path: Some("/opt/lsp".to_string()), arguments: None, env: None };
    let c = language_server_command("path-sense", Some(binary), "/w", true, Some("/usr/bin/x".to_string())).unwrap();
    assert_eq!(c.command, "/opt/lsp");
    assert!(c.args.is_empty());
    let c = language_server_command("path-sense", None, "/w", true, Some("/usr/bin/x".to_string())).unwrap();
    assert_eq!(c.command, "/w/target/debug/path-sense-lsp");
    let c = language_server_command("path-sense", None, "/w", false, Some("/usr/bin/x".to_string())).unwrap();
    assert_eq!(c.command, "/usr/bin/x");
    let e = language_server_command("path-sense", None, "/w", false, None).unwrap_err();
    assert!(e.starts_with("could not find `path-sense-lsp`"));
}

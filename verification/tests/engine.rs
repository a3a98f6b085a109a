use path_sense_lsp::candidates::{Candidate, MatchQuality};
use path_sense_lsp::context::{CompletionContext, CompletionTrigger};
use path_sense_lsp::documentation::CompletionItemPreviewKind;
use path_sense_lsp::engine::{
    completion_items_for_bases, into_completion_item, should_suppress_for_min_auto_trigger, BaseListing,
    CompletionItemKind, CompletionPlan, CompletionRequest, DirectoryEntry, PathSenseEngine,
};
use path_sense_lsp::resolver::{ResolvedBase, WorkspaceRoots};
use path_sense_lsp::settings::{CompiledSettings, MappingTargets, PathMapping, PathSenseSettings};
use path_sense_lsp::syntax::SyntaxState;
use path_sense_lsp::text::{Position, Range};

fn range() -> Range {
    Range::new(Position::new(0, 0), Position::new(0, 0))
}

fn settings(directory_suffix: &str) -> CompiledSettings {
    let mut raw = PathSenseSettings::default();
    raw.directory_suffix = directory_suffix.to_string();
    CompiledSettings::from_settings(raw)
}

fn base(target_dir: &str, prefix: &str) -> ResolvedBase {
    ResolvedBase {
        target_dir: target_dir.to_string(),
        boundary_root: None,
        prefix: prefix.to_string(),
        insert_prefix: String::new(),
    }
}

fn entry(name: &str, is_dir: bool) -> DirectoryEntry {
    DirectoryEntry { name: name.to_string(), is_dir, path: format!("/tmp/dir/{name}") }
}

fn listing(entries: Vec<DirectoryEntry>) -> BaseListing {
    BaseListing { is_file: false, entries: Some(entries) }
}

fn labels(bases: Vec<ResolvedBase>, listings: Vec<BaseListing>, settings: &CompiledSettings) -> Vec<String> {
    PathSenseEngine::items_for_bases(&bases, &listings, range(), settings)
        .into_iter()
        .map(|item| item.label)
        .collect()
}

fn context(raw_token: &str, prefix: &str) -> CompletionContext {
    CompletionContext {
        trigger: CompletionTrigger::QuotedString,
        allow_empty_token: false,
        document_path: Some("/work/project/src/app.ts".to_string()),
        raw_token: raw_token.to_string(),
        line_prefix: String::new(),
        insert_prefix: String::new(),
        replacement_range: range(),
        prefix: prefix.to_string(),
    }
}

#[test]
fn candidate_sorting_prefers_directories_then_files() {
    let names = labels(
        vec![base("/tmp/dir", "")],
        vec![listing(vec![entry("b_dir", true), entry("a_dir", true), entry("b.txt", false), entry("a.txt", false)])],
        &settings("/"),
    );
    assert_eq!(names, vec!["a_dir/", "b_dir/", "a.txt", "b.txt"]);
}

#[test]
fn candidate_sorting_prefers_prefix_matches_before_contains_matches() {
    let names = labels(
        vec![base("/tmp/dir", "re")],
        vec![listing(vec![
            entry("result_dir", true),
            entry("feature_dir", true),
            entry("report.txt", false),
            entry("feature.txt", false),
        ])],
        &settings("/"),
    );
    assert_eq!(names, vec!["result_dir/", "report.txt", "feature_dir/", "feature.txt"]);
}

#[test]
fn synthetic_parent_candidate_uses_lowest_sort_text() {
    let item = into_completion_item(
        Candidate::new("..".to_string(), true, None, String::new(), MatchQuality::Prefix),
        range(),
        &settings("/"),
    );
    assert_eq!(item.sort_text, "4..");
}

#[test]
fn hidden_entries_are_filtered_unless_prefix_starts_with_dot() {
    let entries = || vec![entry(".hidden", false), entry("main.rs", false), entry("visible", false)];
    let mut names = labels(vec![base("/tmp/dir", "")], vec![listing(entries())], &settings("/"));
    names.sort();
    assert_eq!(names, vec!["main.rs".to_string(), "visible".to_string()]);

    let mut names = labels(vec![base("/tmp/dir", ".")], vec![listing(entries())], &settings("/"));
    names.sort();
    assert_eq!(names, vec!["../".to_string(), ".hidden".to_string()]);
}

#[test]
fn synthetic_parent_candidate_only_matches_dot_or_double_dot_prefix() {
    let entries = || vec![entry("nested", true)];
    let empty = labels(vec![base("/tmp/dir", "")], vec![listing(entries())], &settings("/"));
    assert!(empty.iter().all(|name| name != "../"));
    let single_dot = labels(vec![base("/tmp/dir", ".")], vec![listing(entries())], &settings("/"));
    assert!(single_dot.iter().any(|name| name == "../"));
    let double_dot = labels(vec![base("/tmp/dir", "..")], vec![listing(entries())], &settings("/"));
    assert!(double_dot.iter().any(|name| name == "../"));
}

#[test]
fn completion_items_attach_directory_suffix() {
    let item = into_completion_item(
        Candidate::new("src".to_string(), true, None, String::new(), MatchQuality::Prefix),
        range(),
        &settings("/"),
    );
    assert_eq!(item.label, "src/");
    assert_eq!(item.kind, CompletionItemKind::Folder);
    assert_eq!(item.detail, "Directory");
    assert_eq!(item.label_description, "Directory");
    assert_eq!(item.command.as_ref().map(|command| command.command.as_str()), Some("editor::ShowCompletions"));
}

#[test]
fn completion_items_include_resolve_data_for_real_directory_candidates() {
    let item = into_completion_item(
        Candidate::new("src".to_string(), true, Some("/tmp/src".to_string()), String::new(), MatchQuality::Prefix),
        range(),
        &settings("/"),
    );
    let data = item.data.expect("completion data");
    assert_eq!(data.path, "/tmp/src");
    assert_eq!(data.kind, CompletionItemPreviewKind::Directory);
}

#[test]
fn completion_items_include_resolve_data_for_real_file_candidates() {
    let item = into_completion_item(
        Candidate::new("main.rs".to_string(), false, Some("/tmp/src/main.rs".to_string()), String::new(), MatchQuality::Prefix),
        range(),
        &settings("/"),
    );
    let data = item.data.expect("completion data");
    assert_eq!(data.path, "/tmp/src/main.rs");
    assert_eq!(data.kind, CompletionItemPreviewKind::File);
    assert_eq!(item.documentation, "File path completion for `main.rs`.");
}

#[test]
fn tilde_context_preserves_home_prefix_in_insert_text() {
    let item = into_completion_item(
        Candidate::new("Documents".to_string(), true, None, "~/".to_string(), MatchQuality::Prefix),
        range(),
        &settings("/"),
    );
    assert_eq!(item.text_edit.new_text, "~/Documents/");
}

#[test]
fn directory_suffix_can_be_disabled() {
    let item = into_completion_item(
        Candidate::new("src".to_string(), true, None, String::new(), MatchQuality::Prefix),
        range(),
        &settings(""),
    );
    assert_eq!(item.label, "src/");
    assert_eq!(item.detail, "Directory");
    assert_eq!(item.text_edit.new_text, "src");
    assert!(item.command.is_none());
}

#[test]
fn mapping_prefix_candidates_prefer_virtual_aliases() {
    let mut raw = PathSenseSettings::default();
    raw.insert_path_mapping("@assets".to_string(), PathMapping::Targets(MappingTargets::One("/tmp/assets".to_string())));
    raw.insert_path_mapping("$lib".to_string(), PathMapping::Targets(MappingTargets::One("/tmp/lib".to_string())));
    let settings = CompiledSettings::from_settings(raw);

    let items = PathSenseEngine::items_for_mapping_prefixes(&context("@a", "@a"), &settings);
    assert_eq!(items.len(), 1);
    assert_eq!(items[0].label, "@assets/");
}

#[test]
fn synthetic_parent_candidate_can_be_disabled() {
    let mut raw = PathSenseSettings::default();
    raw.disable_up_one_folder = true;
    let settings = CompiledSettings::from_settings(raw);
    assert!(labels(vec![base("/tmp/dir", ".")], vec![listing(Vec::new())], &settings).is_empty());
}

#[test]
fn file_path_descents_do_not_return_completion_items() {
    let bases = vec![base("/tmp/dir/main.rs", "")];
    let listings = vec![BaseListing { is_file: true, entries: None }];
    assert!(completion_items_for_bases(&bases, &listings, range(), &settings("/")).is_none());
    assert!(PathSenseEngine::items_for_bases(&bases, &listings, range(), &settings("/")).is_empty());
}

#[test]
fn auto_trigger_respects_min_word_length() {
    let text = "path = \"re\"";
    let syntax = SyntaxState::new("TOML", text);
    let snapshot = syntax.as_ref().map(SyntaxState::snapshot);
    let roots = WorkspaceRoots { internal_worktree_root: Some("/work/project".to_string()), lsp_roots: Vec::new() };
    let mut raw = PathSenseSettings::default();
    raw.min_auto_trigger_word_length = 3;
    let settings = CompiledSettings::from_settings(raw);
    let document_path = "/work/project/src/config.toml".to_string();

    let auto_request = CompletionRequest {
        text,
        position: Position::new(0, 10),
        syntax: snapshot.as_ref(),
        document_path: Some(&document_path),
        workspace_roots: &roots,
        is_manual_trigger: false,
        trigger_character: None,
        settings: &settings,
        home: None,
    };
    assert!(matches!(PathSenseEngine.plan(&auto_request), CompletionPlan::Respond(None)));

    let manual_request = CompletionRequest { is_manual_trigger: true, ..auto_request };
    let CompletionPlan::ListDirectories { bases, range } = PathSenseEngine.plan(&manual_request) else {
        panic!("expected bases to list");
    };
    assert_eq!(bases.len(), 1);
    assert_eq!(bases[0].target_dir, "/work/project");
    let listings = vec![listing(vec![entry("readme.md", false), entry("release.toml", false), entry("src", true)])];
    let items = PathSenseEngine::items_for_bases(&bases, &listings, range, &settings);
    let labels: Vec<&str> = items.iter().map(|item| item.label.as_str()).collect();
    assert!(labels.contains(&"readme.md"));
    assert!(labels.contains(&"release.toml"));
}

#[test]
fn explicit_path_roots_bypass_min_word_length() {
    let mut raw = PathSenseSettings::default();
    raw.insert_path_mapping("@assets".to_string(), PathMapping::Targets(MappingTargets::One("${workspace}/assets".to_string())));
    raw.min_auto_trigger_word_length = 3;
    let settings = CompiledSettings::from_settings(raw);

    for raw_token in ["~", "~/", "/", "./", "../", "@assets", "@a"] {
        assert!(!should_suppress_for_min_auto_trigger(
            false,
            None,
            &context(raw_token, ""),
            settings.normalized_path_mapping_keys(),
            settings.min_auto_trigger_word_length(),
        ));
    }
    assert!(should_suppress_for_min_auto_trigger(
        false,
        None,
        &context("ab", "ab"),
        settings.normalized_path_mapping_keys(),
        settings.min_auto_trigger_word_length(),
    ));
}

#[test]
fn slash_trigger_bypasses_min_word_length_for_empty_next_segment() {
    let mut raw = PathSenseSettings::default();
    raw.min_auto_trigger_word_length = 3;
    let settings = CompiledSettings::from_settings(raw);
    assert!(!should_suppress_for_min_auto_trigger(
        false,
        Some('/'),
        &context("modules/", ""),
        settings.normalized_path_mapping_keys(),
        settings.min_auto_trigger_word_length(),
    ));
}

#[test]
fn duplicate_entries_across_bases_are_listed_once() {
    let names = labels(
        vec![base("/tmp/a", ""), base("/tmp/b", "")],
        vec![listing(vec![entry("x", false), entry("y", true)]), listing(vec![entry("x", false), entry("z", false)])],
        &settings("/"),
    );
    assert_eq!(names, vec!["y/", "x", "z"]);
}

#[test]
fn ignored_line_prefixes_answer_with_no_items() {
    let text = "url = \"http://./sr\"";
    let syntax = SyntaxState::new("TOML", text);
    let snapshot = syntax.as_ref().map(SyntaxState::snapshot);
    let roots = WorkspaceRoots::default();
    let mut raw = PathSenseSettings::default();
    raw.ignored_prefixes = vec!["url = \"".to_string()];
    let settings = CompiledSettings::from_settings(raw);
    let document_path = "/work/project/config.toml".to_string();
    let request = CompletionRequest {
        text,
        position: Position::new(0, 18),
        syntax: snapshot.as_ref(),
        document_path: Some(&document_path),
        workspace_roots: &roots,
        is_manual_trigger: true,
        trigger_character: None,
        settings: &settings,
        home: None,
    };
    match PathSenseEngine.plan(&request) {
        CompletionPlan::Respond(Some(items)) => assert!(items.is_empty()),
        _ => panic!("expected an empty answer"),
    }
}

#[test]
fn at_most_two_hundred_items_are_returned() {
    let entries: Vec<DirectoryEntry> = (0..250).map(|index| entry(&format!("file-{index:03}"), false)).collect();
    let names = labels(vec![base("/tmp/dir", "")], vec![listing(entries)], &settings("/"));
    assert_eq!(names.len(), 200);
    assert_eq!(names[0], "file-000");
}

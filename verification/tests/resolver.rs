use path_sense_lsp::context::{CompletionContext, CompletionTrigger};
use path_sense_lsp::resolver::{document_is_ignored, expand_home, parent_candidate_dir, resolve_bases, ResolvedBase, WorkspaceRoots};
use path_sense_lsp::settings::{CompiledSettings, ConditionalMapping, MappingTargets, PathMapping, PathSenseSettings, SlashRoot};
use path_sense_lsp::text::{Position, Range};

fn context(raw_token: &str, document_path: &str) -> CompletionContext {
    CompletionContext {
        trigger: CompletionTrigger::QuotedString,
        allow_empty_token: false,
        document_path: Some(document_path.to_string()),
        raw_token: raw_token.to_string(),
        line_prefix: String::new(),
        insert_prefix: String::new(),
        replacement_range: Range::new(Position::new(0, 0), Position::new(0, 0)),
        prefix: raw_token.to_string(),
    }
}

fn workspace_roots(root: &str) -> WorkspaceRoots {
    WorkspaceRoots { internal_worktree_root: Some(root.to_string()), lsp_roots: Vec::new() }
}

fn home() -> String {
    "/home/user".to_string()
}

#[test]
fn slash_root_defaults_to_filesystem_root() {
    let settings = CompiledSettings::default();
    let resolved = resolve_bases(&context("/tmp/fi", "/work/project/src/app.rs"), &WorkspaceRoots::default(), &settings, Some(&home()));

    assert_eq!(resolved[0].target_dir, "/tmp");
    assert_eq!(resolved[0].prefix, "fi");
    assert_eq!(resolved[0].boundary_root, Some("/".to_string()));
}

#[test]
fn slash_root_can_use_workspace_root() {
    let mut raw = PathSenseSettings::default();
    raw.slash_root = SlashRoot::Workspace;
    let settings = CompiledSettings::from_settings(raw);
    let resolved = resolve_bases(&context("/src/ma", "/work/project/src/app.rs"), &workspace_roots("/work/project"), &settings, Some(&home()));

    assert_eq!(resolved[0].target_dir, "/work/project/src");
    assert_eq!(resolved[0].prefix, "ma");
    assert_eq!(resolved[0].boundary_root, Some("/work/project".to_string()));
}

#[test]
fn exact_tilde_token_keeps_home_insert_prefix() {
    let resolved = resolve_bases(&context("~", "/work/project/src/app.rs"), &WorkspaceRoots::default(), &CompiledSettings::default(), Some(&home()));

    assert_eq!(resolved[0].prefix, "");
    assert_eq!(resolved[0].insert_prefix, "~/");
    assert!(resolved[0].boundary_root.is_some());
}

#[test]
fn plain_token_resolves_from_workspace_root() {
    let resolved = resolve_bases(&context("rea", "/work/project/src/app.rs"), &workspace_roots("/work/project"), &CompiledSettings::default(), Some(&home()));

    assert_eq!(resolved[0].target_dir, "/work/project");
    assert_eq!(resolved[0].prefix, "rea");
    assert_eq!(resolved[0].boundary_root, Some("/work/project".to_string()));
}

#[test]
fn plain_token_without_workspace_root_returns_no_bases() {
    let resolved = resolve_bases(&context("rea", "/work/project/src/app.rs"), &WorkspaceRoots::default(), &CompiledSettings::default(), Some(&home()));

    assert!(resolved.is_empty());
}

#[test]
fn slash_separated_plain_token_continues_from_workspace_root() {
    let resolved = resolve_bases(&context("modules/home", "/work/project/nested/config.yaml"), &workspace_roots("/work/project"), &CompiledSettings::default(), Some(&home()));

    assert_eq!(resolved[0].target_dir, "/work/project/modules");
    assert_eq!(resolved[0].prefix, "home");
    assert_eq!(resolved[0].boundary_root, Some("/work/project".to_string()));
}

#[test]
fn longest_mapping_prefix_wins() {
    let mut raw = PathSenseSettings::default();
    raw.insert_path_mapping("/".to_string(), PathMapping::Targets(MappingTargets::One("/fallback".to_string())));
    raw.insert_path_mapping("/test".to_string(), PathMapping::Targets(MappingTargets::One("/special".to_string())));
    let settings = CompiledSettings::from_settings(raw);

    let resolved = resolve_bases(&context("/test/fi", "/work/project/src/app.rs"), &workspace_roots("/work/project"), &settings, Some(&home()));
    assert_eq!(resolved[0].target_dir, "/special");
    assert_eq!(resolved[0].prefix, "fi");
}

#[test]
fn conditional_mapping_expands_variables() {
    let mut raw = PathSenseSettings::default();
    raw.insert_path_mapping(
        "@assets".to_string(),
        PathMapping::Conditional {
            conditions: vec![ConditionalMapping {
                when: "src/**".to_string(),
                value: MappingTargets::One("${workspace}/assets/${relativeFileDirname}".to_string()),
            }],
        },
    );
    let settings = CompiledSettings::from_settings(raw);

    let resolved = resolve_bases(&context("@assets", "/work/project/src/app.rs"), &workspace_roots("/work/project"), &settings, Some(&home()));
    assert_eq!(resolved[0].target_dir, "/work/project/assets/src");
    assert_eq!(resolved[0].insert_prefix, "@assets/");
}

#[test]
fn ignored_files_patterns_match_relative_document_path() {
    let mut raw = PathSenseSettings::default();
    raw.ignored_files_patterns = vec!["vendor/**".to_string()];
    let settings = CompiledSettings::from_settings(raw);

    assert!(document_is_ignored(Some(&"/work/project/vendor/lib.rs".to_string()), &workspace_roots("/work/project"), &settings));
    assert!(!document_is_ignored(Some(&"/work/project/src/lib.rs".to_string()), &workspace_roots("/work/project"), &settings));
    assert!(resolve_bases(&context("./x", "/work/project/vendor/lib.rs"), &workspace_roots("/work/project"), &settings, Some(&home())).is_empty());
}

#[test]
fn parent_candidate_is_clamped_to_boundary_root() {
    let base = ResolvedBase {
        target_dir: "/work/project/src".to_string(),
        boundary_root: Some("/work/project".to_string()),
        prefix: String::new(),
        insert_prefix: String::new(),
    };
    let parent = parent_candidate_dir(&base).expect("parent");
    assert_eq!(parent, "/work/project");

    let root_base = ResolvedBase {
        target_dir: "/work/project".to_string(),
        boundary_root: Some("/work/project".to_string()),
        prefix: String::new(),
        insert_prefix: String::new(),
    };
    assert!(parent_candidate_dir(&root_base).is_none());
}

#[test]
fn document_relative_tokens_resolve_from_the_document_directory() {
    let resolved = resolve_bases(&context("./src/ma", "/work/project/app.js"), &WorkspaceRoots::default(), &CompiledSettings::default(), Some(&home()));
    assert_eq!(resolved[0].target_dir, "/work/project/./src");
    assert_eq!(resolved[0].prefix, "ma");
    assert_eq!(resolved[0].boundary_root, None);
}

#[test]
fn home_fragments_resolve_below_home() {
    let mut ctx = context("~/Doc", "/work/project/app.js");
    ctx.insert_prefix = String::new();
    let resolved = resolve_bases(&ctx, &WorkspaceRoots::default(), &CompiledSettings::default(), Some(&home()));
    assert_eq!(resolved[0].target_dir, "/home/user");
    assert_eq!(resolved[0].prefix, "Doc");
    assert!(resolve_bases(&ctx, &WorkspaceRoots::default(), &CompiledSettings::default(), None).is_empty());
}

#[test]
fn expand_home_replaces_a_leading_tilde() {
    let home = home();
    assert_eq!(expand_home("~", Some(&home)), Some("/home/user".to_string()));
    assert_eq!(expand_home("~/a/../b", Some(&home)), Some("/home/user/a/../b".to_string()));
    assert_eq!(expand_home("/a", Some(&home)), None);
    assert_eq!(expand_home("~", None), None);
}

#[test]
fn deepest_workspace_folder_holds_the_document() {
    let roots = WorkspaceRoots {
        internal_worktree_root: None,
        lsp_roots: vec!["/work".to_string(), "/work/project".to_string(), "/other".to_string()],
    };
    assert_eq!(roots.workspace_root_for_document(Some(&"/work/project/src/a.rs".to_string())), Some("/work/project".to_string()));
    assert_eq!(roots.workspace_root_for_document(Some(&"/elsewhere/a.rs".to_string())), Some("/work".to_string()));
    assert_eq!(roots.workspace_root_for_document(None), None);
    assert_eq!(roots.relative_document_path(&"/work/project/src/a.rs".to_string()), Some("src/a.rs".to_string()));
    assert_eq!(roots.relative_document_path(&"/elsewhere/a.rs".to_string()), None);
}

#[test]
fn exact_mapping_key_lists_the_mapping_target() {
    let mut raw = PathSenseSettings::default();
    raw.insert_path_mapping("@lib".to_string(), PathMapping::Targets(MappingTargets::Many(vec!["lib".to_string(), "~/lib".to_string()])));
    let settings = CompiledSettings::from_settings(raw);
    let resolved = resolve_bases(&context("@lib", "/work/project/src/app.rs"), &workspace_roots("/work/project"), &settings, Some(&home()));
    assert_eq!(resolved.len(), 2);
    assert_eq!(resolved[0].target_dir, "/work/project/lib");
    assert_eq!(resolved[1].target_dir, "/home/user/lib");
    assert_eq!(resolved[1].insert_prefix, "@lib/");
}

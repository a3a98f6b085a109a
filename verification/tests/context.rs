use path_sense_lsp::chars::to_chars;
use path_sense_lsp::context::{CompletionContext, CompletionTrigger, OutsideStringsConfig};
use path_sense_lsp::handlers::{bare_token_is_supported, is_disallowed_child_kind, quoted_delimiter_lengths, LanguageKind};
use path_sense_lsp::query::extract_completion_context;
use path_sense_lsp::syntax::SyntaxState;
use path_sense_lsp::text::Position;

fn position(line: u32, character: u32) -> Position {
    Position::new(line, character)
}

fn extract(
    text: &str,
    position: Position,
    language_id: &str,
    document_path: Option<&str>,
    allow_empty_token: bool,
    mapping_keys: &[String],
    outside_strings: Option<&OutsideStringsConfig<'_>>,
) -> Option<CompletionContext> {
    let syntax = SyntaxState::new(language_id, text);
    let snapshot = syntax.as_ref().map(SyntaxState::snapshot);
    let document_path = document_path.map(str::to_string);
    extract_completion_context(
        text,
        position,
        snapshot.as_ref(),
        document_path.as_ref(),
        allow_empty_token,
        mapping_keys,
        outside_strings,
    )
}

#[test]
fn tests_javascript_string_context_detects_fragment() {
    let text = r#"const path = "./src/ma";"#;
    let context = extract(
        text,
        position(0, 22),
        "JavaScript",
        Some("/work/project/app.js"),
        false,
        &[],
        None,
    )
    .expect("context");

    assert_eq!(context.prefix, "ma");
    assert_eq!(context.raw_token, "./src/ma");
}

#[test]
fn tests_tilde_token_preserves_home_insert_prefix() {
    let text = r#"path = "~""#;
    let context = extract(
        text,
        position(0, 9),
        "TOML",
        Some("/work/project/config.toml"),
        true,
        &[],
        None,
    )
    .expect("context");

    assert_eq!(context.raw_token, "~");
    assert_eq!(context.prefix, "");
    assert_eq!(context.insert_prefix, "~/");
}

#[test]
fn tests_javascript_template_string_rejects_prior_substitution() {
    let text = "const path = `${base}/src/ma`;";
    assert!(extract(
        text,
        position(0, 28),
        "JavaScript",
        Some("/work/project/app.js"),
        false,
        &[],
        None,
    )
    .is_none());
}

#[test]
fn tests_shell_bare_token_detects_relative_path() {
    let text = "cp ./src/ma ./dest";
    let context = extract(
        text,
        position(0, 11),
        "Shell Script",
        Some("/work/project/script.sh"),
        false,
        &[],
        None,
    )
    .expect("context");

    assert_eq!(context.prefix, "ma");
    assert_eq!(context.raw_token, "./src/ma");
    assert_eq!(context.trigger, CompletionTrigger::BareToken);
}

#[test]
fn context_hidden_completion_requires_hidden_prefix() {
    assert!(bare_token_is_supported(LanguageKind::ShellScript, &to_chars("./.env")));
    assert!(!bare_token_is_supported(LanguageKind::ShellScript, &to_chars("plain")));
}

#[test]
fn tests_hidden_completion_requires_hidden_prefix() {
    assert!(bare_token_is_supported(LanguageKind::ShellScript, &to_chars("./.env")));
    assert!(!bare_token_is_supported(LanguageKind::ShellScript, &to_chars("plain")));
}

#[test]
fn tests_incomplete_rust_string_context_is_rejected() {
    let text = r#"let path = "./src/ma"#;
    assert!(extract(
        text,
        position(0, 20),
        "Rust",
        Some("/work/project/main.rs"),
        false,
        &[],
        None,
    )
    .is_none());
}

#[test]
fn tests_incomplete_javascript_string_context_is_rejected() {
    let text = r#"const path = "./src/ma"#;
    assert!(extract(
        text,
        position(0, 22),
        "JavaScript",
        Some("/work/project/app.js"),
        false,
        &[],
        None,
    )
    .is_none());
}

#[test]
fn tests_quoted_relative_fragment_without_slash_is_supported() {
    let text = r#"path = "rea""#;
    let context = extract(
        text,
        position(0, 11),
        "TOML",
        Some("/work/project/config.toml"),
        false,
        &[],
        None,
    )
    .expect("context");

    assert_eq!(context.prefix, "rea");
    assert_eq!(context.raw_token, "rea");
}

#[test]
fn tests_nix_bare_path_without_dot_prefix_is_supported() {
    let text = "imports = [ nix/modules/co ]";
    let context = extract(
        text,
        position(0, 26),
        "Nix",
        Some("/work/project/flake.nix"),
        false,
        &[],
        None,
    )
    .expect("context");

    assert_eq!(context.prefix, "co");
    assert_eq!(context.raw_token, "nix/modules/co");
}

#[test]
fn tests_nix_path_expression_is_supported() {
    let text = "++ lib.filesystem.listFilesRecursive ./modules/de;";
    let context = extract(
        text,
        position(0, 49),
        "Nix",
        Some("/work/project/home.nix"),
        false,
        &[],
        None,
    )
    .expect("context");

    assert_eq!(context.trigger, CompletionTrigger::BareToken);
    assert_eq!(context.prefix, "de");
    assert_eq!(context.raw_token, "./modules/de");
}

#[test]
fn tests_unsupported_plain_shell_token_is_rejected() {
    let text = "cp README";
    assert!(extract(
        text,
        position(0, 9),
        "Shell Script",
        Some("/work/project/script.sh"),
        false,
        &[],
        None,
    )
    .is_none());
}

#[test]
fn tests_yaml_plain_scalar_prefers_native_syntax_over_outside_string_fallback() {
    let text = "path: ~/Doc";
    let mapping_keys = vec!["@assets".to_string()];
    let outside_strings = OutsideStringsConfig {
        path_separators: " \t({[",
        mapping_keys: &mapping_keys,
    };
    let context = extract(
        text,
        position(0, 11),
        "YAML",
        Some("/work/project/config.yaml"),
        false,
        &mapping_keys,
        Some(&outside_strings),
    )
    .expect("yaml plain scalar context");

    assert_eq!(context.trigger, CompletionTrigger::BareToken);
    assert_eq!(context.raw_token, "~/Doc");
}

#[test]
fn tests_outside_string_fallback_supports_exact_mapping_keys() {
    let text = "open @assets";
    let mapping_keys = vec!["@assets".to_string()];
    let outside_strings = OutsideStringsConfig {
        path_separators: " \t({[",
        mapping_keys: &mapping_keys,
    };
    let context = extract(
        text,
        position(0, 12),
        "Plain Text",
        Some("/work/project/notes.txt"),
        false,
        &mapping_keys,
        Some(&outside_strings),
    )
    .expect("outside string context");

    assert_eq!(context.raw_token, "@assets");
    assert_eq!(context.trigger, CompletionTrigger::OutsideString);
}

#[test]
fn tests_yaml_plain_scalar_path_like_values_are_supported() {
    for (text, character, expected) in [
        ("path: ./mod", 11, "./mod"),
        ("path: ~/src", 11, "~/src"),
        ("imports: /etc/hos", 17, "/etc/hos"),
        ("- ./modules/dev", 15, "./modules/dev"),
        ("src: mo", 7, "mo"),
    ] {
        let context = extract(
            text,
            position(0, character),
            "YAML",
            Some("/work/project/config.yaml"),
            false,
            &[String::from("@assets")],
            None,
        )
        .expect("yaml plain scalar context");

        assert_eq!(context.trigger, CompletionTrigger::BareToken);
        assert_eq!(context.raw_token, expected);
    }
}

#[test]
fn tests_yaml_plain_scalar_rejects_keys_non_paths_and_block_scalars() {
    assert!(extract(
        "imports:",
        position(0, 7),
        "YAML",
        Some("/work/project/config.yaml"),
        false,
        &[],
        None,
    )
    .is_none());

    assert!(extract(
        "script: |\n  ./modules/dev\n",
        position(1, 15),
        "YAML",
        Some("/work/project/config.yaml"),
        false,
        &[],
        None,
    )
    .is_none());
}

#[test]
fn context_javascript_string_context_detects_fragment() {
    let text = r#"const path = "./src/ma";"#;
    let context = extract(
        text,
        position(0, 22),
        "JavaScript",
        Some("/work/project/app.js"),
        false,
        &[],
        None,
    )
    .expect("context");

    assert_eq!(context.prefix, "ma");
    assert_eq!(context.raw_token, "./src/ma");
}

#[test]
fn context_tilde_token_preserves_home_insert_prefix() {
    let text = r#"path = "~""#;
    let context = extract(
        text,
        position(0, 9),
        "TOML",
        Some("/work/project/config.toml"),
        true,
        &[],
        None,
    )
    .expect("context");

    assert_eq!(context.raw_token, "~");
    assert_eq!(context.prefix, "");
    assert_eq!(context.insert_prefix, "~/");
}

#[test]
fn context_javascript_template_string_rejects_prior_substitution() {
    let text = "const path = `${base}/src/ma`;";
    assert!(extract(
        text,
        position(0, 28),
        "JavaScript",
        Some("/work/project/app.js"),
        false,
        &[],
        None,
    )
    .is_none());
}

#[test]
fn context_shell_bare_token_detects_relative_path() {
    let text = "cp ./src/ma ./dest";
    let context = extract(
        text,
        position(0, 11),
        "Shell Script",
        Some("/work/project/script.sh"),
        false,
        &[],
        None,
    )
    .expect("context");

    assert_eq!(context.prefix, "ma");
    assert_eq!(context.raw_token, "./src/ma");
    assert_eq!(context.trigger, CompletionTrigger::BareToken);
}

#[test]
fn context_incomplete_rust_string_context_is_rejected() {
    let text = r#"let path = "./src/ma"#;
    assert!(extract(
        text,
        position(0, 20),
        "Rust",
        Some("/work/project/main.rs"),
        false,
        &[],
        None,
    )
    .is_none());
}

#[test]
fn context_incomplete_javascript_string_context_is_rejected() {
    let text = r#"const path = "./src/ma"#;
    assert!(extract(
        text,
        position(0, 22),
        "JavaScript",
        Some("/work/project/app.js"),
        false,
        &[],
        None,
    )
    .is_none());
}

#[test]
fn context_quoted_relative_fragment_without_slash_is_supported() {
    let text = r#"path = "rea""#;
    let context = extract(
        text,
        position(0, 11),
        "TOML",
        Some("/work/project/config.toml"),
        false,
        &[],
        None,
    )
    .expect("context");

    assert_eq!(context.prefix, "rea");
    assert_eq!(context.raw_token, "rea");
}

#[test]
fn context_nix_bare_path_without_dot_prefix_is_supported() {
    let text = "imports = [ nix/modules/co ]";
    let context = extract(
        text,
        position(0, 26),
        "Nix",
        Some("/work/project/flake.nix"),
        false,
        &[],
        None,
    )
    .expect("context");

    assert_eq!(context.prefix, "co");
    assert_eq!(context.raw_token, "nix/modules/co");
}

#[test]
fn context_nix_path_expression_is_supported() {
    let text = "++ lib.filesystem.listFilesRecursive ./modules/de;";
    let context = extract(
        text,
        position(0, 49),
        "Nix",
        Some("/work/project/home.nix"),
        false,
        &[],
        None,
    )
    .expect("context");

    assert_eq!(context.trigger, CompletionTrigger::BareToken);
    assert_eq!(context.prefix, "de");
    assert_eq!(context.raw_token, "./modules/de");
}

#[test]
fn context_unsupported_plain_shell_token_is_rejected() {
    let text = "cp README";
    assert!(extract(
        text,
        position(0, 9),
        "Shell Script",
        Some("/work/project/script.sh"),
        false,
        &[],
        None,
    )
    .is_none());
}

#[test]
fn context_yaml_plain_scalar_prefers_native_syntax_over_outside_string_fallback() {
    let text = "path: ~/Doc";
    let mapping_keys = vec!["@assets".to_string()];
    let outside_strings = OutsideStringsConfig {
        path_separators: " \t({[",
        mapping_keys: &mapping_keys,
    };
    let context = extract(
        text,
        position(0, 11),
        "YAML",
        Some("/work/project/config.yaml"),
        false,
        &mapping_keys,
        Some(&outside_strings),
    )
    .expect("yaml plain scalar context");

    assert_eq!(context.trigger, CompletionTrigger::BareToken);
    assert_eq!(context.raw_token, "~/Doc");
}

#[test]
fn context_outside_string_fallback_supports_exact_mapping_keys() {
    let text = "open @assets";
    let mapping_keys = vec!["@assets".to_string()];
    let outside_strings = OutsideStringsConfig {
        path_separators: " \t({[",
        mapping_keys: &mapping_keys,
    };
    let context = extract(
        text,
        position(0, 12),
        "Plain Text",
        Some("/work/project/notes.txt"),
        false,
        &mapping_keys,
        Some(&outside_strings),
    )
    .expect("outside string context");

    assert_eq!(context.raw_token, "@assets");
    assert_eq!(context.trigger, CompletionTrigger::OutsideString);
}

#[test]
fn context_yaml_plain_scalar_path_like_values_are_supported() {
    for (text, character, expected) in [
        ("path: ./mod", 11, "./mod"),
        ("path: ~/src", 11, "~/src"),
        ("imports: /etc/hos", 17, "/etc/hos"),
        ("- ./modules/dev", 15, "./modules/dev"),
    ] {
        let context = extract(
            text,
            position(0, character),
            "YAML",
            Some("/work/project/config.yaml"),
            false,
            &[],
            None,
        )
        .expect("yaml plain scalar context");

        assert_eq!(context.trigger, CompletionTrigger::BareToken);
        assert_eq!(context.raw_token, expected);
    }
}

#[test]
fn javascript_family_blocks_template_substitutions() {
    for kind in [LanguageKind::JavaScript, LanguageKind::TypeScript, LanguageKind::Tsx] {
        assert!(is_disallowed_child_kind(kind, &to_chars("template_substitution")));
    }
}

#[test]
fn python_and_nix_block_interpolation() {
    for kind in [LanguageKind::Python, LanguageKind::Nix] {
        assert!(is_disallowed_child_kind(kind, &to_chars("interpolation")));
    }
}

#[test]
fn yaml_handler_only_accepts_value_side_plain_scalars() {
    let path = Some("/work/project/config.yaml");
    assert!(extract("path: ./mod", position(0, 11), "YAML", path, false, &[], None).is_some());
    assert!(extract("name: hello", position(0, 11), "YAML", path, false, &[], None).is_some());
    assert!(extract("imports:", position(0, 7), "YAML", path, false, &[], None).is_none());
}

#[test]
fn shell_script_handler_limits_bare_tokens() {
    let kind = LanguageKind::ShellScript;
    assert!(bare_token_is_supported(kind, &to_chars("~")));
    assert!(bare_token_is_supported(kind, &to_chars("~/src")));
    assert!(bare_token_is_supported(kind, &to_chars("./src")));
    assert!(!bare_token_is_supported(kind, &to_chars("plain")));
}

#[test]
fn rust_go_and_nix_handlers_report_expected_delimiters() {
    let lengths = |kind: LanguageKind, node: &str, text: &str| {
        quoted_delimiter_lengths(kind, &to_chars(node), &to_chars(text))
    };
    assert_eq!(lengths(LanguageKind::Rust, "string_literal", "\"./src\""), Some((1, 1)));
    assert_eq!(lengths(LanguageKind::Rust, "raw_string_literal", "r#\"./src\"#"), Some((3, 2)));
    assert_eq!(lengths(LanguageKind::Go, "interpreted_string_literal", "\"./src\""), Some((1, 1)));
    assert_eq!(lengths(LanguageKind::Go, "raw_string_literal", "`./src`"), Some((1, 1)));
    assert_eq!(lengths(LanguageKind::Nix, "string_expression", "\"./src\""), Some((1, 1)));
    assert_eq!(lengths(LanguageKind::Nix, "indented_string_expression", "''./src''"), Some((2, 2)));
}

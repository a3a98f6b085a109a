use path_sense_lsp::server::roots_from_initialize_params;
use path_sense_lsp::server::{completion_trigger_characters, completion_trigger_state, word_trigger_characters, CompletionTriggerKind};

#[test]
fn trigger_characters_include_alias_prefixes_without_duplicates() {
    let characters = completion_trigger_characters(&[
        "@".to_string(),
        "$".to_string(),
        "/".to_string(),
        "xx".to_string(),
    ]);

    assert!(characters.contains(&"a".to_string()));
    assert!(characters.contains(&"Z".to_string()));
    assert!(characters.contains(&"0".to_string()));
    assert!(characters.contains(&"_".to_string()));
    assert!(characters.contains(&"-".to_string()));
    assert!(characters.contains(&"/".to_string()));
    assert!(characters.contains(&".".to_string()));
    assert!(characters.contains(&"~".to_string()));
    assert!(characters.contains(&"@".to_string()));
    assert!(characters.contains(&"$".to_string()));
    assert_eq!(characters.iter().filter(|character| character.as_str() == "/").count(), 1);
}

#[test]
fn completion_trigger_state_distinguishes_manual_and_auto_requests() {
    let manual = completion_trigger_state(Some(CompletionTriggerKind::Invoked), None);
    assert!(manual.allow_empty_token);
    assert!(!manual.is_auto_trigger);
    assert_eq!(manual.trigger_character, None);

    let automatic = completion_trigger_state(Some(CompletionTriggerKind::TriggerCharacter), Some("/"));
    assert!(!automatic.allow_empty_token);
    assert!(automatic.is_auto_trigger);
    assert_eq!(automatic.trigger_character, Some('/'));

    let missing = completion_trigger_state(None, None);
    assert!(missing.allow_empty_token);
}

#[test]
fn word_trigger_characters_are_single_letters_digits_and_connectors() {
    let characters = word_trigger_characters();
    assert_eq!(characters.len(), 64);
    assert_eq!(characters[0], "a");
    assert_eq!(characters[63], "-");
    let all = completion_trigger_characters(&[]);
    assert_eq!(all.len(), 67);
}

#[test]
fn initial_roots_prefer_workspace_folders_over_root_uri() {
    let folders = Some(vec![Some("/w/a".to_string()), None, Some("/w/b".to_string())]);
    assert_eq!(
        roots_from_initialize_params(folders, Some("/root".to_string())),
        vec!["/w/a".to_string(), "/w/b".to_string()]
    );
    assert_eq!(roots_from_initialize_params(Some(vec![None]), Some("/root".to_string())), vec!["/root".to_string()]);
    assert!(roots_from_initialize_params(None, None).is_empty());
}

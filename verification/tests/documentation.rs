use path_sense_lsp::documentation::{
    completion_item_data, decode_text_preview, directory_display_name, directory_documentation,
    documentation_for_data, fallback_completion_documentation, file_documentation, looks_like_text,
    preview_from_bytes, split_lines, truncate_line, CompletionItemPreviewKind,
};

fn chars(s: &str) -> Vec<char> {
    s.chars().collect()
}

#[test]
fn resolves_utf8_text_preview() {
    let bytes = b"line one\nline two\nline three\nline four\n";
    let value = file_documentation("File", "sample.txt", Some(&bytes[..]));
    assert!(value.contains("line one\nline two\nline three"));
    assert!(value.contains("Preview truncated."));
}

#[test]
fn resolves_utf8_bom_and_utf16_text_preview() {
    let utf8 = b"\xEF\xBB\xBFalpha\nbeta\n".to_vec();
    let mut utf16 = vec![0xFF, 0xFE];
    utf16.extend("gamma\ndelta\n".encode_utf16().flat_map(u16::to_le_bytes));
    for (bytes, name) in [(&utf8, "utf8.txt"), (&utf16, "utf16.txt")] {
        let value = file_documentation("File", name, Some(bytes.as_slice()));
        assert!(value.contains("~~~text"));
    }
}

#[test]
fn binary_files_fall_back_to_base_documentation() {
    let fallback = fallback_completion_documentation("File", "blob.bin");
    let value = file_documentation("File", "blob.bin", Some(&[0x00, 0x01, 0x02, 0x03][..]));
    assert_eq!(value, fallback);
}

#[test]
fn resolves_directory_preview_with_limit_and_hidden_filtering() {
    let mut entries = vec![
        ("z_dir".to_string(), true),
        ("a_dir".to_string(), true),
        ("main.rs".to_string(), false),
        (".hidden".to_string(), false),
    ];
    for index in 0..10 {
        entries.push((format!("file-{index}.txt"), false));
    }
    let value = directory_documentation("Directory", "src", "/tmp/work/src", Some(entries));
    assert!(value.contains("src/\n|-- a_dir/\n|-- z_dir/"));
    assert!(value.contains("`-- ..."));
    assert!(!value.contains(".hidden"));
}

#[test]
fn unreadable_directory_falls_back_to_base_documentation() {
    let fallback = fallback_completion_documentation("Directory", "src");
    assert_eq!(directory_documentation("Directory", "src", "/tmp/nowhere", None), fallback);
}

#[test]
fn fallback_documentation_names_the_item() {
    assert_eq!(
        fallback_completion_documentation("File", "blob.bin"),
        "File path completion for `blob.bin`."
    );
}

#[test]
fn file_preview_has_exact_layout() {
    let value = file_documentation("File", "a.txt", Some(&b"one\r\ntwo"[..]));
    assert_eq!(value, "File path completion for `a.txt`.\n\n~~~text\none\ntwo\n~~~");
}

#[test]
fn empty_file_previews_as_one_empty_line() {
    let value = file_documentation("File", "e.txt", Some(&b""[..]));
    assert_eq!(value, "File path completion for `e.txt`.\n\n~~~text\n\n~~~");
}

#[test]
fn long_lines_are_cut_and_marked() {
    let line = "x".repeat(130);
    let value = file_documentation("File", "l.txt", Some(line.as_bytes()));
    let expected = format!(
        "File path completion for `l.txt`.\n\n~~~text\n{}...\n~~~\n\nPreview truncated.",
        "x".repeat(120)
    );
    assert_eq!(value, expected);
}

#[test]
fn truncate_line_keeps_lines_at_the_limit() {
    assert_eq!(truncate_line(&chars("abc"), 3), (chars("abc"), false));
    assert_eq!(truncate_line(&chars("abcd"), 3), (chars("abc..."), true));
}

#[test]
fn split_lines_follows_str_lines() {
    let text = "a\r\nb\n\nc\r";
    let expected: Vec<Vec<char>> = text.lines().map(chars).collect();
    assert_eq!(split_lines(&chars(text)), expected);
    assert!(split_lines(&chars("")).is_empty());
}

#[test]
fn control_characters_are_not_text() {
    assert!(looks_like_text(&chars("tab\there\r\nform\u{000C}feed")));
    assert!(!looks_like_text(&chars("nul\u{0}")));
    assert!(!looks_like_text(&chars("c1\u{85}")));
}

#[test]
fn decoding_follows_byte_order_marks() {
    assert_eq!(decode_text_preview(b"\xEF\xBB\xBFok").as_deref(), Some("ok"));
    assert_eq!(decode_text_preview(&[0xFE, 0xFF, 0x00, 0x68, 0x00, 0x69]).as_deref(), Some("hi"));
    assert_eq!(decode_text_preview(&[0xFF, 0xFE, 0x68, 0x00, 0x69]).as_deref(), Some("h"));
    assert_eq!(decode_text_preview(&[0xFF, 0xFE, 0x68]).as_deref(), Some(""));
    assert_eq!(decode_text_preview(&[0xFF, 0xFE, 0x00, 0xD8]), None);
}

#[test]
fn utf8_cut_inside_a_character_keeps_the_valid_prefix() {
    assert_eq!(decode_text_preview(b"ab\xE2\x82").as_deref(), Some("ab"));
    assert_eq!(decode_text_preview(b"\xE2\x82"), None);
    assert_eq!(decode_text_preview(b"ab\xFFcd"), None);
}

#[test]
fn preview_from_bytes_rejects_binary() {
    assert!(preview_from_bytes(&[0x00, 0x01]).is_none());
    let preview = preview_from_bytes(b"1\n2\n3\n4").expect("text");
    assert_eq!(preview.body, "1\n2\n3");
    assert!(preview.truncated);
}

#[test]
fn directory_preview_sorts_directories_first_then_names_ignoring_case() {
    let entries = vec![
        ("b.txt".to_string(), false),
        ("B_dir".to_string(), true),
        ("a.txt".to_string(), false),
        ("a_dir".to_string(), true),
    ];
    let value = directory_documentation("Directory", "src", "/w/src", Some(entries));
    assert_eq!(
        value,
        "Directory path completion for `src`.\n\n~~~text\nsrc/\n|-- a_dir/\n|-- B_dir/\n|-- a.txt\n`-- b.txt\n~~~"
    );
}

#[test]
fn empty_directory_preview_says_empty() {
    let value = directory_documentation("Directory", "d", "/w/d", Some(vec![(".git".to_string(), true)]));
    assert_eq!(value, "Directory path completion for `d`.\n\n~~~text\nd/\n`-- (empty)\n~~~");
}

#[test]
fn directory_labels_name_the_last_component() {
    assert_eq!(directory_display_name("/"), "/");
    assert_eq!(directory_display_name("/work/src"), "src");
    assert_eq!(directory_display_name("/work/src/.."), "/work/src/..");
}

#[test]
fn documentation_dispatches_on_item_kind() {
    let data = completion_item_data("/w/src", true, "Directory", "src");
    assert_eq!(data.kind, CompletionItemPreviewKind::Directory);
    let value = documentation_for_data(&data, None, Some(vec![("x".to_string(), false)]));
    assert!(value.ends_with("src/\n`-- x\n~~~"));
    let file = completion_item_data("/w/a.txt", false, "File", "a.txt");
    assert_eq!(
        documentation_for_data(&file, None, None),
        "File path completion for `a.txt`."
    );
}

#[test]
fn utf16_surrogate_pairs_decode_to_one_character() {
    assert_eq!(decode_text_preview(&[0xFF, 0xFE, 0x3D, 0xD8, 0x00, 0xDE]).as_deref(), Some("\u{1F600}"));
    assert_eq!(decode_text_preview(&[0xFF, 0xFE, 0x00, 0xDE]), None);
}

//! What the editor extension decides: which server it answers for, where it looks
//! for the server binary, how a completion is labelled, and which alias characters
//! trigger completion. The editor's own types are held here as the fields these
//! decisions read.
use crate::chars::{append_str, string_from_chars, str_byte_len, to_chars, utf8_len};
use crate::context::{normalize_mapping_key, normalized_key};
use crate::paths::{join_path, path_join};
use crate::strs::vec_eq;
use vstd::prelude::*;

verus! {

/// The language server id this extension serves.
pub open spec fn server_id() -> Seq<char> {
    "path-sense"@
}

/// The name of the server binary.
pub open spec fn binary_name() -> Seq<char> {
    "path-sense-lsp"@
}

fn server_id_chars() -> (r: Vec<char>)
    ensures
        r@ == server_id(),
{
    to_chars("path-sense")
}

/// Whether a language server id is this extension's.
pub fn is_path_sense_server(language_server_id: &str) -> (r: bool)
    ensures
        r == (language_server_id@ == server_id()),
{
    vec_eq(&to_chars(language_server_id), &server_id_chars())
}

/// The debug build of the server inside a worktree: `target/debug/path-sense-lsp`.
pub fn worktree_binary_path(root_path: &str) -> (r: String)
    ensures
        r@ == path_join(path_join(path_join(root_path@, "target"@), "debug"@), binary_name()),
{
    let target = join_path(root_path, "target");
    let debug = join_path(target.as_str(), "debug");
    join_path(debug.as_str(), "path-sense-lsp")
}

/// The kind of a completion, as far as labels tell kinds apart.
#[derive(Clone, Copy, Debug, PartialEq, Eq, Structural)]
pub enum CompletionKind {
    File,
    Folder,
    Other,
}

/// The details a server may attach to a completion label.
#[derive(Clone, Debug)]
pub struct CompletionLabelDetails {
    pub detail: Option<String>,
    pub description: Option<String>,
}

/// A completion as the editor hands it to the extension.
#[derive(Clone, Debug)]
pub struct Completion {
    pub label: String,
    pub label_details: Option<CompletionLabelDetails>,
    pub detail: Option<String>,
    pub kind: Option<CompletionKind>,
}

pub open spec fn opt_view(s: Option<String>) -> Option<Seq<char>> {
    match s {
        Some(t) => Some(t@),
        None => None,
    }
}

/// The annotation shown after a label: the label details' description, else their
/// detail, else the completion's detail.
pub open spec fn annotation_of(c: Completion) -> Option<Seq<char>> {
    let from_details = match c.label_details {
        Some(d) => match d.description {
            Some(t) => Some(t@),
            None => opt_view(d.detail),
        },
        None => None,
    };
    match from_details {
        Some(t) => Some(t),
        None => opt_view(c.detail),
    }
}

fn clone_opt(s: &Option<String>) -> (r: Option<String>)
    ensures
        opt_view(r) == opt_view(*s),
{
    match s {
        Some(t) => Some(t.clone()),
        None => None,
    }
}

/// Executable form of [`annotation_of`].
pub fn completion_annotation(completion: &Completion) -> (r: Option<String>)
    ensures
        opt_view(r) == annotation_of(*completion),
{
    let from_details = match &completion.label_details {
        Some(d) => match &d.description {
            Some(t) => Some(t.clone()),
            None => clone_opt(&d.detail),
        },
        None => None,
    };
    match from_details {
        Some(t) => Some(t),
        None => clone_opt(&completion.detail),
    }
}

/// The highlight of an annotation: `type` for folders, `string` for files.
pub open spec fn highlight_of(kind: Option<CompletionKind>) -> Option<Seq<char>> {
    match kind {
        Some(CompletionKind::Folder) => Some("type"@),
        Some(CompletionKind::File) => Some("string"@),
        _ => None,
    }
}

/// Executable form of [`highlight_of`].
pub fn completion_annotation_highlight(completion: &Completion) -> (r: Option<String>)
    ensures
        opt_view(r) == highlight_of(completion.kind),
{
    match completion.kind {
        Some(CompletionKind::Folder) => Some("type".to_string()),
        Some(CompletionKind::File) => Some("string".to_string()),
        _ => None,
    }
}

/// The label is the server's label, verbatim.
pub fn completion_label(completion: &Completion) -> (r: String)
    ensures
        r@ == completion.label@,
{
    completion.label.clone()
}

/// A piece of a label with its highlight.
#[derive(Clone, Debug)]
pub struct CodeLabelSpan {
    pub text: String,
    pub highlight_name: Option<String>,
}

/// A label: its text, its highlighted pieces, and the byte range that filtering
/// matches against.
#[derive(Clone, Debug)]
pub struct CodeLabel {
    pub code: String,
    pub spans: Vec<CodeLabelSpan>,
    pub filter_start: usize,
    pub filter_end: usize,
}

pub open spec fn span_view(s: CodeLabelSpan) -> (Seq<char>, Option<Seq<char>>) {
    (s.text@, opt_view(s.highlight_name))
}

/// The label text: `{label} [{annotation}]`, or the label alone.
pub open spec fn label_code(label: Seq<char>, annotation: Option<Seq<char>>) -> Seq<char> {
    match annotation {
        Some(a) => label + " ["@ + a + "]"@,
        None => label,
    }
}

/// The pieces: the label, then a space and the bracketed annotation in its highlight.
pub open spec fn label_spans(label: Seq<char>, annotation: Option<Seq<char>>, highlight: Option<Seq<char>>) -> Seq<
    (Seq<char>, Option<Seq<char>>),
> {
    match annotation {
        Some(a) => seq![(label, None), (" "@, None), ("["@ + a + "]"@, highlight)],
        None => seq![(label, None)],
    }
}

/// The label of a completion, the filter range covering the label's bytes.
pub fn completion_code_label(completion: &Completion) -> (r: CodeLabel)
    ensures
        r.code@ == label_code(completion.label@, annotation_of(*completion)),
        r.spans@.map_values(|s: CodeLabelSpan| span_view(s)) == label_spans(
            completion.label@,
            annotation_of(*completion),
            highlight_of(completion.kind),
        ),
        r.filter_start == 0,
        r.filter_end == utf8_len(completion.label@),
{
    let label = completion_label(completion);
    let annotation = completion_annotation(completion);
    let highlight = completion_annotation_highlight(completion);
    let filter_end = str_byte_len(label.as_str());
    let mut spans: Vec<CodeLabelSpan> = Vec::new();
    spans.push(CodeLabelSpan { text: label.clone(), highlight_name: None });
    let code = match annotation {
        Some(a) => {
            let mut code: Vec<char> = Vec::new();
            append_str(&mut code, label.as_str());
            append_str(&mut code, " [");
            append_str(&mut code, a.as_str());
            append_str(&mut code, "]");
            let mut bracketed: Vec<char> = Vec::new();
            append_str(&mut bracketed, "[");
            append_str(&mut bracketed, a.as_str());
            append_str(&mut bracketed, "]");
            proof {
                reveal_strlit(" [");
                reveal_strlit("[");
                reveal_strlit("]");
            }
            assert(code@ =~= label@ + " ["@ + a@ + "]"@);
            assert(bracketed@ =~= "["@ + a@ + "]"@);
            spans.push(CodeLabelSpan { text: " ".to_string(), highlight_name: None });
            spans.push(CodeLabelSpan { text: string_from_chars(bracketed.as_slice()), highlight_name: highlight });
            string_from_chars(code.as_slice())
        },
        None => label.clone(),
    };
    let r = CodeLabel { code, spans, filter_start: 0, filter_end };
    assert(r.spans@.map_values(|s: CodeLabelSpan| span_view(s)) =~= label_spans(
        completion.label@,
        annotation_of(*completion),
        highlight_of(completion.kind),
    ));
    r
}

/// Characters that never start an alias: ASCII letters and digits, `/`, `.` and `~`.
pub open spec fn never_alias_start(c: char) -> bool {
    ||| ('a' <= c && c <= 'z')
    ||| ('A' <= c && c <= 'Z')
    ||| ('0' <= c && c <= '9')
    ||| c == '/'
    ||| c == '.'
    ||| c == '~'
}

/// The alias character a mapping key contributes: the first character of the
/// normalized key, unless it is one that paths start with anyway.
pub open spec fn alias_char(key: Seq<char>) -> Option<char> {
    let n = normalized_key(key);
    if n.len() > 0 && !never_alias_start(n[0]) {
        Some(n[0])
    } else {
        None
    }
}

/// Some key of `keys` contributes `c`.
pub open spec fn contributes(keys: Seq<Seq<char>>, c: char) -> bool {
    exists|i: int| 0 <= i < keys.len() && alias_char(#[trigger] keys[i]) == Some(c)
}

/// Inserts `c` into a strictly increasing sequence of characters, unless present.
fn insert_sorted(set: &mut Vec<char>, c: char)
    requires
        forall|i: int, j: int| 0 <= i < j < old(set)@.len() ==> old(set)@[i] < old(set)@[j],
    ensures
        forall|i: int, j: int| 0 <= i < j < final(set)@.len() ==> final(set)@[i] < final(set)@[j],
        forall|d: char| final(set)@.contains(d) <==> (old(set)@.contains(d) || d == c),
{
    let ghost before = set@;
    let mut i: usize = 0;
    while i < set.len() && set[i] < c
        invariant
            i <= set@.len(),
            set@ == before,
            forall|k: int| 0 <= k < i ==> set@[k] < c,
        decreases set@.len() - i,
    {
        i = i + 1;
    }
    if i < set.len() && set[i] == c {
        return;
    }
    set.insert(i, c);
    proof {
        before.insert_ensures(i as int, c);
        assert forall|d: char| set@.contains(d) <==> (before.contains(d) || d == c) by {
            if set@.contains(d) {
                let k = choose|k: int| 0 <= k < set@.len() && set@[k] == d;
                if k < i {
                    assert(before[k] == d);
                } else if k > i {
                    assert(before[k - 1] == d);
                }
            }
            if before.contains(d) {
                let k = choose|k: int| 0 <= k < before.len() && before[k] == d;
                if k < i {
                    assert(set@[k] == d);
                } else {
                    assert(set@[k + 1] == d);
                }
            }
            if d == c {
                assert(set@[i as int] == c);
            }
        }
    }
}

pub open spec fn strings_of(v: Seq<String>) -> Seq<Seq<char>> {
    v.map_values(|s: String| s@)
}

/// The alias characters of the mapping keys in the workspace settings, each once, in
/// order; none when the settings hold no `path_mappings` object.
pub fn alias_trigger_characters(mapping_keys: Option<&Vec<String>>) -> (r: Vec<String>)
    ensures
        mapping_keys is None ==> r@.len() == 0,
        forall|i: int| 0 <= i < r@.len() ==> (#[trigger] r@[i])@.len() == 1,
        forall|i: int, j: int| 0 <= i < j < r@.len() ==> (#[trigger] r@[i])@[0] < (#[trigger] r@[j])@[0],
        match mapping_keys {
            Some(keys) => forall|c: char|
                (exists|i: int| 0 <= i < r@.len() && (#[trigger] r@[i])@ == seq![c]) <==> contributes(
                    strings_of(keys@),
                    c,
                ),
            None => true,
        },
{
    let keys = match mapping_keys {
        Some(k) => k,
        None => return Vec::new(),
    };
    let ghost ks = strings_of(keys@);
    let mut set: Vec<char> = Vec::new();
    let mut i: usize = 0;
    while i < keys.len()
        invariant
            ks == strings_of(keys@),
            i <= keys@.len(),
            forall|a: int, b: int| 0 <= a < b < set@.len() ==> set@[a] < set@[b],
            forall|c: char| set@.contains(c) <==> contributes(ks.take(i as int), c),
        decreases keys@.len() - i,
    {
        let key = to_chars(keys[i].as_str());
        let normalized = normalize_mapping_key(&key);
        let ghost before = set@;
        let mut added = false;
        if normalized.len() > 0 {
            let c = normalized[0];
            let never = ('a' <= c && c <= 'z') || ('A' <= c && c <= 'Z') || ('0' <= c && c <= '9') || c == '/' || c
                == '.' || c == '~';
            if !never {
                insert_sorted(&mut set, c);
                added = true;
            }
        }
        proof {
            assert(ks[i as int] == key@);
            assert forall|c: char| set@.contains(c) <==> contributes(ks.take(i as int + 1), c) by {
                let t = ks.take(i as int + 1);
                if contributes(t, c) {
                    let k = choose|k: int| 0 <= k < t.len() && alias_char(#[trigger] t[k]) == Some(c);
                    if k < i {
                        assert(ks.take(i as int)[k] == t[k]);
                        assert(contributes(ks.take(i as int), c));
                    }
                }
                if contributes(ks.take(i as int), c) {
                    let k = choose|k: int| 0 <= k < i && alias_char(#[trigger] ks.take(i as int)[k]) == Some(c);
                    assert(t[k] == ks.take(i as int)[k]);
                }
                if added && c == normalized@[0] {
                    assert(t[i as int] == ks[i as int]);
                }
            }
        }
        i = i + 1;
    }
    assert(ks.take(keys@.len() as int) =~= ks);
    assert(forall|c: char| set@.contains(c) <==> contributes(ks, c));
    let mut out: Vec<String> = Vec::new();
    let mut j: usize = 0;
    while j < set.len()
        invariant
            j <= set@.len(),
            out@.len() == j,
            forall|k: int| 0 <= k < j ==> (#[trigger] out@[k])@ == seq![set@[k]],
        decreases set@.len() - j,
    {
        let one = vec![set[j]];
        out.push(string_from_chars(one.as_slice()));
        j = j + 1;
    }
    proof {
        assert forall|c: char|
            (exists|k: int| 0 <= k < out@.len() && (#[trigger] out@[k])@ == seq![c]) <==> set@.contains(c) by {
            if exists|k: int| 0 <= k < out@.len() && (#[trigger] out@[k])@ == seq![c] {
                let k = choose|k: int| 0 <= k < out@.len() && (#[trigger] out@[k])@ == seq![c];
                assert(seq![set@[k]][0] == c);
            }
            if set@.contains(c) {
                let k = choose|k: int| 0 <= k < set@.len() && set@[k] == c;
                assert(out@[k]@ == seq![c]);
            }
        }
        assert forall|a: int, b: int| 0 <= a < b < out@.len() implies (#[trigger] out@[a])@[0] < (#[trigger] out@[b])@[0] by {
            assert(out@[a]@ == seq![set@[a]]);
            assert(out@[b]@ == seq![set@[b]]);
        }
    }
    out
}

/// A command that starts the server.
#[derive(Clone, Debug)]
pub struct Command {
    pub command: String,
    pub args: Vec<String>,
    pub env: Vec<(String, String)>,
}

/// The `binary` part of the user's server settings.
#[derive(Clone, Debug)]
pub struct BinarySettings {
    pub path: Option<String>,
    pub arguments: Option<Vec<String>>,
    pub env: Option<Vec<(String, String)>>,
}

/// `c` runs the configured binary with the configured arguments and environment,
/// none where they are not set.
pub open spec fn configured(b: BinarySettings, c: Command) -> bool {
    &&& b.path matches Some(p) && c.command@ == p@
    &&& c.args@ == (match b.arguments {
        Some(a) => a@,
        None => Seq::<String>::empty(),
    })
    &&& c.env@ == (match b.env {
        Some(e) => e@,
        None => Seq::<(String, String)>::empty(),
    })
}

/// The command the user configured: only where a binary path is set; its arguments
/// and environment default to none.
pub fn command_from_override(binary: Option<BinarySettings>) -> (r: Option<Command>)
    ensures
        match binary {
            Some(b) => if b.path is Some {
                (r matches Some(c) && configured(b, c))
            } else {
                r is None
            },
            None => r is None,
        },
{
    let binary = match binary {
        Some(b) => b,
        None => return None,
    };
    let path = match binary.path {
        Some(p) => p,
        None => return None,
    };
    let args = match binary.arguments {
        Some(a) => a,
        None => Vec::new(),
    };
    let env = match binary.env {
        Some(e) => e,
        None => Vec::new(),
    };
    Some(Command { command: path, args, env })
}

/// A command that runs `program` with no arguments and no environment.
pub open spec fn bare_command(c: Command, program: Seq<char>) -> bool {
    c.command@ == program && c.args@.len() == 0 && c.env@.len() == 0
}

/// "unsupported language server id `{id}`"
pub open spec fn unsupported_server_message(id: Seq<char>) -> Seq<char> {
    "unsupported language server id `"@ + id + "`"@
}

/// The message when no server binary was found.
pub open spec fn missing_binary_message() -> Seq<char> {
    "could not find `path-sense-lsp`. Set `lsp.path-sense.binary.path`, build `target/debug/path-sense-lsp` inside the worktree, or add `path-sense-lsp` to PATH."@
}

/// How the server is started: the user's configured command first, then the debug
/// build inside the worktree when it exists, then the binary found on `PATH`.
pub fn language_server_command(
    language_server_id: &str,
    binary: Option<BinarySettings>,
    worktree_root: &str,
    worktree_binary_exists: bool,
    binary_on_path: Option<String>,
) -> (r: Result<Command, String>)
    ensures
        language_server_id@ != server_id() ==> (r matches Err(m) && m@ == unsupported_server_message(language_server_id@)),
        language_server_id@ == server_id() ==> match binary {
            Some(b) if b.path is Some => (r matches Ok(c) && configured(b, c)),
            _ => if worktree_binary_exists {
                (r matches Ok(c) && bare_command(c, path_join(path_join(path_join(worktree_root@, "target"@), "debug"@), binary_name())))
            } else {
                match binary_on_path {
                    Some(p) => (r matches Ok(c) && bare_command(c, p@)),
                    None => (r matches Err(m) && m@ == missing_binary_message()),
                }
            },
        },
{
    if !is_path_sense_server(language_server_id) {
        let mut m: Vec<char> = Vec::new();
        append_str(&mut m, "unsupported language server id `");
        append_str(&mut m, language_server_id);
        append_str(&mut m, "`");
        assert(m@ =~= unsupported_server_message(language_server_id@));
        return Err(string_from_chars(m.as_slice()));
    }
    if let Some(command) = command_from_override(binary) {
        return Ok(command);
    }
    if worktree_binary_exists {
        let candidate = worktree_binary_path(worktree_root);
        return Ok(Command { command: candidate, args: Vec::new(), env: Vec::new() });
    }
    match binary_on_path {
        Some(p) => Ok(Command { command: p, args: Vec::new(), env: Vec::new() }),
        None => Err(
            "could not find `path-sense-lsp`. Set `lsp.path-sense.binary.path`, build `target/debug/path-sense-lsp` inside the worktree, or add `path-sense-lsp` to PATH.".to_string(),
        ),
    }
}

/// Labels are given to this extension's completions only.
pub fn label_for_completion(language_server_id: &str, completion: &Completion) -> (r: Option<CodeLabel>)
    ensures
        r is Some <==> language_server_id@ == server_id(),
        r matches Some(l) ==> l.code@ == label_code(completion.label@, annotation_of(*completion)),
        r matches Some(l) ==> l.spans@.map_values(|s: CodeLabelSpan| span_view(s)) == label_spans(
            completion.label@,
            annotation_of(*completion),
            highlight_of(completion.kind),
        ),
        r matches Some(l) ==> l.filter_start == 0 && l.filter_end == utf8_len(completion.label@),
{
    if !is_path_sense_server(language_server_id) {
        return None;
    }
    Some(completion_code_label(completion))
}

} // verus!

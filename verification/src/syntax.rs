//! Syntax trees from tree-sitter: grammars per language, parsing and incremental
//! re-parsing, and the node accessors the context rules read.
use crate::chars::to_chars;
use crate::handlers::{is_kind, LanguageKind};
use crate::text::{range_change, InputEdit, Range};
use vstd::prelude::*;

verus! {

#[verifier::external_type_specification]
#[verifier::external_body]
pub struct ExParser(tree_sitter::Parser);

#[verifier::external_type_specification]
#[verifier::external_body]
pub struct ExTree(tree_sitter::Tree);

#[verifier::external_type_specification]
#[verifier::external_body]
pub struct ExLanguage(tree_sitter::Language);

#[verifier::external_type_specification]
#[verifier::external_body]
pub struct ExNode<'tree>(tree_sitter::Node<'tree>);

/// `tree_sitter_javascript::LANGUAGE`.
#[verifier::external_body]
fn javascript_grammar() -> tree_sitter::Language {
    tree_sitter_javascript::LANGUAGE.into()
}

/// `tree_sitter_typescript::LANGUAGE_TYPESCRIPT`.
#[verifier::external_body]
fn typescript_grammar() -> tree_sitter::Language {
    tree_sitter_typescript::LANGUAGE_TYPESCRIPT.into()
}

/// `tree_sitter_typescript::LANGUAGE_TSX`.
#[verifier::external_body]
fn tsx_grammar() -> tree_sitter::Language {
    tree_sitter_typescript::LANGUAGE_TSX.into()
}

/// `tree_sitter_python::LANGUAGE`.
#[verifier::external_body]
fn python_grammar() -> tree_sitter::Language {
    tree_sitter_python::LANGUAGE.into()
}

/// `tree_sitter_rust::LANGUAGE`.
#[verifier::external_body]
fn rust_grammar() -> tree_sitter::Language {
    tree_sitter_rust::LANGUAGE.into()
}

/// `tree_sitter_go::LANGUAGE`.
#[verifier::external_body]
fn go_grammar() -> tree_sitter::Language {
    tree_sitter_go::LANGUAGE.into()
}

/// `tree_sitter_nix::LANGUAGE`.
#[verifier::external_body]
fn nix_grammar() -> tree_sitter::Language {
    tree_sitter_nix::LANGUAGE.into()
}

/// `tree_sitter_toml_ng::LANGUAGE`.
#[verifier::external_body]
fn toml_grammar() -> tree_sitter::Language {
    tree_sitter_toml_ng::LANGUAGE.into()
}

/// `tree_sitter_yaml::LANGUAGE`.
#[verifier::external_body]
fn yaml_grammar() -> tree_sitter::Language {
    tree_sitter_yaml::LANGUAGE.into()
}

/// `tree_sitter_json::LANGUAGE`.
#[verifier::external_body]
fn json_grammar() -> tree_sitter::Language {
    tree_sitter_json::LANGUAGE.into()
}

/// `tree_sitter_bash::LANGUAGE`.
#[verifier::external_body]
fn bash_grammar() -> tree_sitter::Language {
    tree_sitter_bash::LANGUAGE.into()
}

/// A tree-sitter grammar, with the language it is the grammar of.
pub struct Grammar {
    kind: LanguageKind,
    language: tree_sitter::Language,
}

impl Grammar {
    pub closed spec fn kind(&self) -> LanguageKind {
        self.kind
    }
}

/// The tree-sitter grammar of a language.
pub(crate) fn grammar(kind: LanguageKind) -> (r: Grammar)
    ensures
        r.kind() == kind,
{
    let language = match kind {
        LanguageKind::JavaScript => javascript_grammar(),
        LanguageKind::TypeScript => typescript_grammar(),
        LanguageKind::Tsx => tsx_grammar(),
        LanguageKind::Python => python_grammar(),
        LanguageKind::Rust => rust_grammar(),
        LanguageKind::Go => go_grammar(),
        LanguageKind::Nix => nix_grammar(),
        LanguageKind::Toml => toml_grammar(),
        LanguageKind::Yaml => yaml_grammar(),
        LanguageKind::Json => json_grammar(),
        LanguageKind::ShellScript => bash_grammar(),
    };
    Grammar { kind, language }
}

/// Whether `Parser::set_language` accepts the grammar of the language: its ABI
/// version lies in the range this tree-sitter supports and it is parseable.
pub uninterp spec fn grammar_loads(kind: LanguageKind) -> bool;

/// A parser that has been given a language.
pub struct LoadedParser {
    parser: tree_sitter::Parser,
}

/// `Parser::new`.
#[verifier::external_body]
fn parser_new() -> tree_sitter::Parser {
    tree_sitter::Parser::new()
}

/// `Parser::set_language` with the grammar; the parser comes back holding the
/// language exactly when the grammar loads. The claim rests on a [`Grammar`] holding
/// the grammar of its kind, which [`grammar`], its only constructor, guarantees.
#[verifier::external_body]
fn parser_set_language(parser: tree_sitter::Parser, grammar: &Grammar) -> (r: Option<LoadedParser>)
    ensures
        r is Some <==> grammar_loads(grammar.kind()),
{
    let mut parser = parser;
    match parser.set_language(&grammar.language) {
        Ok(()) => Some(LoadedParser { parser }),
        Err(_) => None,
    }
}

/// One parse of a document: the text parsed and, when the previous tree was reused,
/// the edit applied to it first (`None` for a parse from scratch, or an old tree
/// reused unedited).
pub type ParseStep = (Seq<char>, Option<InputEdit>);

/// A tree tree-sitter produced, with the parses that led to it (the last parse is of
/// the tree's text; an incremental parse's result depends on the tree it reused).
/// Only the parse wrapper below builds one.
pub struct ParsedTree {
    pub(crate) tree: tree_sitter::Tree,
    history: Ghost<Seq<ParseStep>>,
}

impl ParsedTree {
    /// The parses that produced the tree, oldest first.
    pub closed spec fn history(&self) -> Seq<ParseStep> {
        self.history@
    }
}

/// A parsed tree that has been edited to match a new text, with the edit.
pub struct EditedTree {
    tree: tree_sitter::Tree,
    history: Ghost<Seq<ParseStep>>,
    edit: Ghost<InputEdit>,
}

impl EditedTree {
    /// The parses that produced the tree before the edit.
    pub closed spec fn history(&self) -> Seq<ParseStep> {
        self.history@
    }

    /// The edit applied to the tree.
    pub closed spec fn edit(&self) -> InputEdit {
        self.edit@
    }
}

/// The text of the last of some parses.
pub open spec fn last_text(history: Seq<ParseStep>) -> Seq<char> {
    if history.len() > 0 {
        history.last().0
    } else {
        Seq::empty()
    }
}

/// The parses after one more: from scratch, or reusing an edited tree.
pub open spec fn next_history(old: Option<(Seq<ParseStep>, InputEdit)>, text: Seq<char>) -> Seq<ParseStep> {
    match old {
        None => seq![(text, None)],
        Some((h, edit)) => h.push((text, Some(edit))),
    }
}

pub open spec fn old_tree_view(old: Option<&EditedTree>) -> Option<(Seq<ParseStep>, InputEdit)> {
    match old {
        Some(t) => Some((t.history(), t.edit())),
        None => None,
    }
}

/// `Parser::parse`, reusing `old_tree` (edited to match `text`) when given; the tree is
/// recorded as the result of this parse. tree-sitter documents `None` only for a
/// parser without a language, and no progress callback is given here, so a tree
/// always comes back.
#[verifier::external_body]
fn parser_parse(parser: &mut LoadedParser, text: &str, old_tree: Option<&EditedTree>) -> (r: Option<ParsedTree>)
    ensures
        r is Some,
        r.unwrap().history() == next_history(old_tree_view(old_tree), text@),
{
    let history = Ghost(next_history(old_tree_view(old_tree), text@));
    match parser.parser.parse(text, old_tree.map(|old| &old.tree)) {
        Some(tree) => Some(ParsedTree { tree, history }),
        None => None,
    }
}

/// `Tree::clone`.
#[verifier::external_body]
fn tree_clone(tree: &ParsedTree) -> (r: ParsedTree)
    ensures
        r.history() == tree.history(),
{
    ParsedTree { tree: tree.tree.clone(), history: tree.history }
}

/// `Tree::edit`, with the edit converted field by field; the tree comes back as an
/// edited tree recording the edit.
#[verifier::external_body]
fn tree_edit(tree: ParsedTree, edit: &InputEdit) -> (r: EditedTree)
    ensures
        r.history() == tree.history(),
        r.edit() == *edit,
{
    let mut tree = tree;
    tree.tree.edit(
        &tree_sitter::InputEdit {
            start_byte: edit.start_byte,
            old_end_byte: edit.old_end_byte,
            new_end_byte: edit.new_end_byte,
            start_position: tree_sitter::Point::new(edit.start_position.row, edit.start_position.column),
            old_end_position: tree_sitter::Point::new(edit.old_end_position.row, edit.old_end_position.column),
            new_end_position: tree_sitter::Point::new(edit.new_end_position.row, edit.new_end_position.column),
        },
    );
    EditedTree { tree: tree.tree, history: tree.history, edit: Ghost(*edit) }
}

/// `Node::start_byte`.
#[verifier::external_body]
pub(crate) fn node_start(node: &tree_sitter::Node) -> usize {
    node.start_byte()
}

/// `Node::end_byte`.
#[verifier::external_body]
pub(crate) fn node_end(node: &tree_sitter::Node) -> usize {
    node.end_byte()
}

/// `Node::kind`, as an owned string.
#[verifier::external_body]
pub(crate) fn node_kind(node: &tree_sitter::Node) -> String {
    node.kind().to_string()
}

/// `Node::named_children`, collected in order.
#[verifier::external_body]
pub(crate) fn node_named_children<'t>(node: &tree_sitter::Node<'t>) -> Vec<tree_sitter::Node<'t>> {
    let mut walk = node.walk();
    node.named_children(&mut walk).collect()
}

/// `Node::parent`.
#[verifier::external_body]
pub(crate) fn node_parent<'t>(node: &tree_sitter::Node<'t>) -> Option<tree_sitter::Node<'t>> {
    node.parent()
}

/// `Node::child_by_field_name`.
#[verifier::external_body]
pub(crate) fn node_field_child<'t>(node: &tree_sitter::Node<'t>, field: &str) -> Option<tree_sitter::Node<'t>> {
    node.child_by_field_name(field)
}

/// The tree-sitter queries that select path-bearing nodes of a language.
#[derive(Clone, Copy, Debug)]
pub struct LanguageProfile {
    pub kind: LanguageKind,
    pub quoted_query: &'static str,
    pub bare_query: Option<&'static str>,
}

/// Characters `char::is_whitespace` accepts (the Unicode `White_Space` property).
pub open spec fn is_white_space(c: char) -> bool {
    let v = c as u32;
    ||| 0x09 <= v <= 0x0D
    ||| v == 0x20
    ||| v == 0x85
    ||| v == 0xA0
    ||| v == 0x1680
    ||| 0x2000 <= v <= 0x200A
    ||| v == 0x2028
    ||| v == 0x2029
    ||| v == 0x202F
    ||| v == 0x205F
    ||| v == 0x3000
}

pub open spec fn ascii_lower(c: char) -> char {
    if 'A' <= c <= 'Z' {
        (((c as u8) + 32) as u8) as char
    } else {
        c
    }
}

/// Index of the first character of `s` that is not white space (or `s.len()`).
pub open spec fn trim_start_index(s: Seq<char>) -> int
    decreases s.len(),
{
    if s.len() > 0 && is_white_space(s[0]) {
        1 + trim_start_index(s.drop_first())
    } else {
        0
    }
}

/// Index just after the last character of `s` that is not white space (or 0).
pub open spec fn trim_end_index(s: Seq<char>) -> int
    decreases s.len(),
{
    if s.len() > 0 && is_white_space(s.last()) {
        trim_end_index(s.drop_last())
    } else {
        s.len() as int
    }
}

/// A language id without surrounding white space, with ASCII letters in lower case.
pub open spec fn normalized_language_id(id: Seq<char>) -> Seq<char> {
    let a = trim_start_index(id);
    let b = trim_end_index(id);
    if a < b {
        id.subrange(a, b).map_values(|c: char| ascii_lower(c))
    } else {
        Seq::<char>::empty()
    }
}

/// The language an editor language id names.
pub open spec fn language_for_id(id: Seq<char>) -> Option<LanguageKind> {
    let n = normalized_language_id(id);
    if n == "javascript"@ || n == "javascriptreact"@ || n == "jsx"@ {
        Some(LanguageKind::JavaScript)
    } else if n == "typescript"@ {
        Some(LanguageKind::TypeScript)
    } else if n == "typescriptreact"@ || n == "tsx"@ {
        Some(LanguageKind::Tsx)
    } else if n == "python"@ {
        Some(LanguageKind::Python)
    } else if n == "rust"@ {
        Some(LanguageKind::Rust)
    } else if n == "go"@ {
        Some(LanguageKind::Go)
    } else if n == "nix"@ {
        Some(LanguageKind::Nix)
    } else if n == "toml"@ {
        Some(LanguageKind::Toml)
    } else if n == "yaml"@ || n == "yml"@ {
        Some(LanguageKind::Yaml)
    } else if n == "json"@ {
        Some(LanguageKind::Json)
    } else if n == "shell script"@ || n == "shellscript"@ || n == "bash"@ || n == "sh"@ {
        Some(LanguageKind::ShellScript)
    } else {
        None
    }
}

proof fn lemma_trim_start(s: Seq<char>)
    ensures
        0 <= trim_start_index(s) <= s.len(),
        forall|j: int| 0 <= j < trim_start_index(s) ==> is_white_space(s[j]),
        trim_start_index(s) < s.len() ==> !is_white_space(s[trim_start_index(s)]),
    decreases s.len(),
{
    if s.len() > 0 && is_white_space(s[0]) {
        lemma_trim_start(s.drop_first());
        assert(forall|j: int| 0 < j < s.len() ==> s[j] == s.drop_first()[j - 1]);
    }
}

proof fn lemma_trim_end(s: Seq<char>)
    ensures
        0 <= trim_end_index(s) <= s.len(),
        forall|j: int| trim_end_index(s) <= j < s.len() ==> is_white_space(s[j]),
        trim_end_index(s) > 0 ==> !is_white_space(s[trim_end_index(s) - 1]),
    decreases s.len(),
{
    if s.len() > 0 && is_white_space(s.last()) {
        lemma_trim_end(s.drop_last());
        assert(forall|j: int| 0 <= j < s.len() - 1 ==> s.drop_last()[j] == s[j]);
    }
}

fn is_white_space_exec(c: char) -> (r: bool)
    ensures
        r == is_white_space(c),
{
    let v = c as u32;
    (0x09 <= v && v <= 0x0D) || v == 0x20 || v == 0x85 || v == 0xA0 || v == 0x1680 || (0x2000 <= v
        && v <= 0x200A) || v == 0x2028 || v == 0x2029 || v == 0x202F || v == 0x205F || v == 0x3000
}

/// Executable form of [`normalized_language_id`].
pub fn normalize_language_id(id: &str) -> (r: Vec<char>)
    ensures
        r@ == normalized_language_id(id@),
{
    let cs = to_chars(id);
    proof {
        lemma_trim_start(cs@);
        lemma_trim_end(cs@);
    }
    let mut a: usize = 0;
    while a < cs.len() && is_white_space_exec(cs[a])
        invariant
            a <= cs@.len(),
            forall|j: int| 0 <= j < a ==> is_white_space(cs@[j]),
            a <= trim_start_index(cs@),
            0 <= trim_start_index(cs@) <= cs@.len(),
            forall|j: int| 0 <= j < trim_start_index(cs@) ==> is_white_space(cs@[j]),
            trim_start_index(cs@) < cs@.len() ==> !is_white_space(cs@[trim_start_index(cs@)]),
        decreases cs@.len() - a,
    {
        a = a + 1;
    }
    let mut b: usize = cs.len();
    while b > 0 && is_white_space_exec(cs[b - 1])
        invariant
            b <= cs@.len(),
            b >= trim_end_index(cs@),
            0 <= trim_end_index(cs@) <= cs@.len(),
            forall|j: int| trim_end_index(cs@) <= j < cs@.len() ==> is_white_space(cs@[j]),
            trim_end_index(cs@) > 0 ==> !is_white_space(cs@[trim_end_index(cs@) - 1]),
        decreases b,
    {
        b = b - 1;
    }
    let mut out: Vec<char> = Vec::new();
    if a < b {
        let mut i: usize = a;
        while i < b
            invariant
                a <= i <= b <= cs@.len(),
                out@ == cs@.subrange(a as int, i as int).map_values(|c: char| ascii_lower(c)),
            decreases b - i,
        {
            let c = cs[i];
            let lower = if 'A' <= c && c <= 'Z' {
                ((c as u8) + 32) as char
            } else {
                c
            };
            out.push(lower);
            i = i + 1;
            assert(out@ =~= cs@.subrange(a as int, i as int).map_values(|c: char| ascii_lower(c)));
        }
    }
    out
}

/// The query that captures a language's quoted strings.
pub open spec fn quoted_query_text(kind: LanguageKind) -> Seq<char> {
    match kind {
        LanguageKind::JavaScript | LanguageKind::TypeScript | LanguageKind::Tsx =>
            "[(string) (template_string)] @path.context"@,
        LanguageKind::Python => "(string) @path.context"@,
        LanguageKind::Rust => "[(string_literal) (raw_string_literal)] @path.context"@,
        LanguageKind::Go => "[(interpreted_string_literal) (raw_string_literal)] @path.context"@,
        LanguageKind::Nix => "[(string_expression) (indented_string_expression)] @path.context"@,
        LanguageKind::Toml => "(string) @path.context"@,
        LanguageKind::Yaml => "[(double_quote_scalar) (single_quote_scalar)] @path.context"@,
        LanguageKind::Json => "(string) @path.context"@,
        LanguageKind::ShellScript => "[(string) (raw_string) (translated_string) (ansi_c_string)] @path.context"@,
    }
}

/// The query that captures a language's bare path tokens, for the languages that have one.
pub open spec fn bare_query_text(kind: LanguageKind) -> Option<Seq<char>> {
    match kind {
        LanguageKind::Yaml => Some("(plain_scalar) @path.context"@),
        LanguageKind::Nix => Some("[(path_expression) (hpath_expression) (spath_expression)] @path.context"@),
        LanguageKind::ShellScript => Some("(word) @path.context"@),
        _ => None,
    }
}

/// The queries of a language: quoted strings, and for Nix, shell and YAML, bare path tokens.
pub fn language_profile_for_kind(kind: LanguageKind) -> (p: LanguageProfile)
    ensures
        p.kind == kind,
        p.quoted_query@ == quoted_query_text(kind),
        match p.bare_query {
            Some(q) => bare_query_text(kind) == Some(q@),
            None => bare_query_text(kind) is None,
        },
        p.bare_query is Some <==> (kind == LanguageKind::Nix || kind == LanguageKind::ShellScript
            || kind == LanguageKind::Yaml),
{
    let quoted_query: &'static str = match kind {
        LanguageKind::JavaScript | LanguageKind::TypeScript | LanguageKind::Tsx =>
            "[(string) (template_string)] @path.context",
        LanguageKind::Python => "(string) @path.context",
        LanguageKind::Rust => "[(string_literal) (raw_string_literal)] @path.context",
        LanguageKind::Go => "[(interpreted_string_literal) (raw_string_literal)] @path.context",
        LanguageKind::Nix => "[(string_expression) (indented_string_expression)] @path.context",
        LanguageKind::Toml => "(string) @path.context",
        LanguageKind::Yaml => "[(double_quote_scalar) (single_quote_scalar)] @path.context",
        LanguageKind::Json => "(string) @path.context",
        LanguageKind::ShellScript =>
            "[(string) (raw_string) (translated_string) (ansi_c_string)] @path.context",
    };
    let bare_query: Option<&'static str> = match kind {
        LanguageKind::Yaml => Some("(plain_scalar) @path.context"),
        LanguageKind::Nix => Some(
            "[(path_expression) (hpath_expression) (spath_expression)] @path.context",
        ),
        LanguageKind::ShellScript => Some("(word) @path.context"),
        _ => None,
    };
    LanguageProfile { kind, quoted_query, bare_query }
}

/// The profile of the language an editor language id names.
pub fn language_profile(language_id: &str) -> (r: Option<LanguageProfile>)
    ensures
        match language_for_id(language_id@) {
            Some(k) => r matches Some(p) && p.kind == k,
            None => r is None,
        },
{
    let n = normalize_language_id(language_id);
    let kind = if is_kind(&n, "javascript") || is_kind(&n, "javascriptreact") || is_kind(&n, "jsx") {
        LanguageKind::JavaScript
    } else if is_kind(&n, "typescript") {
        LanguageKind::TypeScript
    } else if is_kind(&n, "typescriptreact") || is_kind(&n, "tsx") {
        LanguageKind::Tsx
    } else if is_kind(&n, "python") {
        LanguageKind::Python
    } else if is_kind(&n, "rust") {
        LanguageKind::Rust
    } else if is_kind(&n, "go") {
        LanguageKind::Go
    } else if is_kind(&n, "nix") {
        LanguageKind::Nix
    } else if is_kind(&n, "toml") {
        LanguageKind::Toml
    } else if is_kind(&n, "yaml") || is_kind(&n, "yml") {
        LanguageKind::Yaml
    } else if is_kind(&n, "json") {
        LanguageKind::Json
    } else if is_kind(&n, "shell script") || is_kind(&n, "shellscript") || is_kind(&n, "bash")
        || is_kind(&n, "sh") {
        LanguageKind::ShellScript
    } else {
        return None;
    };
    Some(language_profile_for_kind(kind))
}

/// A parsed tree of a document, with the language it was parsed in.
pub struct SyntaxSnapshot {
    pub(crate) language_kind: LanguageKind,
    pub(crate) tree: ParsedTree,
}

impl SyntaxSnapshot {
    pub closed spec fn kind(&self) -> LanguageKind {
        self.language_kind
    }

    /// The parses that produced the tree.
    pub closed spec fn history(&self) -> Seq<ParseStep> {
        self.tree.history()
    }

    /// The text the tree was parsed from.
    pub open spec fn source(&self) -> Seq<char> {
        last_text(self.history())
    }

    /// The language the tree was parsed in.
    pub fn language_kind(&self) -> (k: LanguageKind)
        ensures
            k == self.kind(),
    {
        self.language_kind
    }
}

/// A parser and the current tree of one document.
pub struct SyntaxState {
    language_kind: LanguageKind,
    parser: LoadedParser,
    tree: ParsedTree,
}

impl SyntaxState {
    pub closed spec fn kind(&self) -> LanguageKind {
        self.language_kind
    }

    /// The parses that produced the current tree.
    pub closed spec fn history(&self) -> Seq<ParseStep> {
        self.tree.history()
    }

    /// The text the current tree was parsed from.
    pub open spec fn source(&self) -> Seq<char> {
        last_text(self.history())
    }

    /// Parses `text` in the language `language_id` names; `None` for languages without
    /// a grammar here, or when tree-sitter refuses the grammar.
    pub fn new(language_id: &str, text: &str) -> (r: Option<SyntaxState>)
        ensures
            r is Some <==> (language_for_id(language_id@) matches Some(k) && grammar_loads(k)),
            r matches Some(s) ==> language_for_id(language_id@) == Some(s.kind()),
            r matches Some(s) ==> s.history() == seq![(text@, None::<InputEdit>)] && s.source() == text@,
    {
        let profile = match language_profile(language_id) {
            Some(p) => p,
            None => return None,
        };
        let language = grammar(profile.kind);
        let mut parser = match parser_set_language(parser_new(), &language) {
            Some(p) => p,
            None => return None,
        };
        match parser_parse(&mut parser, text, None) {
            Some(tree) => Some(SyntaxState { language_kind: profile.kind, parser, tree }),
            None => None,
        }
    }

    /// A copy of the current tree.
    pub fn snapshot(&self) -> (s: SyntaxSnapshot)
        ensures
            s.kind() == self.kind(),
            s.history() == self.history(),
            s.source() == self.source(),
    {
        SyntaxSnapshot { language_kind: self.language_kind, tree: tree_clone(&self.tree) }
    }

    pub fn language_kind(&self) -> (k: LanguageKind)
        ensures
            k == self.kind(),
    {
        self.language_kind
    }

    /// Parses `text` from scratch; the parser always gives a tree, so this returns true
    /// and the tree is that parse.
    pub fn reparse_full(&mut self, text: &str) -> (ok: bool)
        ensures
            ok,
            final(self).kind() == old(self).kind(),
            final(self).history() == seq![(text@, None::<InputEdit>)],
            final(self).source() == text@,
    {
        match parser_parse(&mut self.parser, text, None) {
            Some(tree) => {
                self.tree = tree;
                true
            },
            None => false,
        }
    }

    /// Applies `edit` (the edit that turns the tree's text into `text`) to the tree and
    /// re-parses `text` incrementally from it; the parser always gives a tree, so this
    /// returns true and the tree is that parse.
    pub fn apply_edit(&mut self, text: &str, edit: &InputEdit) -> (ok: bool)
        requires
            exists|range: Range, new: Seq<char>| range_change(old(self).source(), range, new) == Some((*edit, text@)),
        ensures
            ok,
            final(self).kind() == old(self).kind(),
            final(self).history() == old(self).history().push((text@, Some(*edit))),
            final(self).source() == text@,
    {
        let edited = tree_edit(tree_clone(&self.tree), edit);
        match parser_parse(&mut self.parser, text, Some(&edited)) {
            Some(tree) => {
                self.tree = tree;
                true
            },
            None => false,
        }
    }
}

} // verus!

//! Resolving a path token to the directories whose entries complete it: the
//! workspace root of a document, `~` and `/` roots, path mappings with their
//! variables, and the document's own directory.
use crate::chars::{string_from_chars, to_chars};
use crate::context::{key_extends_token, opt_string_view, CompletionContext, ContextView, mapping_key_supports_prefix_completion};
use crate::glob::{any_glob_matches, strings_view};
use crate::query::doc_view;
use crate::paths::{
    components_of, forward_slashes, is_absolute, join_path, parent_of, path_components, path_eq,
    path_has_prefix, path_join, path_parent, path_starts_with, path_to_forward_slashes, paths_equal,
    relative_forward_slashes, relative_to,
};
use crate::settings::{key_before, CompiledMappingEntry, CompiledSettings, SlashRoot, opt_str_view, strs_view};
use crate::chars::utf8_len;
use crate::order::{lemma_lex_irreflexive, lex_lt};
use crate::strs::{last_index_of, lemma_last_index_of, starts_with, subvec, trim_end, trim_end_vec, vec_eq, vec_last_index_of};
use vstd::prelude::*;

verus! {

/// The roots a document can be completed against: the worktree the editor extension
/// names, else the workspace folders the client sent.
pub struct WorkspaceRoots {
    pub internal_worktree_root: Option<String>,
    pub lsp_roots: Vec<String>,
}

pub struct RootsView {
    pub internal: Option<Seq<char>>,
    pub lsp: Seq<Seq<char>>,
}

impl View for WorkspaceRoots {
    type V = RootsView;

    open spec fn view(&self) -> RootsView {
        RootsView { internal: opt_string_view(self.internal_worktree_root), lsp: strings_view(self.lsp_roots@) }
    }
}

impl Clone for WorkspaceRoots {
    fn clone(&self) -> (r: WorkspaceRoots)
        ensures
            r@ == self@,
    {
        let internal = match &self.internal_worktree_root {
            Some(root) => Some(root.clone()),
            None => None,
        };
        let mut lsp: Vec<String> = Vec::new();
        let mut i: usize = 0;
        while i < self.lsp_roots.len()
            invariant
                i <= self.lsp_roots@.len(),
                lsp@.len() == i,
                forall|j: int| 0 <= j < i ==> (#[trigger] lsp@[j])@ == self.lsp_roots@[j]@,
            decreases self.lsp_roots@.len() - i,
        {
            lsp.push(self.lsp_roots[i].clone());
            i = i + 1;
        }
        assert(strings_view(lsp@) =~= strings_view(self.lsp_roots@));
        WorkspaceRoots { internal_worktree_root: internal, lsp_roots: lsp }
    }
}

impl Default for WorkspaceRoots {
    fn default() -> (r: WorkspaceRoots)
        ensures
            r@.internal is None,
            r@.lsp.len() == 0,
    {
        WorkspaceRoots { internal_worktree_root: None, lsp_roots: Vec::new() }
    }
}

pub open spec fn path_depth(p: Seq<char>) -> nat {
    path_components(p).len()
}

/// Root `i` of the list is a prefix of the document path.
pub open spec fn holds_document(lsp: Seq<Seq<char>>, doc: Seq<char>, i: int) -> bool {
    0 <= i < lsp.len() && path_starts_with(doc, lsp[i])
}

/// Root `i` holds the document and is the deepest such root, the last among equals.
pub open spec fn is_best_root(lsp: Seq<Seq<char>>, doc: Seq<char>, i: int) -> bool {
    &&& holds_document(lsp, doc, i)
    &&& forall|j: int| #[trigger] holds_document(lsp, doc, j) ==> path_depth(lsp[j]) <= path_depth(lsp[i])
    &&& forall|j: int| i < j && #[trigger] holds_document(lsp, doc, j) ==> path_depth(lsp[j]) < path_depth(lsp[i])
}

/// The deepest root holding the document, the last among equally deep ones.
pub open spec fn best_root_index(lsp: Seq<Seq<char>>, doc: Seq<char>) -> Option<int> {
    if exists|i: int| is_best_root(lsp, doc, i) {
        Some(choose|i: int| is_best_root(lsp, doc, i))
    } else {
        None
    }
}

/// The workspace root of a document: the extension's worktree when it gave one;
/// else the deepest workspace folder holding the document (the last among equally
/// deep ones), else the first folder.
pub open spec fn root_for_document(roots: RootsView, doc: Option<Seq<char>>) -> Option<Seq<char>> {
    match roots.internal {
        Some(root) => Some(root),
        None => match doc {
            None => None,
            Some(d) => match best_root_index(roots.lsp, d) {
                Some(i) => Some(roots.lsp[i]),
                None => if roots.lsp.len() > 0 {
                    Some(roots.lsp[0])
                } else {
                    None
                },
            },
        },
    }
}

/// The document path relative to its workspace root, with forward slashes.
pub open spec fn relative_path(roots: RootsView, doc: Seq<char>) -> Option<Seq<char>> {
    match root_for_document(roots, Some(doc)) {
        Some(root) => relative_forward_slashes(doc, root),
        None => None,
    }
}

proof fn lemma_best_root_unique(lsp: Seq<Seq<char>>, doc: Seq<char>, i: int, k: int)
    requires
        is_best_root(lsp, doc, i),
        is_best_root(lsp, doc, k),
    ensures
        i == k,
{
    if i < k {
        assert(holds_document(lsp, doc, k));
    } else if k < i {
        assert(holds_document(lsp, doc, i));
    }
}

proof fn lemma_root_is_best(roots: RootsView, doc: Seq<char>, b: int)
    requires
        roots.internal is None,
        is_best_root(roots.lsp, doc, b),
    ensures
        root_for_document(roots, Some(doc)) == Some(roots.lsp[b]),
{
    let k = choose|k: int| is_best_root(roots.lsp, doc, k);
    lemma_best_root_unique(roots.lsp, doc, b, k);
}

impl WorkspaceRoots {
    /// The root a document is completed against (see [`root_for_document`]).
    pub fn workspace_root_for_document(&self, document_path: Option<&String>) -> (r: Option<String>)
        ensures
            opt_string_view(r) == root_for_document(self@, doc_view(document_path)),
    {
        if let Some(root) = &self.internal_worktree_root {
            return Some(root.clone());
        }
        let doc = match document_path {
            Some(doc) => doc,
            None => return None,
        };
        let ghost lsp = self@.lsp;
        let mut best: Option<(usize, usize)> = None;
        let mut i: usize = 0;
        while i < self.lsp_roots.len()
            invariant
                lsp == self@.lsp,
                i <= lsp.len(),
                match best {
                    Some((b, depth)) => {
                        &&& b < i
                        &&& holds_document(lsp, doc@, b as int)
                        &&& depth == path_depth(lsp[b as int])
                        &&& forall|j: int| 0 <= j < i && #[trigger] holds_document(lsp, doc@, j) ==> path_depth(lsp[j]) <= depth
                        &&& forall|j: int| b < j < i && #[trigger] holds_document(lsp, doc@, j) ==> path_depth(lsp[j]) < depth
                    },
                    None => forall|j: int| 0 <= j < i ==> !#[trigger] holds_document(lsp, doc@, j),
                },
            decreases lsp.len() - i,
        {
            let root = &self.lsp_roots[i];
            assert(lsp[i as int] == root@);
            if path_has_prefix(doc.as_str(), root.as_str()) {
                let depth = components_of(root.as_str()).len();
                let replace = match best {
                    Some((_, best_depth)) => depth >= best_depth,
                    None => true,
                };
                if replace {
                    best = Some((i, depth));
                }
            }
            i = i + 1;
        }
        match best {
            Some((b, _)) => {
                proof {
                    assert(is_best_root(lsp, doc@, b as int));
                    let k = choose|k: int| is_best_root(lsp, doc@, k);
                    lemma_root_is_best(self@, doc@, b as int);
                }
                let r = self.lsp_roots[b].clone();
                assert(r@ == lsp[b as int]);
                Some(r)
            },
            None => {
                assert(!exists|k: int| is_best_root(lsp, doc@, k));
                assert(self@.internal is None);
                assert(doc_view(document_path) == Some(doc@));
                if self.lsp_roots.len() > 0 {
                    assert(self.lsp_roots@[0]@ == lsp[0]);
                    Some(self.lsp_roots[0].clone())
                } else {
                    None
                }
            },
        }
    }

    /// The document path relative to its workspace root, with forward slashes;
    /// `None` when there is no root or the document lies outside it.
    pub fn relative_document_path(&self, document_path: &String) -> (r: Option<String>)
        ensures
            opt_string_view(r) == relative_path(self@, document_path@),
    {
        let root = match self.workspace_root_for_document(Some(document_path)) {
            Some(root) => root,
            None => return None,
        };
        relative_to(document_path.as_str(), root.as_str())
    }
}

/// `s` with every occurrence of the non-empty `from` replaced by `to`, scanning left
/// to right without overlaps (what `str::replace` does).
pub open spec fn replace_all(s: Seq<char>, from: Seq<char>, to: Seq<char>) -> Seq<char>
    recommends
        from.len() > 0,
    decreases s.len(),
{
    if from.len() == 0 || s.len() < from.len() {
        s
    } else if s.take(from.len() as int) == from {
        to + replace_all(s.skip(from.len() as int), from, to)
    } else {
        seq![s[0]] + replace_all(s.skip(1), from, to)
    }
}

/// Executable form of [`replace_all`].
pub fn replace_str(s: &str, from: &str, to: &str) -> (r: String)
    requires
        from@.len() > 0,
    ensures
        r@ == replace_all(s@, from@, to@),
{
    let cs = to_chars(s);
    let fs = to_chars(from);
    let ts = to_chars(to);
    let mut out: Vec<char> = Vec::new();
    let mut i: usize = 0;
    assert(cs@.skip(0) =~= cs@);
    while i < cs.len()
        invariant
            fs@.len() > 0,
            i <= cs@.len(),
            out@ + replace_all(cs@.skip(i as int), fs@, ts@) == replace_all(cs@, fs@, ts@),
        decreases cs@.len() - i,
    {
        let ghost rest = cs@.skip(i as int);
        if cs.len() - i >= fs.len() && crate::strs::vec_eq(&subvec(&cs, i, i + fs.len()), &fs) {
            assert(rest.take(fs@.len() as int) =~= cs@.subrange(i as int, i + fs@.len()));
            assert(rest.skip(fs@.len() as int) =~= cs@.skip(i + fs@.len()));
            let mut j: usize = 0;
            let ghost base = out@;
            while j < ts.len()
                invariant
                    j <= ts@.len(),
                    out@ == base + ts@.take(j as int),
                decreases ts@.len() - j,
            {
                out.push(ts[j]);
                j = j + 1;
                assert(out@ =~= base + ts@.take(j as int));
            }
            assert(ts@.take(ts@.len() as int) =~= ts@);
            assert(out@ + replace_all(cs@.skip(i + fs@.len()), fs@, ts@) =~= base + replace_all(rest, fs@, ts@));
            i = i + fs.len();
        } else {
            proof {
                if rest.len() >= fs@.len() {
                    assert(rest.take(fs@.len() as int) =~= cs@.subrange(i as int, i + fs@.len()));
                }
                assert(rest.skip(1) =~= cs@.skip(i + 1));
            }
            let ghost base = out@;
            out.push(cs[i]);
            assert(out@ + replace_all(cs@.skip(i + 1), fs@, ts@) =~= base + replace_all(rest, fs@, ts@));
            i = i + 1;
        }
    }
    assert(out@ =~= replace_all(cs@, fs@, ts@));
    string_from_chars(out.as_slice())
}

/// Follows the components after the first, appending each one.
pub open spec fn home_walk(cs: Seq<Seq<char>>, i: int, acc: Seq<char>) -> Option<Seq<char>>
    decreases cs.len() - i,
{
    if i < 0 || i >= cs.len() {
        Some(acc)
    } else if cs[i] == seq!['/'] {
        None
    } else {
        home_walk(cs, i + 1, path_join(acc, cs[i]))
    }
}

/// A path whose first component is `~`, with `~` replaced by the home directory.
pub open spec fn expand_home_path(p: Seq<char>, home: Option<Seq<char>>) -> Option<Seq<char>> {
    match home {
        None => None,
        Some(h) => {
            let cs = path_components(p);
            if cs.len() == 0 || cs[0] != seq!['~'] {
                None
            } else {
                home_walk(cs, 1, h)
            }
        },
    }
}

/// Replaces a leading `~` component by `home` (the `HOME` directory the caller read);
/// `None` without a home or when the path does not start with `~`.
pub fn expand_home(fragment: &str, home: Option<&String>) -> (r: Option<String>)
    ensures
        opt_string_view(r) == expand_home_path(fragment@, doc_view(home)),
{
    let h = match home {
        Some(h) => h,
        None => return None,
    };
    let cs = components_of(fragment);
    let ghost parts = strings_view(cs@);
    if cs.len() == 0 {
        return None;
    }
    let tilde = to_chars("~");
    proof {
        reveal_strlit("~");
    }
    assert(tilde@ =~= seq!['~']);
    if !crate::strs::vec_eq(&to_chars(cs[0].as_str()), &tilde) {
        assert(parts[0] == cs@[0]@);
        return None;
    }
    assert(parts[0] == cs@[0]@);
    let mut expanded = h.clone();
    let mut i: usize = 1;
    while i < cs.len()
        invariant
            parts == strings_view(cs@),
            parts == path_components(fragment@),
            parts.len() > 0,
            parts[0] == seq!['~'],
            doc_view(home) == Some(h@),
            1 <= i <= cs@.len(),
            home_walk(parts, i as int, expanded@) == home_walk(parts, 1, h@),
        decreases cs@.len() - i,
    {
        let part = &cs[i];
        assert(parts[i as int] == part@);
        let slash = to_chars("/");
        proof {
            reveal_strlit("/");
        }
        assert(slash@ =~= seq!['/']);
        if crate::strs::vec_eq(&to_chars(part.as_str()), &slash) {
            assert(parts[i as int] == seq!['/']);
            return None;
        }
        expanded = join_path(expanded.as_str(), part.as_str());
        i = i + 1;
    }
    Some(expanded)
}

/// What the mapping variables stand for in a document.
pub struct VariablesView {
    pub home: Option<Seq<char>>,
    pub workspace_root: Option<Seq<char>>,
    pub folder_root: Option<Seq<char>>,
    pub file_dirname: Option<Seq<char>>,
    pub relative_file_dirname: Option<Seq<char>>,
    pub relative_document_path: Option<Seq<char>>,
}

pub open spec fn opt_parent(doc: Option<Seq<char>>) -> Option<Seq<char>> {
    match doc {
        Some(d) => path_parent(d),
        None => None,
    }
}

pub open spec fn path_variables(doc: Option<Seq<char>>, roots: RootsView, home: Option<Seq<char>>) -> VariablesView {
    let file_dirname = opt_parent(doc);
    let workspace_root = root_for_document(roots, doc);
    VariablesView {
        home,
        workspace_root,
        folder_root: workspace_root,
        file_dirname,
        relative_file_dirname: match (file_dirname, workspace_root) {
            (Some(dir), Some(root)) => relative_forward_slashes(dir, root),
            _ => None,
        },
        relative_document_path: match doc {
            Some(d) => relative_path(roots, d),
            None => None,
        },
    }
}

/// A path variable's text: the path without trailing slashes, or nothing.
pub open spec fn path_variable_text(value: Option<Seq<char>>) -> Seq<char> {
    match value {
        Some(p) => trim_end(p, '/'),
        None => Seq::empty(),
    }
}

/// `${home}`, `${workspace}`, `${folder}`, `${fileDirname}` and
/// `${relativeFileDirname}` replaced, in that order.
pub open spec fn expand_variables(value: Seq<char>, vars: VariablesView) -> Seq<char> {
    let a = replace_all(value, "${home}"@, path_variable_text(vars.home));
    let b = replace_all(a, "${workspace}"@, path_variable_text(vars.workspace_root));
    let c = replace_all(b, "${folder}"@, path_variable_text(vars.folder_root));
    let d = replace_all(c, "${fileDirname}"@, path_variable_text(vars.file_dirname));
    replace_all(
        d,
        "${relativeFileDirname}"@,
        match vars.relative_file_dirname {
            Some(r) => r,
            None => Seq::empty(),
        },
    )
}

/// The directory a mapping target names: `~` expanded, an absolute path as it is, a
/// relative one below the workspace root, else below the document's directory.
pub open spec fn resolve_target(value: Seq<char>, vars: VariablesView) -> Option<Seq<char>> {
    let expanded = expand_variables(value, vars);
    match expand_home_path(expanded, vars.home) {
        Some(h) => Some(h),
        None => if is_absolute(expanded) {
            Some(expanded)
        } else {
            match vars.workspace_root {
                Some(root) => Some(path_join(root, expanded)),
                None => match vars.file_dirname {
                    Some(dir) => Some(path_join(dir, expanded)),
                    None => None,
                },
            }
        },
    }
}

/// `replace_all` leaves a text in which `from` never occurs unchanged.
proof fn lemma_replace_all_absent(s: Seq<char>, from: Seq<char>, to: Seq<char>)
    requires
        from.len() > 0,
        forall|i: int| 0 <= i && i + from.len() <= s.len() ==> #[trigger] s.subrange(i, i + from.len()) != from,
    ensures
        replace_all(s, from, to) == s,
    decreases s.len(),
{
    if s.len() >= from.len() {
        assert(s.take(from.len() as int) =~= s.subrange(0, 0int + from.len()));
        let t = s.skip(1);
        assert forall|i: int| 0 <= i && i + from.len() <= t.len() implies #[trigger] t.subrange(i, i + from.len())
            != from by {
            assert(t.subrange(i, i + from.len()) =~= s.subrange(i + 1, i + 1 + from.len()));
        }
        lemma_replace_all_absent(t, from, to);
        assert(seq![s[0]] + t =~= s);
    }
}

/// A variable reference (it starts with `$`) never occurs in a text without `$`.
proof fn lemma_replace_all_dollar_free(s: Seq<char>, from: Seq<char>, to: Seq<char>)
    requires
        from.len() > 0,
        from[0] == '$',
        !s.contains('$'),
    ensures
        replace_all(s, from, to) == s,
{
    assert forall|i: int| 0 <= i && i + from.len() <= s.len() implies #[trigger] s.subrange(i, i + from.len())
        != from by {
        assert(s.subrange(i, i + from.len())[0] == s[i]);
        if s[i] == '$' {
            assert(s.contains(s[i]));
        }
    }
    lemma_replace_all_absent(s, from, to);
}

/// A text whose only `$` is its first character, and which does not start with
/// the reference `from`, has no occurrence of `from`.
proof fn lemma_replace_all_other_reference(s: Seq<char>, from: Seq<char>, to: Seq<char>)
    requires
        from.len() > 0,
        from[0] == '$',
        s.len() > 0,
        !s.skip(1).contains('$'),
        s.len() >= from.len() ==> s.take(from.len() as int) != from,
    ensures
        replace_all(s, from, to) == s,
{
    if s.len() >= from.len() {
        lemma_replace_all_dollar_free(s.skip(1), from, to);
        assert(seq![s[0]] + s.skip(1) =~= s);
    }
}

/// `${fileDirname}` in a mapping value stands for the directory of the document,
/// whatever the workspace root is: for a document whose parent directory `dir` is
/// absolute (and not the root `/` itself), `${fileDirname}` followed by a path
/// `rest` resolves to `dir` followed by `rest`.
pub proof fn lemma_file_dirname_is_document_directory(
    doc: Seq<char>,
    dir: Seq<char>,
    rest: Seq<char>,
    roots: RootsView,
    home: Option<Seq<char>>,
)
    requires
        path_parent(doc) == Some(dir),
        dir.len() > 0,
        dir[0] == '/',
        dir.last() != '/',
        !dir.contains('$'),
        !rest.contains('$'),
    ensures
        resolve_target("${fileDirname}"@ + rest, path_variables(Some(doc), roots, home)) == Some(dir + rest),
{
    reveal_strlit("${home}");
    reveal_strlit("${workspace}");
    reveal_strlit("${folder}");
    reveal_strlit("${fileDirname}");
    reveal_strlit("${relativeFileDirname}");
    let vars = path_variables(Some(doc), roots, home);
    let var = "${fileDirname}"@;
    let v = var + rest;
    assert(v.skip(1) =~= var.skip(1) + rest);
    assert(!var.skip(1).contains('$')) by {
        if var.skip(1).contains('$') {
            let j = choose|j: int| 0 <= j < var.skip(1).len() && var.skip(1)[j] == '$';
            assert(var[j + 1] == '$');
        }
    }
    assert(!v.skip(1).contains('$')) by {
        if v.skip(1).contains('$') {
            let j = choose|j: int| 0 <= j < v.skip(1).len() && v.skip(1)[j] == '$';
            if j < var.skip(1).len() {
                assert(var.skip(1).contains(var.skip(1)[j]));
            } else {
                assert(rest.contains(rest[j - var.skip(1).len()]));
            }
        }
    }
    assert(v.take(7)[2] != "${home}"@[2]);
    lemma_replace_all_other_reference(v, "${home}"@, path_variable_text(vars.home));
    assert(v.take(12)[2] != "${workspace}"@[2]);
    lemma_replace_all_other_reference(v, "${workspace}"@, path_variable_text(vars.workspace_root));
    assert(v.take(9)[3] != "${folder}"@[3]);
    lemma_replace_all_other_reference(v, "${folder}"@, path_variable_text(vars.folder_root));
    assert(vars.file_dirname == Some(dir));
    assert(trim_end(dir, '/') == dir);
    assert(v.take(14) =~= var);
    assert(v.skip(14) =~= rest);
    lemma_replace_all_dollar_free(rest, var, dir);
    assert(replace_all(v, var, dir) == dir + rest);
    let expanded = dir + rest;
    assert(!expanded.contains('$')) by {
        if expanded.contains('$') {
            let j = choose|j: int| 0 <= j < expanded.len() && expanded[j] == '$';
            if j < dir.len() {
                assert(dir.contains(dir[j]));
            } else {
                assert(rest.contains(rest[j - dir.len()]));
            }
        }
    }
    let rel = match vars.relative_file_dirname {
        Some(r) => r,
        None => Seq::empty(),
    };
    lemma_replace_all_dollar_free(expanded, "${relativeFileDirname}"@, rel);
    assert(expand_variables(v, vars) == expanded);
    assert(expanded[0] == '/');
    assert(expand_home_path(expanded, home) is None) by {
        reveal(path_components);
        if home is Some {
            let cs = path_components(expanded);
            assert(cs[0] == seq!['/']);
            assert(seq!['/'][0] != seq!['~'][0]);
        }
    }
}

struct PathVariables {
    home: Option<String>,
    workspace_root: Option<String>,
    folder_root: Option<String>,
    file_dirname: Option<String>,
    relative_file_dirname: Option<String>,
    relative_document_path: Option<String>,
}

impl PathVariables {
    spec fn view(&self) -> VariablesView {
        VariablesView {
            home: opt_string_view(self.home),
            workspace_root: opt_string_view(self.workspace_root),
            folder_root: opt_string_view(self.folder_root),
            file_dirname: opt_string_view(self.file_dirname),
            relative_file_dirname: opt_string_view(self.relative_file_dirname),
            relative_document_path: opt_string_view(self.relative_document_path),
        }
    }

    fn new(document_path: Option<&String>, workspace_roots: &WorkspaceRoots, home: Option<&String>) -> (r: PathVariables)
        ensures
            r.view() == path_variables(doc_view(document_path), workspace_roots@, doc_view(home)),
    {
        let file_dirname = match document_path {
            Some(d) => parent_of(d.as_str()),
            None => None,
        };
        let workspace_root = workspace_roots.workspace_root_for_document(document_path);
        let folder_root = match &workspace_root {
            Some(root) => Some(root.clone()),
            None => None,
        };
        let relative_file_dirname = match (&file_dirname, &workspace_root) {
            (Some(dir), Some(root)) => relative_to(dir.as_str(), root.as_str()),
            _ => None,
        };
        let relative_document_path = match document_path {
            Some(d) => workspace_roots.relative_document_path(d),
            None => None,
        };
        let home = match home {
            Some(h) => Some(h.clone()),
            None => None,
        };
        PathVariables { home, workspace_root, folder_root, file_dirname, relative_file_dirname, relative_document_path }
    }

    fn expand(&self, value: &str) -> (r: String)
        ensures
            r@ == expand_variables(value@, self.view()),
    {
        proof {
            reveal_strlit("${home}");
            reveal_strlit("${workspace}");
            reveal_strlit("${folder}");
            reveal_strlit("${fileDirname}");
            reveal_strlit("${relativeFileDirname}");
        }
        let a = replace_path_variable(value, "${home}", &self.home);
        let b = replace_path_variable(a.as_str(), "${workspace}", &self.workspace_root);
        let c = replace_path_variable(b.as_str(), "${folder}", &self.folder_root);
        let d = replace_path_variable(c.as_str(), "${fileDirname}", &self.file_dirname);
        proof {
            reveal_strlit("");
        }
        let relative = match &self.relative_file_dirname {
            Some(r) => r.as_str(),
            None => "",
        };
        assert(relative@ == match self.view().relative_file_dirname {
            Some(r) => r,
            None => Seq::<char>::empty(),
        });
        let r = replace_str(d.as_str(), "${relativeFileDirname}", relative);
        assert(a@ == replace_all(value@, "${home}"@, path_variable_text(self.view().home)));
        r
    }
}

fn replace_path_variable(input: &str, variable: &str, value: &Option<String>) -> (r: String)
    requires
        variable@.len() > 0,
    ensures
        r@ == replace_all(input@, variable@, path_variable_text(opt_string_view(*value))),
{
    let replacement = match value {
        Some(v) => string_from_chars(trim_end_vec(&to_chars(v.as_str()), '/').as_slice()),
        None => String::new(),
    };
    replace_str(input, variable, replacement.as_str())
}

/// Executable form of [`resolve_target`].
fn resolve_mapping_target(value: &str, variables: &PathVariables) -> (r: Option<String>)
    ensures
        opt_string_view(r) == resolve_target(value@, variables.view()),
{
    let expanded = variables.expand(value);
    if let Some(home) = expand_home(expanded.as_str(), variables.home.as_ref()) {
        return Some(home);
    }
    let ec = to_chars(expanded.as_str());
    if ec.len() > 0 && ec[0] == '/' {
        return Some(expanded);
    }
    if let Some(root) = &variables.workspace_root {
        return Some(join_path(root.as_str(), expanded.as_str()));
    }
    match &variables.file_dirname {
        Some(dir) => Some(join_path(dir.as_str(), expanded.as_str())),
        None => None,
    }
}

/// A directory to list and how its entries complete the token.
#[derive(Clone, Debug)]
pub struct ResolvedBase {
    pub target_dir: String,
    /// The directory the synthetic `..` entry may not climb above.
    pub boundary_root: Option<String>,
    /// The part of the token an entry name must match.
    pub prefix: String,
    /// Text inserted before the entry name.
    pub insert_prefix: String,
}

pub struct BaseView {
    pub target_dir: Seq<char>,
    pub boundary_root: Option<Seq<char>>,
    pub prefix: Seq<char>,
    pub insert_prefix: Seq<char>,
}

impl View for ResolvedBase {
    type V = BaseView;

    open spec fn view(&self) -> BaseView {
        BaseView {
            target_dir: self.target_dir@,
            boundary_root: opt_string_view(self.boundary_root),
            prefix: self.prefix@,
            insert_prefix: self.insert_prefix@,
        }
    }
}

pub open spec fn bases_view(v: Seq<ResolvedBase>) -> Seq<BaseView> {
    v.map_values(|b: ResolvedBase| b@)
}

/// The directory part of a fragment (through its last slash) and the name part after it.
pub open spec fn split_fragment(fragment: Seq<char>) -> (Seq<char>, Seq<char>) {
    match last_index_of(fragment, '/') {
        Some(i) => (fragment.take(i + 1), fragment.skip(i + 1)),
        None => (Seq::empty(), fragment),
    }
}

/// `root` with the directory part of a fragment appended.
pub open spec fn fragment_dir(root: Seq<char>, dir: Seq<char>) -> Seq<char> {
    let trimmed = trim_end(dir, '/');
    if trimmed.len() == 0 {
        root
    } else {
        path_join(root, trimmed)
    }
}

/// The base for a fragment below `root`.
pub open spec fn virtual_base(
    fragment: Seq<char>,
    root: Seq<char>,
    boundary_root: Option<Seq<char>>,
    insert_prefix: Seq<char>,
) -> BaseView {
    let parts = split_fragment(fragment);
    BaseView { target_dir: fragment_dir(root, parts.0), boundary_root, prefix: parts.1, insert_prefix }
}

fn split_relative_fragment(fragment: &Vec<char>) -> (r: (Vec<char>, Vec<char>))
    ensures
        r.0@ == split_fragment(fragment@).0,
        r.1@ == split_fragment(fragment@).1,
{
    proof {
        lemma_last_index_of(fragment@, '/');
    }
    match vec_last_index_of(fragment, '/') {
        Some(i) => {
            assert(i < fragment.len());
            let dir = subvec(fragment, 0, i + 1);
            let name = subvec(fragment, i + 1, fragment.len());
            assert(name@ =~= fragment@.skip(i + 1));
            (dir, name)
        },
        None => {
            let name = subvec(fragment, 0, fragment.len());
            assert(name@ =~= fragment@);
            (Vec::new(), name)
        },
    }
}

fn join_fragment_dir(root: &str, dir_fragment: &Vec<char>) -> (r: String)
    ensures
        r@ == fragment_dir(root@, dir_fragment@),
{
    let trimmed = trim_end_vec(dir_fragment, '/');
    if trimmed.len() == 0 {
        root.to_string()
    } else {
        join_path(root, string_from_chars(trimmed.as_slice()).as_str())
    }
}

fn resolve_virtual_root(fragment: &Vec<char>, root: &str, boundary_root: Option<String>, insert_prefix: String) -> (r: ResolvedBase)
    ensures
        r@ == virtual_base(fragment@, root@, opt_string_view(boundary_root), insert_prefix@),
{
    let (dir, prefix) = split_relative_fragment(fragment);
    ResolvedBase {
        target_dir: join_fragment_dir(root, &dir),
        boundary_root,
        prefix: string_from_chars(prefix.as_slice()),
        insert_prefix,
    }
}

/// The parent directory offered as `..`: none at the filesystem root, at the
/// boundary root, or when the parent would leave the boundary.
pub open spec fn parent_candidate(base: BaseView) -> Option<Seq<char>> {
    match path_parent(base.target_dir) {
        None => None,
        Some(parent) => match base.boundary_root {
            None => Some(parent),
            Some(boundary) => if path_eq(base.target_dir, boundary) || !path_starts_with(parent, boundary) {
                None
            } else {
                Some(parent)
            },
        },
    }
}

/// Executable form of [`parent_candidate`].
pub fn parent_candidate_dir(base: &ResolvedBase) -> (r: Option<String>)
    ensures
        opt_string_view(r) == parent_candidate(base@),
        r matches Some(p) ==> base@.boundary_root matches Some(b) ==> path_starts_with(p@, b)
            && !path_eq(base@.target_dir, b),
{
    let parent = match parent_of(base.target_dir.as_str()) {
        Some(parent) => parent,
        None => return None,
    };
    let boundary = match &base.boundary_root {
        Some(boundary) => boundary,
        None => return Some(parent),
    };
    if paths_equal(base.target_dir.as_str(), boundary.as_str()) || !path_has_prefix(parent.as_str(), boundary.as_str()) {
        return None;
    }
    Some(parent)
}

/// The path the ignored-files globs are matched against: the document's path
/// relative to its workspace root, else the whole path with forward slashes.
pub open spec fn ignore_candidate(roots: RootsView, doc: Seq<char>) -> Seq<char> {
    match relative_path(roots, doc) {
        Some(rel) => rel,
        None => forward_slashes(doc),
    }
}

pub open spec fn is_ignored(doc: Option<Seq<char>>, roots: RootsView, settings: CompiledSettings) -> bool {
    match (settings.ignored_patterns(), doc) {
        (Some(patterns), Some(d)) => any_glob_matches(patterns, ignore_candidate(roots, d)),
        _ => false,
    }
}

/// The document matches one of the ignored-files patterns.
pub fn document_is_ignored(
    document_path: Option<&String>,
    workspace_roots: &WorkspaceRoots,
    settings: &CompiledSettings,
) -> (r: bool)
    ensures
        r == is_ignored(doc_view(document_path), workspace_roots@, *settings),
{
    let matcher = match settings.ignored_files_matcher() {
        Some(matcher) => matcher,
        None => return false,
    };
    let document_path = match document_path {
        Some(d) => d,
        None => return false,
    };
    let candidate = match workspace_roots.relative_document_path(document_path) {
        Some(rel) => rel,
        None => path_to_forward_slashes(document_path.as_str()),
    };
    matcher.is_match(candidate.as_str())
}

/// How a token relates to a mapping key: `Some(None)` when it is the key,
/// `Some(Some(rest))` when it names `rest` below the key, `None` otherwise.
pub open spec fn mapping_match_spec(key: Seq<char>, token: Seq<char>) -> Option<Option<Seq<char>>> {
    if token == key {
        Some(None)
    } else if starts_with(token, key) {
        let rest = token.skip(key.len() as int);
        if key == seq!['/'] {
            Some(Some(rest))
        } else if starts_with(rest, seq!['/']) {
            Some(Some(rest.skip(1)))
        } else {
            None
        }
    } else {
        None
    }
}

/// What completing the bare key inserts before an entry: the key and a slash.
pub open spec fn exact_insert_prefix(key: Seq<char>) -> Seq<char> {
    if key == seq!['/'] {
        seq!['/']
    } else {
        key + seq!['/']
    }
}

/// The target directories of the values that resolve, in order.
pub open spec fn resolved_targets(values: Seq<Seq<char>>, vars: VariablesView) -> Seq<Seq<char>>
    decreases values.len(),
{
    if values.len() == 0 {
        Seq::empty()
    } else {
        let rest = resolved_targets(values.drop_last(), vars);
        match resolve_target(values.last(), vars) {
            Some(t) => rest.push(t),
            None => rest,
        }
    }
}

pub open spec fn entry_targets(e: CompiledMappingEntry, vars: VariablesView) -> Seq<Seq<char>> {
    resolved_targets(e.expansion(vars.relative_document_path), vars)
}

/// The entry's key matches the token and the entry resolves to some directory.
pub open spec fn entry_applies(e: CompiledMappingEntry, token: Seq<char>, vars: VariablesView) -> bool {
    mapping_match_spec(e.key(), token) is Some && entry_targets(e, vars).len() > 0
}

pub open spec fn is_first_applicable(entries: Seq<CompiledMappingEntry>, token: Seq<char>, vars: VariablesView, k: int) -> bool {
    &&& 0 <= k < entries.len()
    &&& entry_applies(entries[k], token, vars)
    &&& forall|j: int| 0 <= j < k ==> !entry_applies(#[trigger] entries[j], token, vars)
}

pub open spec fn first_applicable(entries: Seq<CompiledMappingEntry>, token: Seq<char>, vars: VariablesView) -> Option<int> {
    if exists|k: int| is_first_applicable(entries, token, vars, k) {
        Some(choose|k: int| is_first_applicable(entries, token, vars, k))
    } else {
        None
    }
}

/// One base per target: the target itself for the bare key, else the rest of the
/// token below the target.
pub open spec fn entry_bases(kind: Option<Seq<char>>, key: Seq<char>, targets: Seq<Seq<char>>) -> Seq<BaseView> {
    targets.map_values(
        |t: Seq<char>|
            match kind {
                None => BaseView {
                    target_dir: t,
                    boundary_root: Some(t),
                    prefix: Seq::empty(),
                    insert_prefix: exact_insert_prefix(key),
                },
                Some(rest) => virtual_base(rest, t, Some(t), Seq::empty()),
            },
    )
}

/// The bases of the first entry (in entry order) whose key matches the token and that
/// resolves to some directory.
pub open spec fn mapping_bases(entries: Seq<CompiledMappingEntry>, token: Seq<char>, vars: VariablesView) -> Seq<BaseView> {
    match first_applicable(entries, token, vars) {
        Some(k) => entry_bases(
            mapping_match_spec(entries[k].key(), token)->0,
            entries[k].key(),
            entry_targets(entries[k], vars),
        ),
        None => Seq::empty(),
    }
}

pub open spec fn has_explicit_root(token: Seq<char>) -> bool {
    token.len() > 0 && (token[0] == '~' || token[0] == '.' || token[0] == '/')
}

/// A plain token (no `~`, `.` or `/` in front, not a mapping key or the beginning of
/// one) is resolved from the workspace root.
pub open spec fn workspace_rooted(token: Seq<char>, keys: Seq<Seq<char>>) -> bool {
    &&& token.len() > 0
    &&& !has_explicit_root(token)
    &&& !exists|k: int| 0 <= k < keys.len() && (keys[k] == token || key_extends_token(#[trigger] keys[k], token))
}

/// The bases of a token no mapping resolves.
pub open spec fn non_mapping_bases(
    ctx: ContextView,
    roots: RootsView,
    settings: CompiledSettings,
    home: Option<Seq<char>>,
) -> Seq<BaseView> {
    let t = ctx.raw_token;
    if t == seq!['~'] {
        match expand_home_path(seq!['~'], home) {
            Some(h) => seq![
                BaseView { target_dir: h, boundary_root: Some(h), prefix: Seq::empty(), insert_prefix: seq!['~', '/'] },
            ],
            None => Seq::empty(),
        }
    } else if starts_with(t, seq!['~', '/']) {
        match expand_home_path(seq!['~'], home) {
            Some(h) => seq![virtual_base(t.skip(2), h, Some(h), ctx.insert_prefix)],
            None => Seq::empty(),
        }
    } else if starts_with(t, seq!['/']) {
        match settings.raw_settings().slash_root {
            SlashRoot::Workspace => match root_for_document(roots, ctx.document_path) {
                Some(root) => seq![virtual_base(t.skip(1), root, Some(root), ctx.insert_prefix)],
                None => Seq::empty(),
            },
            SlashRoot::Filesystem => seq![virtual_base(t.skip(1), seq!['/'], Some(seq!['/']), ctx.insert_prefix)],
        }
    } else if workspace_rooted(t, settings.mapping_keys()) {
        match root_for_document(roots, ctx.document_path) {
            Some(root) => seq![virtual_base(t, root, Some(root), ctx.insert_prefix)],
            None => Seq::empty(),
        }
    } else {
        match opt_parent(ctx.document_path) {
            Some(dir) => {
                let parts = split_fragment(t);
                seq![
                    BaseView {
                        target_dir: fragment_dir(dir, parts.0),
                        boundary_root: None,
                        prefix: parts.1,
                        insert_prefix: ctx.insert_prefix,
                    },
                ]
            },
            None => Seq::empty(),
        }
    }
}

/// The directories that complete the context: none for an ignored document; the
/// bases of the first applicable mapping; else those of the token's own root.
pub open spec fn resolved_bases(
    ctx: ContextView,
    roots: RootsView,
    settings: CompiledSettings,
    home: Option<Seq<char>>,
) -> Seq<BaseView> {
    if is_ignored(ctx.document_path, roots, settings) {
        Seq::empty()
    } else {
        let m = mapping_bases(settings.entries(), ctx.raw_token, path_variables(ctx.document_path, roots, home));
        if m.len() > 0 {
            m
        } else {
            non_mapping_bases(ctx, roots, settings, home)
        }
    }
}

fn mapping_match(key: &Vec<char>, token: &Vec<char>) -> (r: Option<Option<Vec<char>>>)
    ensures
        match (r, mapping_match_spec(key@, token@)) {
            (None, None) => true,
            (Some(None), Some(None)) => true,
            (Some(Some(rest)), Some(Some(rest_spec))) => rest@ == rest_spec,
            _ => false,
        },
{
    if vec_eq(token, key) {
        return Some(None);
    }
    if !crate::strs::vec_starts_with(token, key) {
        return None;
    }
    let rest = subvec(token, key.len(), token.len());
    assert(rest@ =~= token@.skip(key@.len() as int));
    if key.len() == 1 && key[0] == '/' {
        assert(key@ =~= seq!['/']);
        return Some(Some(rest));
    }
    assert(key@ != seq!['/']);
    if rest.len() > 0 && rest[0] == '/' {
        assert(rest@.take(1) =~= seq!['/']);
        let nested = subvec(&rest, 1, rest.len());
        assert(nested@ =~= rest@.skip(1));
        Some(Some(nested))
    } else {
        proof {
            if starts_with(rest@, seq!['/']) {
                assert(rest@.take(1)[0] == '/');
            }
        }
        None
    }
}

fn exact_mapping_insert_prefix(key: &Vec<char>) -> (r: String)
    ensures
        r@ == exact_insert_prefix(key@),
{
    if key.len() == 1 && key[0] == '/' {
        assert(key@ =~= seq!['/']);
        return string_from_chars(key.as_slice());
    }
    let mut out = key.clone();
    out.push('/');
    assert(out@ =~= key@ + seq!['/']);
    string_from_chars(out.as_slice())
}

fn expand_mapping_targets(mapping: &CompiledMappingEntry, variables: &PathVariables) -> (r: Vec<String>)
    ensures
        strings_view(r@) == entry_targets(*mapping, variables.view()),
{
    let ghost vars = variables.view();
    let relative: Option<&str> = match &variables.relative_document_path {
        Some(p) => Some(p.as_str()),
        None => None,
    };
    assert(opt_str_view(relative) == vars.relative_document_path);
    let values = mapping.expand_targets(relative);
    let ghost vs = strs_view(values@);
    let mut out: Vec<String> = Vec::new();
    let mut i: usize = 0;
    while i < values.len()
        invariant
            vars == variables.view(),
            vs == strs_view(values@),
            i <= values@.len(),
            strings_view(out@) == resolved_targets(vs.take(i as int), vars),
        decreases values@.len() - i,
    {
        proof {
            assert(vs.take(i as int + 1).drop_last() =~= vs.take(i as int));
            assert(vs.take(i as int + 1).last() == values@[i as int]@);
        }
        match resolve_mapping_target(values[i], variables) {
            Some(target) => {
                out.push(target);
                assert(strings_view(out@) =~= resolved_targets(vs.take(i as int), vars).push(
                    strings_view(out@).last(),
                ));
            },
            None => {},
        }
        i = i + 1;
    }
    assert(vs.take(vs.len() as int) =~= vs);
    out
}

proof fn lemma_first_applicable(entries: Seq<CompiledMappingEntry>, token: Seq<char>, vars: VariablesView, k: int)
    requires
        is_first_applicable(entries, token, vars, k),
    ensures
        first_applicable(entries, token, vars) == Some(k),
{
    let j = choose|j: int| is_first_applicable(entries, token, vars, j);
    if j < k {
        assert(!entry_applies(entries[j], token, vars));
    }
    if k < j {
        assert(!entry_applies(entries[k], token, vars));
    }
}

fn bases_for_targets(kind: &Option<Vec<char>>, key: &Vec<char>, targets: &Vec<String>) -> (r: Vec<ResolvedBase>)
    ensures
        bases_view(r@) == entry_bases(
            match kind {
                Some(rest) => Some(rest@),
                None => None,
            },
            key@,
            strings_view(targets@),
        ),
{
    let ghost kind_view = match kind {
        Some(rest) => Some(rest@),
        None => None::<Seq<char>>,
    };
    let ghost expected = entry_bases(kind_view, key@, strings_view(targets@));
    let mut out: Vec<ResolvedBase> = Vec::new();
    let mut i: usize = 0;
    while i < targets.len()
        invariant
            kind_view == match kind {
                Some(rest) => Some(rest@),
                None => None::<Seq<char>>,
            },
            expected == entry_bases(kind_view, key@, strings_view(targets@)),
            i <= targets@.len(),
            out@.len() == i,
            forall|j: int| 0 <= j < i ==> (#[trigger] out@[j])@ == expected[j],
        decreases targets@.len() - i,
    {
        let target = &targets[i];
        let base = match kind {
            None => ResolvedBase {
                target_dir: target.clone(),
                boundary_root: Some(target.clone()),
                prefix: String::new(),
                insert_prefix: exact_mapping_insert_prefix(key),
            },
            Some(rest) => resolve_virtual_root(rest, target.as_str(), Some(target.clone()), String::new()),
        };
        out.push(base);
        i = i + 1;
    }
    assert(bases_view(out@) =~= expected);
    out
}

fn resolve_from_mappings(
    context: &CompletionContext,
    workspace_roots: &WorkspaceRoots,
    settings: &CompiledSettings,
    home: Option<&String>,
) -> (r: Vec<ResolvedBase>)
    ensures
        bases_view(r@) == mapping_bases(
            settings.entries(),
            context@.raw_token,
            path_variables(context@.document_path, workspace_roots@, doc_view(home)),
        ),
{
    let token = to_chars(context.raw_token.as_str());
    let doc = context.document_path.as_ref();
    assert(doc_view(doc) == context@.document_path);
    let variables = PathVariables::new(doc, workspace_roots, home);
    let ghost vars = variables.view();
    let entries = settings.mapping_entries();
    let mut k: usize = 0;
    while k < entries.len()
        invariant
            entries@ == settings.entries(),
            vars == variables.view(),
            vars == path_variables(context@.document_path, workspace_roots@, doc_view(home)),
            token@ == context@.raw_token,
            k <= entries@.len(),
            forall|j: int| 0 <= j < k ==> !entry_applies(#[trigger] entries@[j], token@, vars),
        decreases entries@.len() - k,
    {
        let entry = &entries[k];
        let key = to_chars(entry.normalized_key());
        match mapping_match(&key, &token) {
            None => {},
            Some(kind) => {
                let targets = expand_mapping_targets(entry, &variables);
                if targets.len() > 0 {
                    proof {
                        assert(is_first_applicable(entries@, token@, vars, k as int));
                        lemma_first_applicable(entries@, token@, vars, k as int);
                    }
                    return bases_for_targets(&kind, &key, &targets);
                }
            },
        }
        k = k + 1;
    }
    assert(first_applicable(entries@, token@, vars) is None);
    Vec::new()
}

fn should_resolve_from_workspace_root(token: &Vec<char>, keys: &[String]) -> (r: bool)
    ensures
        r == workspace_rooted(token@, strings_view(keys@)),
{
    if token.len() == 0 || token[0] == '~' || token[0] == '.' || token[0] == '/' {
        return false;
    }
    let ghost ks = strings_view(keys@);
    let mut i: usize = 0;
    while i < keys.len()
        invariant
            ks == strings_view(keys@),
            i <= keys@.len(),
            forall|k: int| 0 <= k < i ==> !(ks[k] == token@ || key_extends_token(#[trigger] ks[k], token@)),
        decreases keys@.len() - i,
    {
        let key = to_chars(keys[i].as_str());
        assert(ks[i as int] == key@);
        if vec_eq(&key, token) || mapping_key_supports_prefix_completion(&key, token) {
            return false;
        }
        i = i + 1;
    }
    true
}

fn single(base: ResolvedBase) -> (r: Vec<ResolvedBase>)
    ensures
        bases_view(r@) == seq![base@],
{
    let mut out: Vec<ResolvedBase> = Vec::new();
    out.push(base);
    assert(bases_view(out@) =~= seq![base@]);
    out
}

fn resolve_non_mapping_bases(
    context: &CompletionContext,
    workspace_roots: &WorkspaceRoots,
    settings: &CompiledSettings,
    home: Option<&String>,
) -> (r: Vec<ResolvedBase>)
    ensures
        bases_view(r@) == non_mapping_bases(context@, workspace_roots@, *settings, doc_view(home)),
{
    let t = to_chars(context.raw_token.as_str());
    let ghost tv = t@;
    let doc = context.document_path.as_ref();
    assert(doc_view(doc) == context@.document_path);
    proof {
        reveal_strlit("~");
    }
    if t.len() == 1 && t[0] == '~' {
        assert(tv =~= seq!['~']);
        return match expand_home("~", home) {
            Some(h) => {
                let mut insert: Vec<char> = Vec::new();
                insert.push('~');
                insert.push('/');
                assert(insert@ =~= seq!['~', '/']);
                assert("~"@ =~= seq!['~']);
                single(
                    ResolvedBase {
                        target_dir: h.clone(),
                        boundary_root: Some(h),
                        prefix: String::new(),
                        insert_prefix: string_from_chars(insert.as_slice()),
                    },
                )
            },
            None => {
                assert("~"@ =~= seq!['~']);
                Vec::new()
            },
        };
    }
    assert(tv != seq!['~']);
    if t.len() >= 2 && t[0] == '~' && t[1] == '/' {
        assert(tv.take(2) =~= seq!['~', '/']);
        assert("~"@ =~= seq!['~']);
        return match expand_home("~", home) {
            Some(h) => {
                let fragment = subvec(&t, 2, t.len());
                assert(fragment@ =~= tv.skip(2));
                single(resolve_virtual_root(&fragment, h.as_str(), Some(h.clone()), context.insert_prefix.clone()))
            },
            None => Vec::new(),
        };
    }
    assert(!starts_with(tv, seq!['~', '/'])) by {
        if starts_with(tv, seq!['~', '/']) {
            assert(tv.take(2)[0] == '~' && tv.take(2)[1] == '/');
        }
    }
    if t.len() >= 1 && t[0] == '/' {
        assert(tv.take(1) =~= seq!['/']);
        let fragment = subvec(&t, 1, t.len());
        assert(fragment@ =~= tv.skip(1));
        return match settings.slash_root() {
            SlashRoot::Workspace => match workspace_roots.workspace_root_for_document(doc) {
                Some(root) => single(resolve_virtual_root(&fragment, root.as_str(), Some(root.clone()), context.insert_prefix.clone())),
                None => Vec::new(),
            },
            SlashRoot::Filesystem => {
                let root = "/".to_string();
                proof {
                    reveal_strlit("/");
                }
                assert(root@ =~= seq!['/']);
                single(resolve_virtual_root(&fragment, root.as_str(), Some(root.clone()), context.insert_prefix.clone()))
            },
        };
    }
    assert(!starts_with(tv, seq!['/'])) by {
        if starts_with(tv, seq!['/']) {
            assert(tv.take(1)[0] == '/');
        }
    }
    if should_resolve_from_workspace_root(&t, settings.normalized_path_mapping_keys()) {
        return match workspace_roots.workspace_root_for_document(doc) {
            Some(root) => single(resolve_virtual_root(&t, root.as_str(), Some(root.clone()), context.insert_prefix.clone())),
            None => Vec::new(),
        };
    }
    let document_dir = match &context.document_path {
        Some(d) => parent_of(d.as_str()),
        None => None,
    };
    match document_dir {
        Some(dir) => {
            let (dir_fragment, prefix) = split_relative_fragment(&t);
            single(
                ResolvedBase {
                    target_dir: join_fragment_dir(dir.as_str(), &dir_fragment),
                    boundary_root: None,
                    prefix: string_from_chars(prefix.as_slice()),
                    insert_prefix: context.insert_prefix.clone(),
                },
            )
        },
        None => Vec::new(),
    }
}

/// The directories whose entries complete the context (see [`resolved_bases`]);
/// `home` is the user's home directory, when known.
pub fn resolve_bases(
    context: &CompletionContext,
    workspace_roots: &WorkspaceRoots,
    settings: &CompiledSettings,
    home: Option<&String>,
) -> (r: Vec<ResolvedBase>)
    ensures
        bases_view(r@) == resolved_bases(context@, workspace_roots@, *settings, doc_view(home)),
{
    let doc = context.document_path.as_ref();
    assert(doc_view(doc) == context@.document_path);
    if document_is_ignored(doc, workspace_roots, settings) {
        return Vec::new();
    }
    let mapping_bases = resolve_from_mappings(context, workspace_roots, settings, home);
    if mapping_bases.len() > 0 {
        return mapping_bases;
    }
    resolve_non_mapping_bases(context, workspace_roots, settings, home)
}

/// The mapping a token resolves through has the longest key among the mappings that
/// match the token and resolve to some directory (the first in key order among
/// equally long ones).
pub proof fn lemma_longest_mapping_wins(settings: CompiledSettings, token: Seq<char>, vars: VariablesView, j: int)
    requires
        settings.wf(),
        first_applicable(settings.entries(), token, vars) is Some,
        0 <= j < settings.entries().len(),
        entry_applies(settings.entries()[j], token, vars),
    ensures
        ({
            let k = first_applicable(settings.entries(), token, vars)->0;
            &&& utf8_len(settings.entries()[j].key()) <= utf8_len(settings.entries()[k].key())
            &&& utf8_len(settings.entries()[j].key()) == utf8_len(settings.entries()[k].key()) ==> !lex_lt(
                settings.entries()[j].key(),
                settings.entries()[k].key(),
            )
        }),
{
    let entries = settings.entries();
    let k = choose|k: int| is_first_applicable(entries, token, vars, k);
    if j < k {
        assert(!entry_applies(entries[j], token, vars));
    } else if j > k {
        assert(!key_before(entries[j].key(), entries[k].key()));
    } else {
        lemma_lex_irreflexive(entries[j].key());
    }
}

} // verus!

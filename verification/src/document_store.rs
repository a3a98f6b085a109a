//! Open documents: their text, kept in step with the client's edits, and the
//! syntax tree of each document whose language has a grammar.
use crate::chars::{str_byte_len, to_chars, utf8_len};
use crate::strs::vec_eq;
use crate::handlers::LanguageKind;
use crate::syntax::{grammar_loads, language_for_id, SyntaxSnapshot, SyntaxState};
use crate::text::{apply_range_change, range_change, range_is_ordered, position_to_offset, Range};
use vstd::prelude::*;

verus! {

/// One edit the client sent: a range and its new text, or the whole new text.
pub struct ContentChange {
    pub range: Option<Range>,
    pub text: String,
}

/// The text after one change; a range that does not lie in the text changes nothing.
pub open spec fn change_result(text: Seq<char>, change: ContentChange) -> Seq<char> {
    match change.range {
        Some(range) => match range_change(text, range, change.text@) {
            Some((_, changed)) => changed,
            None => text,
        },
        None => change.text@,
    }
}

/// The change can be applied: its range, when both ends lie in the text, does not
/// end before it starts, and the result's length fits in memory.
pub open spec fn change_applicable(text: Seq<char>, change: ContentChange) -> bool {
    match change.range {
        Some(range) => range_is_ordered(text, range) && utf8_len(text) + utf8_len(change.text@) <= usize::MAX,
        None => true,
    }
}

/// The text after the changes, in order.
pub open spec fn changes_result(text: Seq<char>, changes: Seq<ContentChange>) -> Seq<char>
    decreases changes.len(),
{
    if changes.len() == 0 {
        text
    } else {
        changes_result(change_result(text, changes[0]), changes.drop_first())
    }
}

pub open spec fn changes_applicable(text: Seq<char>, changes: Seq<ContentChange>) -> bool
    decreases changes.len(),
{
    changes.len() == 0 || (change_applicable(text, changes[0]) && changes_applicable(
        change_result(text, changes[0]),
        changes.drop_first(),
    ))
}

/// Executable form of [`changes_applicable`]: whether [`DocumentStore::apply_changes`]
/// may be given these changes for a document with this text.
pub fn changes_apply_cleanly(text: &str, changes: &[ContentChange]) -> (r: bool)
    ensures
        r == changes_applicable(text@, changes@),
{
    let mut current = text.to_string();
    let mut i: usize = 0;
    assert(changes@.skip(0) =~= changes@);
    while i < changes.len()
        invariant
            i <= changes@.len(),
            changes_applicable(text@, changes@) == changes_applicable(current@, changes@.skip(i as int)),
        decreases changes@.len() - i,
    {
        let change = &changes[i];
        proof {
            assert(changes@.skip(i as int)[0] == *change);
            assert(changes@.skip(i as int).drop_first() =~= changes@.skip(i as int + 1));
        }
        match change.range {
            Some(range) => {
                let total = str_byte_len(current.as_str());
                let extra = str_byte_len(change.text.as_str());
                let start = position_to_offset(current.as_str(), range.start);
                let end = position_to_offset(current.as_str(), range.end);
                let ordered = match (start, end) {
                    (Some(s), Some(e)) => s <= e,
                    _ => true,
                };
                proof {
                    crate::text::lemma_position_offset_bound(current@, range.start);
                    crate::text::lemma_position_offset_bound(current@, range.end);
                    match (crate::text::position_offset(current@, range.start), crate::text::position_offset(current@, range.end)) {
                        (Some(s), Some(e)) => {
                            assert(start == Some(s as usize));
                            assert(end == Some(e as usize));
                        },
                        (None, _) => {
                            assert(start is None);
                        },
                        (_, None) => {
                            assert(end is None);
                        },
                    }
                }
                assert(ordered == range_is_ordered(current@, range));
                if !ordered || total > usize::MAX - extra {
                    return false;
                }
                apply_range_change(&mut current, range, change.text.as_str());
            },
            None => {
                current = change.text.clone();
            },
        }
        i = i + 1;
    }
    true
}

struct Document {
    text: String,
    version: Option<i32>,
    language_id: String,
    path: Option<String>,
    syntax: Option<SyntaxState>,
}

/// What a document holds: its text, version, language id and path, and the language
/// and source text of its syntax tree when it has one.
pub struct DocumentView {
    pub text: Seq<char>,
    pub version: Option<i32>,
    pub language_id: Seq<char>,
    pub path: Option<Seq<char>>,
    pub syntax: Option<(LanguageKind, Seq<char>)>,
}

/// The language an editor language id names has a grammar that tree-sitter loads.
pub open spec fn language_loads(language_id: Seq<char>) -> bool {
    language_for_id(language_id) matches Some(k) && grammar_loads(k)
}

/// A document has a syntax tree exactly when its language's grammar loads, and the
/// tree is in that language and parsed from the document's current text.
pub open spec fn syntax_ok(v: DocumentView) -> bool {
    &&& v.syntax is Some <==> language_loads(v.language_id)
    &&& v.syntax matches Some((k, source)) ==> language_for_id(v.language_id) == Some(k) && source == v.text
}

impl Document {
    spec fn view(&self) -> DocumentView {
        DocumentView {
            text: self.text@,
            version: self.version,
            language_id: self.language_id@,
            path: crate::context::opt_string_view(self.path),
            syntax: match self.syntax {
                Some(s) => Some((s.kind(), s.source())),
                None => None,
            },
        }
    }

    /// A syntax tree is in the document's language.
    spec fn kind_ok(&self) -> bool {
        self.syntax matches Some(s) ==> language_for_id(self.language_id@) == Some(s.kind())
    }

    /// There is a syntax tree exactly when the language's grammar loads.
    spec fn present_ok(&self) -> bool {
        self.syntax is Some <==> language_loads(self.language_id@)
    }

    /// A syntax tree is present exactly when the grammar loads, is in the document's
    /// language, and was parsed from its text.
    spec fn wf(&self) -> bool {
        &&& self.kind_ok()
        &&& self.present_ok()
        &&& self.syntax matches Some(s) ==> s.source() == self.text@
    }

    /// Parses the text again, the current tree's parser first and a new one when that
    /// gives no tree; afterwards any tree is of the current text, and there is none for
    /// a language without a grammar.
    fn reparse_syntax_full(&mut self)
        requires
            old(self).kind_ok(),
            old(self).present_ok(),
        ensures
            final(self).wf(),
            language_for_id(old(self).language_id@) is None ==> final(self).syntax is None,
            final(self).text == old(self).text,
            final(self).version == old(self).version,
            final(self).language_id == old(self).language_id,
            final(self).path == old(self).path,
    {
        let current = self.syntax.take();
        let text = self.text.as_str();
        let next = match current {
            Some(mut syntax) => {
                if syntax.reparse_full(text) {
                    Some(syntax)
                } else {
                    SyntaxState::new(self.language_id.as_str(), text)
                }
            },
            None => SyntaxState::new(self.language_id.as_str(), text),
        };
        self.syntax = next;
    }

    fn apply_change(&mut self, change: ContentChange)
        requires
            old(self).wf(),
            change_applicable(old(self).text@, change),
        ensures
            final(self).wf(),
            final(self).text@ == change_result(old(self).text@, change),
            final(self).version == old(self).version,
            final(self).language_id == old(self).language_id,
            final(self).path == old(self).path,
    {
        match change.range {
            Some(range) => {
                match apply_range_change(&mut self.text, range, change.text.as_str()) {
                    None => self.reparse_syntax_full(),
                    Some(edit) => {
                        let current = self.syntax.take();
                        let next = match current {
                            Some(mut syntax) => {
                                if syntax.apply_edit(self.text.as_str(), &edit) {
                                    Some(syntax)
                                } else {
                                    SyntaxState::new(self.language_id.as_str(), self.text.as_str())
                                }
                            },
                            None => None,
                        };
                        self.syntax = next;
                    },
                }
            },
            None => {
                self.text = change.text;
                self.reparse_syntax_full();
            },
        }
    }

    fn snapshot(&self) -> (r: DocumentSnapshot)
        ensures
            r.view() == self.view(),
    {
        DocumentSnapshot {
            text: self.text.clone(),
            version: self.version,
            language_id: self.language_id.clone(),
            path: match &self.path {
                Some(p) => Some(p.clone()),
                None => None,
            },
            syntax: match &self.syntax {
                Some(s) => Some(s.snapshot()),
                None => None,
            },
        }
    }
}

/// A copy of a document's state.
pub struct DocumentSnapshot {
    pub text: String,
    pub version: Option<i32>,
    pub language_id: String,
    pub path: Option<String>,
    pub syntax: Option<SyntaxSnapshot>,
}

impl DocumentSnapshot {
    pub open spec fn view(&self) -> DocumentView {
        DocumentView {
            text: self.text@,
            version: self.version,
            language_id: self.language_id@,
            path: crate::context::opt_string_view(self.path),
            syntax: match self.syntax {
                Some(s) => Some((s.kind(), s.source())),
                None => None,
            },
        }
    }
}

/// The open documents, by URI.
pub struct DocumentStore {
    documents: Vec<(String, Document)>,
}

spec fn find_uri(docs: Seq<(String, Document)>, uri: Seq<char>) -> Option<int> {
    if exists|i: int| 0 <= i < docs.len() && (#[trigger] docs[i]).0@ == uri {
        Some(choose|i: int| 0 <= i < docs.len() && (#[trigger] docs[i]).0@ == uri)
    } else {
        None
    }
}

spec fn unique_uris(docs: Seq<(String, Document)>) -> bool {
    forall|a: int, b: int| 0 <= a < b < docs.len() ==> (#[trigger] docs[a]).0@ != (#[trigger] docs[b]).0@
}

spec fn lookup(docs: Seq<(String, Document)>, uri: Seq<char>) -> Option<DocumentView> {
    match find_uri(docs, uri) {
        Some(i) => Some(docs[i].1.view()),
        None => None,
    }
}

proof fn lemma_find(docs: Seq<(String, Document)>, i: int)
    requires
        unique_uris(docs),
        0 <= i < docs.len(),
    ensures
        find_uri(docs, docs[i].0@) == Some(i),
{
    let k = choose|k: int| 0 <= k < docs.len() && (#[trigger] docs[k]).0@ == docs[i].0@;
    if k < i {
        assert(docs[k].0@ != docs[i].0@);
    } else if k > i {
        assert(docs[i].0@ != docs[k].0@);
    }
}

/// Replacing the entry of a URI changes only what that URI finds.
proof fn lemma_update(docs: Seq<(String, Document)>, i: int, x: (String, Document))
    requires
        unique_uris(docs),
        0 <= i < docs.len(),
        x.0@ == docs[i].0@,
    ensures
        unique_uris(docs.update(i, x)),
        lookup(docs.update(i, x), x.0@) == Some(x.1.view()),
        forall|u: Seq<char>| u != x.0@ ==> lookup(docs.update(i, x), u) == lookup(docs, u),
{
    let nd = docs.update(i, x);
    assert forall|a: int, b: int| 0 <= a < b < nd.len() implies (#[trigger] nd[a]).0@ != (#[trigger] nd[b]).0@ by {
        assert(docs[a].0@ != docs[b].0@);
    }
    lemma_find(nd, i);
    assert forall|u: Seq<char>| u != x.0@ implies lookup(nd, u) == lookup(docs, u) by {
        match find_uri(docs, u) {
            Some(k) => {
                assert(nd[k] == docs[k]);
                lemma_find(nd, k);
            },
            None => {
                match find_uri(nd, u) {
                    Some(k) => {
                        assert(docs[k].0@ == u);
                    },
                    None => {},
                }
            },
        }
    }
}

/// Adding the entry of a new URI changes only what that URI finds.
proof fn lemma_push(docs: Seq<(String, Document)>, x: (String, Document))
    requires
        unique_uris(docs),
        find_uri(docs, x.0@) is None,
    ensures
        unique_uris(docs.push(x)),
        lookup(docs.push(x), x.0@) == Some(x.1.view()),
        forall|u: Seq<char>| u != x.0@ ==> lookup(docs.push(x), u) == lookup(docs, u),
{
    let nd = docs.push(x);
    assert forall|a: int, b: int| 0 <= a < b < nd.len() implies (#[trigger] nd[a]).0@ != (#[trigger] nd[b]).0@ by {
        if b == docs.len() {
            assert(docs[a].0@ != x.0@);
        } else {
            assert(docs[a].0@ != docs[b].0@);
        }
    }
    lemma_find(nd, docs.len() as int);
    assert forall|u: Seq<char>| u != x.0@ implies lookup(nd, u) == lookup(docs, u) by {
        match find_uri(docs, u) {
            Some(k) => {
                assert(nd[k] == docs[k]);
                lemma_find(nd, k);
            },
            None => {
                match find_uri(nd, u) {
                    Some(k) => {
                        assert(k != docs.len());
                        assert(docs[k].0@ == u);
                    },
                    None => {},
                }
            },
        }
    }
}

/// Removing the entry of a URI changes only what that URI finds, which is nothing.
proof fn lemma_remove(docs: Seq<(String, Document)>, i: int)
    requires
        unique_uris(docs),
        0 <= i < docs.len(),
    ensures
        unique_uris(docs.remove(i)),
        lookup(docs.remove(i), docs[i].0@) is None,
        forall|u: Seq<char>| u != docs[i].0@ ==> lookup(docs.remove(i), u) == lookup(docs, u),
{
    let nd = docs.remove(i);
    assert forall|a: int, b: int| 0 <= a < b < nd.len() implies (#[trigger] nd[a]).0@ != (#[trigger] nd[b]).0@ by {
        let aa = if a < i {
            a
        } else {
            a + 1
        };
        let bb = if b < i {
            b
        } else {
            b + 1
        };
        assert(nd[a] == docs[aa] && nd[b] == docs[bb]);
        assert(docs[aa].0@ != docs[bb].0@);
    }
    match find_uri(nd, docs[i].0@) {
        Some(k) => {
            let kk = if k < i {
                k
            } else {
                k + 1
            };
            assert(nd[k] == docs[kk]);
            if kk < i {
                assert(docs[kk].0@ != docs[i].0@);
            } else {
                assert(docs[i].0@ != docs[kk].0@);
            }
        },
        None => {},
    }
    assert forall|u: Seq<char>| u != docs[i].0@ implies lookup(nd, u) == lookup(docs, u) by {
        match find_uri(docs, u) {
            Some(k) => {
                assert(k != i);
                let kk = if k < i {
                    k
                } else {
                    k - 1
                };
                assert(nd[kk] == docs[k]);
                lemma_find(nd, kk);
            },
            None => {
                match find_uri(nd, u) {
                    Some(k) => {
                        let kk = if k < i {
                            k
                        } else {
                            k + 1
                        };
                        assert(nd[k] == docs[kk]);
                    },
                    None => {},
                }
            },
        }
    }
}

impl DocumentStore {
    /// Each URI occurs once, and every document is well formed.
    pub closed spec fn wf(&self) -> bool {
        &&& unique_uris(self.documents@)
        &&& forall|i: int| 0 <= i < self.documents@.len() ==> (#[trigger] self.documents@[i]).1.wf()
    }

    /// The document open under `uri`, if any.
    pub closed spec fn document(&self, uri: Seq<char>) -> Option<DocumentView> {
        lookup(self.documents@, uri)
    }

    pub fn new() -> (r: DocumentStore)
        ensures
            r.wf(),
            forall|uri: Seq<char>| r.document(uri) is None,
    {
        DocumentStore { documents: Vec::new() }
    }

    fn index_of(&self, uri: &String) -> (r: Option<usize>)
        requires
            self.wf(),
        ensures
            match r {
                Some(i) => i < self.documents@.len() && find_uri(self.documents@, uri@) == Some(i as int)
                    && self.documents@[i as int].0@ == uri@,
                None => find_uri(self.documents@, uri@) is None,
            },
    {
        let key = to_chars(uri.as_str());
        let mut i: usize = 0;
        while i < self.documents.len()
            invariant
                unique_uris(self.documents@),
                i <= self.documents@.len(),
                key@ == uri@,
                forall|j: int| 0 <= j < i ==> (#[trigger] self.documents@[j]).0@ != uri@,
            decreases self.documents@.len() - i,
        {
            if vec_eq(&to_chars(self.documents[i].0.as_str()), &key) {
                proof {
                    lemma_find(self.documents@, i as int);
                }
                return Some(i);
            }
            i = i + 1;
        }
        None
    }

    /// Opens (or reopens) a document, parsing it when its language has a grammar.
    pub fn open(&mut self, uri: String, language_id: String, text: String, version: Option<i32>, path: Option<String>)
        requires
            old(self).wf(),
        ensures
            final(self).wf(),
            final(self).document(uri@) matches Some(d) && d.text == text@ && d.version == version && d.language_id
                == language_id@ && d.path == crate::context::opt_string_view(path) && syntax_ok(d),
            forall|other: Seq<char>| other != uri@ ==> final(self).document(other) == old(self).document(other),
    {
        let syntax = SyntaxState::new(language_id.as_str(), text.as_str());
        let document = Document { text, version, language_id, path, syntax };
        let ghost old_docs = self.documents@;
        match self.index_of(&uri) {
            Some(i) => {
                let ghost entry = (uri, document);
                proof {
                    lemma_update(old_docs, i as int, entry);
                }
                self.documents.set(i, (uri, document));
                assert(self.documents@ =~= old_docs.update(i as int, entry));
            },
            None => {
                let ghost entry = (uri, document);
                proof {
                    lemma_push(old_docs, entry);
                }
                self.documents.push((uri, document));
                assert(self.documents@ =~= old_docs.push(entry));
            },
        }
    }

    /// Applies the changes in order and records the new version; nothing happens for
    /// a URI that is not open.
    pub fn apply_changes(&mut self, uri: &String, changes: Vec<ContentChange>, version: Option<i32>)
        requires
            old(self).wf(),
            old(self).document(uri@) matches Some(d) ==> changes_applicable(d.text, changes@),
        ensures
            final(self).wf(),
            match old(self).document(uri@) {
                Some(d) => final(self).document(uri@) matches Some(n) && n.text == changes_result(d.text, changes@)
                    && n.version == version && n.language_id == d.language_id && n.path == d.path && syntax_ok(n),
                None => final(self).document(uri@) is None,
            },
            forall|other: Seq<char>| other != uri@ ==> final(self).document(other) == old(self).document(other),
    {
        let i = match self.index_of(uri) {
            Some(i) => i,
            None => return,
        };
        let ghost old_docs = self.documents@;
        let (key, mut document) = self.documents.remove(i);
        let ghost start = document.text@;
        assert(old_docs[i as int].1 == document);
        let mut rest = changes;
        let ghost all = rest@;
        while rest.len() > 0
            invariant
                document.wf(),
                document.language_id == old_docs[i as int].1.language_id,
                document.path == old_docs[i as int].1.path,
                document.version == old_docs[i as int].1.version,
                changes_applicable(document.text@, rest@),
                changes_result(document.text@, rest@) == changes_result(start, all),
            decreases rest@.len(),
        {
            let ghost before = rest@;
            let change = rest.remove(0);
            assert(before.drop_first() =~= rest@);
            document.apply_change(change);
        }
        document.version = version;
        let ghost entry = (key, document);
        proof {
            lemma_update(old_docs, i as int, entry);
        }
        self.documents.insert(i, (key, document));
        assert(self.documents@ =~= old_docs.update(i as int, entry));
    }

    /// Forgets a document.
    pub fn close(&mut self, uri: &String)
        requires
            old(self).wf(),
        ensures
            final(self).wf(),
            final(self).document(uri@) is None,
            forall|other: Seq<char>| other != uri@ ==> final(self).document(other) == old(self).document(other),
    {
        let ghost old_docs = self.documents@;
        match self.index_of(uri) {
            Some(i) => {
                proof {
                    lemma_remove(old_docs, i as int);
                }
                self.documents.remove(i);
            },
            None => {},
        }
    }

    /// A copy of the document open under `uri`.
    pub fn snapshot(&self, uri: &String) -> (r: Option<DocumentSnapshot>)
        requires
            self.wf(),
        ensures
            match r {
                Some(s) => self.document(uri@) == Some(s.view()) && syntax_ok(s.view()),
                None => self.document(uri@) is None,
            },
    {
        match self.index_of(uri) {
            Some(i) => Some(self.documents[i].1.snapshot()),
            None => None,
        }
    }
}

impl Default for DocumentStore {
    fn default() -> (r: DocumentStore)
        ensures
            r.wf(),
            forall|uri: Seq<char>| r.document(uri) is None,
    {
        DocumentStore::new()
    }
}

} // verus!

//! Finding the path token under the cursor: syntax nodes captured by the language's
//! queries, the rules each node must pass, and the lexical fallback.
use crate::chars::{byte_offset, lemma_subrange_len, str_byte_len, to_chars, utf8_len};
use crate::context::{
    build_context, context_at, extract_outside_string_context, opt_context_view, outside_context,
    outside_token_start_spec, keys_view, token_parts, CompletionContext, CompletionTrigger, ContextView,
    OutsideStringsConfig,
};
use crate::handlers::{
    bare_token_is_supported, bare_token_ok, delimiter_lengths, disallowed_kind, is_disallowed_child_kind,
    is_kind, quoted_delimiter_lengths, LanguageKind,
};
use crate::strs::subvec;
use crate::syntax::{
    ParseStep, bare_query_text, language_profile_for_kind, node_end, node_field_child, node_kind, node_named_children,
    node_parent, node_start, quoted_query_text, SyntaxSnapshot,
};
use crate::text::{
    at_position, char_index_at_byte, first_at_position, lemma_position_index, locate_offset, locate_position,
    position_at, position_index, positions_fit, Position,
};
use vstd::prelude::*;
#[allow(unused_imports)]
use streaming_iterator::StreamingIterator;

verus! {

/// A named node below a captured node, reached through named children only.
pub struct DescendantNode {
    pub start: usize,
    pub kind: String,
    /// Index of the parent in the same list; `None` for a child of the captured node.
    pub parent: Option<usize>,
}

/// An ancestor of a captured node, nearest first.
pub struct AncestorNode {
    pub kind: String,
    /// Byte range of the ancestor's `value` field, when it has one.
    pub value_range: Option<(usize, usize)>,
}

/// What the context rules read of a node a query captured.
pub struct CapturedNode {
    pub start: usize,
    pub end: usize,
    pub kind: String,
    pub descendants: Vec<DescendantNode>,
    pub ancestors: Vec<AncestorNode>,
}

/// Descendant `i` is visited by the scan that looks for dynamic content: it and every
/// node between it and the captured node start before the cursor.
pub open spec fn reachable(ds: Seq<DescendantNode>, i: int, cursor: int) -> bool
    decreases i,
{
    if !(0 <= i < ds.len()) {
        false
    } else if !(ds[i].start < cursor) {
        false
    } else {
        match ds[i].parent {
            None => true,
            Some(p) => if (p as int) < i {
                reachable(ds, p as int, cursor)
            } else {
                false
            },
        }
    }
}

/// Text before the cursor inside the node holds an interpolation or substitution.
pub open spec fn disallowed_before(n: CapturedNode, cursor: int, lang: LanguageKind) -> bool {
    &&& cursor > n.start
    &&& exists|i: int|
        0 <= i < n.descendants@.len() && reachable(n.descendants@, i, cursor) && disallowed_kind(
            lang,
            #[trigger] n.descendants@[i].kind@,
        )
}

/// Walks the ancestors from index `i` outwards: the first key/value pair decides by
/// whether its value holds the node, a block sequence item accepts, and otherwise the
/// node is accepted only inside a flow sequence.
pub open spec fn yaml_walk(ancs: Seq<AncestorNode>, i: int, in_flow: bool, start: int, end: int) -> bool
    decreases ancs.len() - i,
{
    if i < 0 || i >= ancs.len() {
        in_flow
    } else {
        let k = ancs[i].kind@;
        if k == "block_mapping_pair"@ || k == "flow_pair"@ {
            match ancs[i].value_range {
                Some((s, e)) => s <= start && e >= end,
                None => false,
            }
        } else if k == "block_sequence_item"@ {
            true
        } else {
            yaml_walk(ancs, i + 1, in_flow || k == "flow_sequence"@, start, end)
        }
    }
}

/// A YAML plain scalar is a path candidate only on the value side of a mapping or as
/// a sequence item.
pub open spec fn yaml_position_ok(n: CapturedNode) -> bool {
    yaml_walk(n.ancestors@, 0, false, n.start as int, n.end as int)
}

pub open spec fn bare_node_ok(lang: LanguageKind, n: CapturedNode) -> bool {
    lang == LanguageKind::Yaml ==> yaml_position_ok(n)
}

/// The context inside a quoted string node.
pub open spec fn quoted_context(
    cs: Seq<char>,
    cursor: int,
    n: CapturedNode,
    lang: LanguageKind,
    allow_empty_token: bool,
    doc: Option<Seq<char>>,
) -> Option<ContextView> {
    let cb = byte_offset(cs, cursor) as int;
    if disallowed_before(n, cb, lang) {
        None
    } else {
        match (char_index_at_byte(cs, n.start as int), char_index_at_byte(cs, n.end as int)) {
            (Some(si), Some(ei)) => if si > ei {
                None
            } else {
                match delimiter_lengths(lang, n.kind@, cs.subrange(si, ei)) {
                    Some((open, close)) => {
                        let content_start = n.start + open;
                        if n.end < close {
                            None
                        } else if cb < content_start || cb > n.end - close {
                            None
                        } else {
                            match char_index_at_byte(cs, content_start) {
                                Some(ts) => context_at(
                                    cs,
                                    ts,
                                    cursor,
                                    CompletionTrigger::QuotedString,
                                    allow_empty_token,
                                    doc,
                                ),
                                None => None,
                            }
                        }
                    },
                    None => None,
                }
            },
            _ => None,
        }
    }
}

/// The context of a bare token node.
pub open spec fn bare_context(
    cs: Seq<char>,
    cursor: int,
    n: CapturedNode,
    lang: LanguageKind,
    allow_empty_token: bool,
    doc: Option<Seq<char>>,
) -> Option<ContextView> {
    let cb = byte_offset(cs, cursor) as int;
    if cb < n.start || cb > n.end {
        None
    } else if disallowed_before(n, cb, lang) {
        None
    } else {
        match char_index_at_byte(cs, n.start as int) {
            Some(ts) => {
                let token = cs.subrange(ts, cursor);
                if !bare_token_ok(lang, token) || !bare_node_ok(lang, n) {
                    None
                } else {
                    context_at(cs, ts, cursor, CompletionTrigger::BareToken, allow_empty_token, doc)
                }
            },
            None => None,
        }
    }
}

pub open spec fn node_context(
    cs: Seq<char>,
    cursor: int,
    n: CapturedNode,
    lang: LanguageKind,
    trigger: CompletionTrigger,
    allow_empty_token: bool,
    doc: Option<Seq<char>>,
) -> Option<ContextView> {
    match trigger {
        CompletionTrigger::QuotedString => quoted_context(cs, cursor, n, lang, allow_empty_token, doc),
        CompletionTrigger::BareToken => bare_context(cs, cursor, n, lang, allow_empty_token, doc),
        CompletionTrigger::OutsideString => None,
    }
}

pub open spec fn node_len(n: CapturedNode) -> int {
    if n.end >= n.start {
        n.end - n.start
    } else {
        0
    }
}

pub open spec fn contains_cursor(n: CapturedNode, cb: int, text_len: int) -> bool {
    n.start <= cb && (cb <= n.end || (cb == text_len && n.end == text_len))
}

pub open spec fn same_node(a: CapturedNode, b: CapturedNode) -> bool {
    a.start == b.start && a.end == b.end && a.kind@ == b.kind@
}

/// Capture `i` holds the cursor and is the first capture of its node.
pub open spec fn eligible(caps: Seq<CapturedNode>, i: int, cb: int, text_len: int) -> bool {
    &&& 0 <= i < caps.len()
    &&& contains_cursor(caps[i], cb, text_len)
    &&& forall|j: int|
        0 <= j < i && contains_cursor(caps[j], cb, text_len) ==> !same_node(caps[j], caps[i])
}

pub open spec fn succeeds(
    cs: Seq<char>,
    cursor: int,
    caps: Seq<CapturedNode>,
    i: int,
    lang: LanguageKind,
    trigger: CompletionTrigger,
    allow_empty_token: bool,
    doc: Option<Seq<char>>,
) -> bool {
    eligible(caps, i, byte_offset(cs, cursor) as int, utf8_len(cs) as int) && node_context(
        cs,
        cursor,
        caps[i],
        lang,
        trigger,
        allow_empty_token,
        doc,
    ) is Some
}

/// Capture `i` is the smallest node that yields a context, the earliest among equals.
pub open spec fn is_best(
    cs: Seq<char>,
    cursor: int,
    caps: Seq<CapturedNode>,
    i: int,
    lang: LanguageKind,
    trigger: CompletionTrigger,
    allow_empty_token: bool,
    doc: Option<Seq<char>>,
) -> bool {
    &&& succeeds(cs, cursor, caps, i, lang, trigger, allow_empty_token, doc)
    &&& forall|j: int|
        succeeds(cs, cursor, caps, j, lang, trigger, allow_empty_token, doc) ==> node_len(caps[i])
            < node_len(caps[j]) || (node_len(caps[i]) == node_len(caps[j]) && i <= j)
}

/// The context from the captures of one query.
pub open spec fn capture_context(
    cs: Seq<char>,
    cursor: int,
    caps: Seq<CapturedNode>,
    lang: LanguageKind,
    trigger: CompletionTrigger,
    allow_empty_token: bool,
    doc: Option<Seq<char>>,
) -> Option<ContextView> {
    if exists|i: int| is_best(cs, cursor, caps, i, lang, trigger, allow_empty_token, doc) {
        let i = choose|i: int| is_best(cs, cursor, caps, i, lang, trigger, allow_empty_token, doc);
        node_context(cs, cursor, caps[i], lang, trigger, allow_empty_token, doc)
    } else {
        None
    }
}

pub open spec fn doc_view(document_path: Option<&String>) -> Option<Seq<char>> {
    match document_path {
        Some(p) => Some(p@),
        None => None,
    }
}

/// Executable form of [`disallowed_before`].
pub fn has_disallowed_content_before_cursor(n: &CapturedNode, cursor: usize, lang: LanguageKind) -> (r: bool)
    ensures
        r == disallowed_before(*n, cursor as int, lang),
{
    if cursor <= n.start {
        return false;
    }
    let ghost ds = n.descendants@;
    let mut reach: Vec<bool> = Vec::new();
    let mut i: usize = 0;
    while i < n.descendants.len()
        invariant
            ds == n.descendants@,
            cursor > n.start,
            i <= ds.len(),
            reach@.len() == i,
            forall|j: int| 0 <= j < i ==> reach@[j] == reachable(ds, j, cursor as int),
            forall|j: int|
                0 <= j < i ==> !(reachable(ds, j, cursor as int) && disallowed_kind(lang, #[trigger] ds[j].kind@)),
        decreases ds.len() - i,
    {
        let d = &n.descendants[i];
        let r = if d.start < cursor {
            match d.parent {
                None => true,
                Some(p) => p < i && reach[p],
            }
        } else {
            false
        };
        assert(r == reachable(ds, i as int, cursor as int));
        if r && is_disallowed_child_kind(lang, &to_chars(d.kind.as_str())) {
            assert(reachable(n.descendants@, i as int, cursor as int) && disallowed_kind(
                lang,
                n.descendants@[i as int].kind@,
            ));
            return true;
        }
        reach.push(r);
        i = i + 1;
    }
    false
}

/// Executable form of [`yaml_position_ok`].
pub fn yaml_plain_scalar_is_supported_position(n: &CapturedNode) -> (r: bool)
    ensures
        r == yaml_position_ok(*n),
{
    let ghost ancs = n.ancestors@;
    let mut in_flow = false;
    let mut i: usize = 0;
    while i < n.ancestors.len()
        invariant
            ancs == n.ancestors@,
            i <= ancs.len(),
            yaml_walk(ancs, i as int, in_flow, n.start as int, n.end as int) == yaml_position_ok(*n),
        decreases ancs.len() - i,
    {
        let a = &n.ancestors[i];
        let k = to_chars(a.kind.as_str());
        if is_kind(&k, "block_mapping_pair") || is_kind(&k, "flow_pair") {
            return match a.value_range {
                Some((s, e)) => s <= n.start && e >= n.end,
                None => false,
            };
        } else if is_kind(&k, "block_sequence_item") {
            return true;
        } else if is_kind(&k, "flow_sequence") {
            in_flow = true;
        }
        i = i + 1;
    }
    in_flow
}

/// The context inside a quoted string node; `cursor` is a character index and
/// `cursor_byte` its byte offset.
#[verifier::rlimit(40)]
pub fn build_quoted_context(
    chars: &Vec<char>,
    cursor: usize,
    cursor_byte: usize,
    n: &CapturedNode,
    lang: LanguageKind,
    allow_empty_token: bool,
    document_path: Option<&String>,
) -> (r: Option<CompletionContext>)
    requires
        positions_fit(chars@),
        cursor <= chars@.len(),
        cursor_byte == byte_offset(chars@, cursor as int),
    ensures
        opt_context_view(r) == quoted_context(chars@, cursor as int, *n, lang, allow_empty_token, doc_view(document_path)),
{
    if has_disallowed_content_before_cursor(n, cursor_byte, lang) {
        return None;
    }
    let si = match locate_offset(chars, n.start) {
        Some(k) => k,
        None => return None,
    };
    let ei = match locate_offset(chars, n.end) {
        Some(k) => k,
        None => return None,
    };
    if si > ei {
        return None;
    }
    let node_text = subvec(chars, si, ei);
    proof {
        lemma_subrange_len(chars@, si as int, ei as int);
    }
    let kind = to_chars(n.kind.as_str());
    let (open, close) = match quoted_delimiter_lengths(lang, &kind, &node_text) {
        Some(lengths) => lengths,
        None => return None,
    };
    let content_start = n.start + open;
    if n.end < close {
        return None;
    }
    let content_end = n.end - close;
    if cursor_byte < content_start || cursor_byte > content_end {
        return None;
    }
    let ts = match locate_offset(chars, content_start) {
        Some(k) => k,
        None => return None,
    };
    build_context(chars, cursor, document_path, ts, CompletionTrigger::QuotedString, allow_empty_token)
}

/// The context of a bare token node; `cursor` is a character index and `cursor_byte`
/// its byte offset.
pub fn build_bare_context(
    chars: &Vec<char>,
    cursor: usize,
    cursor_byte: usize,
    n: &CapturedNode,
    lang: LanguageKind,
    allow_empty_token: bool,
    document_path: Option<&String>,
) -> (r: Option<CompletionContext>)
    requires
        positions_fit(chars@),
        cursor <= chars@.len(),
        cursor_byte == byte_offset(chars@, cursor as int),
    ensures
        opt_context_view(r) == bare_context(chars@, cursor as int, *n, lang, allow_empty_token, doc_view(document_path)),
{
    if cursor_byte < n.start || cursor_byte > n.end {
        return None;
    }
    if has_disallowed_content_before_cursor(n, cursor_byte, lang) {
        return None;
    }
    let ts = match locate_offset(chars, n.start) {
        Some(k) => k,
        None => return None,
    };
    proof {
        if ts > cursor {
            crate::chars::lemma_byte_offset_mono(chars@, cursor as int, ts as int);
            crate::chars::lemma_byte_offset_step(chars@, cursor as int);
        }
    }
    let token = subvec(chars, ts, cursor);
    let node_ok = lang != LanguageKind::Yaml || yaml_plain_scalar_is_supported_position(n);
    if !bare_token_is_supported(lang, &token) || !node_ok {
        return None;
    }
    build_context(chars, cursor, document_path, ts, CompletionTrigger::BareToken, allow_empty_token)
}

fn node_context_exec(
    chars: &Vec<char>,
    cursor: usize,
    cursor_byte: usize,
    n: &CapturedNode,
    lang: LanguageKind,
    trigger: CompletionTrigger,
    allow_empty_token: bool,
    document_path: Option<&String>,
) -> (r: Option<CompletionContext>)
    requires
        positions_fit(chars@),
        cursor <= chars@.len(),
        cursor_byte == byte_offset(chars@, cursor as int),
    ensures
        opt_context_view(r) == node_context(chars@, cursor as int, *n, lang, trigger, allow_empty_token, doc_view(document_path)),
{
    match trigger {
        CompletionTrigger::QuotedString => build_quoted_context(
            chars,
            cursor,
            cursor_byte,
            n,
            lang,
            allow_empty_token,
            document_path,
        ),
        CompletionTrigger::BareToken => build_bare_context(
            chars,
            cursor,
            cursor_byte,
            n,
            lang,
            allow_empty_token,
            document_path,
        ),
        CompletionTrigger::OutsideString => None,
    }
}

proof fn lemma_best_unique(
    cs: Seq<char>,
    cursor: int,
    caps: Seq<CapturedNode>,
    i: int,
    lang: LanguageKind,
    trigger: CompletionTrigger,
    allow_empty_token: bool,
    doc: Option<Seq<char>>,
)
    requires
        is_best(cs, cursor, caps, i, lang, trigger, allow_empty_token, doc),
    ensures
        capture_context(cs, cursor, caps, lang, trigger, allow_empty_token, doc) == node_context(
            cs,
            cursor,
            caps[i],
            lang,
            trigger,
            allow_empty_token,
            doc,
        ),
{
    let k = choose|k: int| is_best(cs, cursor, caps, k, lang, trigger, allow_empty_token, doc);
    assert(succeeds(cs, cursor, caps, k, lang, trigger, allow_empty_token, doc));
    assert(succeeds(cs, cursor, caps, i, lang, trigger, allow_empty_token, doc));
}

fn same_node_exec(a: &CapturedNode, b: &CapturedNode) -> (r: bool)
    ensures
        r == same_node(*a, *b),
{
    a.start == b.start && a.end == b.end && crate::strs::vec_eq(
        &to_chars(a.kind.as_str()),
        &to_chars(b.kind.as_str()),
    )
}

fn contains_cursor_exec(n: &CapturedNode, cb: usize, text_len: usize) -> (r: bool)
    ensures
        r == contains_cursor(*n, cb as int, text_len as int),
{
    n.start <= cb && (cb <= n.end || (cb == text_len && n.end == text_len))
}

/// The context from the captures of one query: the smallest capture (by byte length,
/// earliest first among equals) that holds the cursor and yields a context.
pub fn context_from_captures(
    chars: &Vec<char>,
    cursor: usize,
    cursor_byte: usize,
    text_len: usize,
    caps: &Vec<CapturedNode>,
    lang: LanguageKind,
    trigger: CompletionTrigger,
    allow_empty_token: bool,
    document_path: Option<&String>,
) -> (r: Option<CompletionContext>)
    requires
        positions_fit(chars@),
        cursor <= chars@.len(),
        cursor_byte == byte_offset(chars@, cursor as int),
        text_len == utf8_len(chars@),
    ensures
        opt_context_view(r) == capture_context(
            chars@,
            cursor as int,
            caps@,
            lang,
            trigger,
            allow_empty_token,
            doc_view(document_path),
        ),
{
    let ghost cs = chars@;
    let ghost doc = doc_view(document_path);
    let mut best: Option<(usize, usize, CompletionContext)> = None;
    let mut i: usize = 0;
    while i < caps.len()
        invariant
            cs == chars@,
            doc == doc_view(document_path),
            positions_fit(cs),
            cursor <= cs.len(),
            cursor_byte == byte_offset(cs, cursor as int),
            text_len == utf8_len(cs),
            i <= caps@.len(),
            match best {
                Some((b, blen, ctx)) => {
                    &&& b < i
                    &&& blen == node_len(caps@[b as int])
                    &&& succeeds(cs, cursor as int, caps@, b as int, lang, trigger, allow_empty_token, doc)
                    &&& Some(ctx@) == node_context(cs, cursor as int, caps@[b as int], lang, trigger, allow_empty_token, doc)
                    &&& forall|j: int|
                        0 <= j < i && succeeds(cs, cursor as int, caps@, j, lang, trigger, allow_empty_token, doc)
                            ==> blen < node_len(caps@[j]) || (blen == node_len(caps@[j]) && b <= j)
                },
                None => forall|j: int|
                    0 <= j < i ==> !succeeds(cs, cursor as int, caps@, j, lang, trigger, allow_empty_token, doc),
            },
        decreases caps@.len() - i,
    {
        let n = &caps[i];
        let mut is_first = contains_cursor_exec(n, cursor_byte, text_len);
        let mut j: usize = 0;
        while j < i && is_first
            invariant
                i < caps@.len(),
                j <= i,
                n == &caps@[i as int],
                is_first ==> contains_cursor(caps@[i as int], cursor_byte as int, text_len as int),
                is_first ==> forall|k: int|
                    0 <= k < j && contains_cursor(caps@[k], cursor_byte as int, text_len as int)
                        ==> !same_node(caps@[k], caps@[i as int]),
                !is_first ==> !eligible(caps@, i as int, cursor_byte as int, text_len as int),
            decreases i - j,
        {
            if contains_cursor_exec(&caps[j], cursor_byte, text_len) && same_node_exec(&caps[j], n) {
                is_first = false;
            }
            j = j + 1;
        }
        assert(is_first == eligible(caps@, i as int, cursor_byte as int, text_len as int));
        if is_first {
            let len = if n.end >= n.start {
                n.end - n.start
            } else {
                0
            };
            let better = match &best {
                Some((_, blen, _)) => len < *blen,
                None => true,
            };
            if better {
                match node_context_exec(chars, cursor, cursor_byte, n, lang, trigger, allow_empty_token, document_path) {
                    Some(ctx) => {
                        best = Some((i, len, ctx));
                    },
                    None => {},
                }
            }
        }
        i = i + 1;
    }
    match best {
        Some((b, _, ctx)) => {
            proof {
                lemma_best_unique(cs, cursor as int, caps@, b as int, lang, trigger, allow_empty_token, doc);
            }
            Some(ctx)
        },
        None => None,
    }
}

/// A breadth-first listing of nodes below a node: the children of that node first,
/// without a parent, then each later entry with the index of an earlier one as its
/// parent, the parents taken in listing order.
pub open spec fn breadth_first(ds: Seq<Option<usize>>) -> bool {
    &&& forall|i: int| 0 <= i < ds.len() ==> (#[trigger] ds[i] matches Some(p) ==> p < i)
    &&& forall|i: int, j: int| 0 <= i < j < ds.len() && (#[trigger] ds[i]) is Some ==> (#[trigger] ds[j]) is Some
    &&& forall|i: int, j: int|
        0 <= i < j < ds.len() && (#[trigger] ds[i]) is Some && (#[trigger] ds[j]) is Some ==> ds[i]->0 <= ds[j]->0
}

pub open spec fn parents_of(ds: Seq<DescendantNode>) -> Seq<Option<usize>> {
    ds.map_values(|d: DescendantNode| d.parent)
}

/// The named nodes below `node`, each listed after its parent, breadth first.
/// `budget` bounds the number of nodes listed; a node never has more descendants
/// than its tree.
fn collect_descendants<'t>(node: &tree_sitter::Node<'t>, budget: usize) -> (r: Vec<DescendantNode>)
    ensures
        r@.len() <= budget,
        breadth_first(parents_of(r@)),
{
    let mut pending: Vec<tree_sitter::Node<'t>> = node_named_children(node);
    let mut parents: Vec<Option<usize>> = Vec::new();
    let mut j: usize = 0;
    while j < pending.len()
        invariant
            parents@.len() == j,
            j <= pending@.len(),
            forall|i: int| 0 <= i < j ==> (#[trigger] parents@[i]) is None,
        decreases pending@.len() - j,
    {
        parents.push(None);
        j = j + 1;
    }
    let mut out: Vec<DescendantNode> = Vec::new();
    let mut k: usize = 0;
    while k < pending.len() && k < budget
        invariant
            parents@.len() == pending@.len(),
            k <= pending@.len(),
            k <= budget,
            out@.len() == k,
            forall|i: int| 0 <= i < k ==> (#[trigger] out@[i]).parent == parents@[i],
            forall|i: int| 0 <= i < parents@.len() ==> (#[trigger] parents@[i] matches Some(p) ==> p < i && p < k),
            breadth_first(parents@),
        decreases budget - k,
    {
        let start = node_start(&pending[k]);
        let kind = node_kind(&pending[k]);
        out.push(DescendantNode { start, kind, parent: parents[k] });
        let children = node_named_children(&pending[k]);
        let mut c: usize = 0;
        while c < children.len()
            invariant
                parents@.len() == pending@.len(),
                k < pending@.len(),
                c <= children@.len(),
                out@.len() == k + 1,
                forall|i: int| 0 <= i <= k ==> (#[trigger] out@[i]).parent == parents@[i],
                forall|i: int| 0 <= i < parents@.len() ==> (#[trigger] parents@[i] matches Some(p) ==> p < i && p <= k),
                breadth_first(parents@),
            decreases children@.len() - c,
        {
            let ghost before = parents@;
            pending.push(children[c]);
            parents.push(Some(k));
            proof {
                let ps = parents@;
                assert(ps == before.push(Some(k)));
                assert forall|i: int, j: int| 0 <= i < j < ps.len() && (#[trigger] ps[i]) is Some implies (#[trigger] ps[j]) is Some by {
                    if j < before.len() {
                        assert(before[i] is Some);
                    }
                }
                assert forall|i: int, j: int|
                    0 <= i < j < ps.len() && (#[trigger] ps[i]) is Some && (#[trigger] ps[j]) is Some implies ps[i]->0 <= ps[j]->0 by {
                    if j < before.len() {
                        assert(before[i] is Some && before[j] is Some);
                    } else {
                        assert(before[i] matches Some(p) ==> p <= k);
                    }
                }
                assert forall|i: int| 0 <= i < ps.len() implies (#[trigger] ps[i] matches Some(p) ==> p < i && p <= k) by {
                    if i < before.len() {
                        assert(ps[i] == before[i]);
                    }
                }
                assert forall|i: int| 0 <= i <= k implies (#[trigger] out@[i]).parent == ps[i] by {
                    assert(ps[i] == before[i]);
                }
            }
            c = c + 1;
        }
        k = k + 1;
    }
    proof {
        assert(parents_of(out@) =~= parents@.take(k as int));
        let ps = parents_of(out@);
        assert forall|i: int, j: int| 0 <= i < j < ps.len() && (#[trigger] ps[i]) is Some implies (#[trigger] ps[j]) is Some by {
            assert(ps[i] == parents@[i] && ps[j] == parents@[j]);
        }
        assert forall|i: int, j: int|
            0 <= i < j < ps.len() && (#[trigger] ps[i]) is Some && (#[trigger] ps[j]) is Some implies ps[i]->0 <= ps[j]->0 by {
            assert(ps[i] == parents@[i] && ps[j] == parents@[j]);
        }
        assert forall|i: int| 0 <= i < ps.len() implies (#[trigger] ps[i] matches Some(p) ==> p < i) by {
            assert(ps[i] == parents@[i]);
        }
    }
    out
}

/// The ancestors of `node`, nearest first, with the byte range of each one's `value`
/// field. `budget` bounds the walk; no chain of parents is longer than its tree.
fn collect_ancestors<'t>(node: &tree_sitter::Node<'t>, budget: usize) -> (r: Vec<AncestorNode>)
    ensures
        r@.len() <= budget,
{
    let mut out: Vec<AncestorNode> = Vec::new();
    let mut current = node_parent(node);
    let mut steps: usize = 0;
    while current.is_some() && steps < budget
        invariant
            steps <= budget,
            out@.len() == steps,
        decreases budget - steps,
    {
        let next = match &current {
            Some(parent) => {
                let value_range = match node_field_child(parent, "value") {
                    Some(value) => Some((node_start(&value), node_end(&value))),
                    None => None,
                };
                out.push(AncestorNode { kind: node_kind(parent), value_range });
                node_parent(parent)
            },
            None => None,
        };
        current = next;
        steps = steps + 1;
    }
    out
}

/// What the context rules read of a captured node: its byte range and kind, its named
/// descendants breadth first and its ancestors, each list at most `budget` long.
fn capture_model<'t>(node: &tree_sitter::Node<'t>, budget: usize) -> (r: CapturedNode)
    ensures
        r.descendants@.len() <= budget,
        breadth_first(parents_of(r.descendants@)),
        r.ancestors@.len() <= budget,
{
    CapturedNode {
        start: node_start(node),
        end: node_end(node),
        kind: node_kind(node),
        descendants: collect_descendants(node, budget),
        ancestors: collect_ancestors(node, budget),
    }
}

/// What a captured node holds, as plain values: its byte range, its kind, its named
/// descendants (start, kind, parent index) and its ancestors (kind, value range).
pub struct CapturedView {
    pub start: usize,
    pub end: usize,
    pub kind: Seq<char>,
    pub descendants: Seq<(usize, Seq<char>, Option<usize>)>,
    pub ancestors: Seq<(Seq<char>, Option<(usize, usize)>)>,
}

pub open spec fn captured_view(n: CapturedNode) -> CapturedView {
    CapturedView {
        start: n.start,
        end: n.end,
        kind: n.kind@,
        descendants: n.descendants@.map_values(|d: DescendantNode| (d.start, d.kind@, d.parent)),
        ancestors: n.ancestors@.map_values(|a: AncestorNode| (a.kind@, a.value_range)),
    }
}

pub open spec fn captures_view(caps: Seq<CapturedNode>) -> Seq<CapturedView> {
    caps.map_values(|n: CapturedNode| captured_view(n))
}

/// What tree-sitter's query `query` captures, in match order, over the tree that the
/// language's grammar and the parses `history` produce (a parse from scratch of the
/// first text, then each later text parsed reusing the previous tree with its edit),
/// within bytes `start..end`, each capture modelled by [`capture_model`] (with the
/// tree's node count as the budget); empty when the query does not compile.
pub uninterp spec fn captured_nodes(
    lang: LanguageKind,
    history: Seq<ParseStep>,
    query: Seq<char>,
    start: usize,
    end: usize,
) -> Seq<CapturedView>;

/// `Query::new` for the snapshot tree's language and `QueryCursor::matches` over the
/// tree within bytes `start..end` (matches are streamed), each capture converted by
/// [`capture_model`]. The tree is the one the snapshot's parses produced, so where
/// `text` is the text of its last parse, the result is [`captured_nodes`] of those
/// parses.
#[verifier::external_body]
fn snapshot_captures(snapshot: &SyntaxSnapshot, query_source: &str, text: &str, start: usize, end: usize) -> (r: Vec<
    CapturedNode,
>)
    ensures
        text@ == snapshot.source() ==> captures_view(r@) == captured_nodes(
            snapshot.kind(),
            snapshot.history(),
            query_source@,
            start,
            end,
        ),
{
    let Ok(query) = tree_sitter::Query::new(&snapshot.tree.tree.language(), query_source) else { return Vec::new() };
    let root = snapshot.tree.tree.root_node();
    let budget = root.descendant_count();
    let mut cursor = tree_sitter::QueryCursor::new();
    cursor.set_byte_range(start..end);
    let mut matches = cursor.matches(&query, root, text.as_bytes());
    let mut out = Vec::new();
    while let Some(matched) = matches.next() {
        out.extend(matched.captures().iter().map(|capture| capture_model(&capture.node, budget)));
    }
    out
}

proof fn lemma_reachable_by_view(a: Seq<DescendantNode>, b: Seq<DescendantNode>, i: int, cursor: int)
    requires
        a.map_values(|d: DescendantNode| (d.start, d.kind@, d.parent)) == b.map_values(
            |d: DescendantNode| (d.start, d.kind@, d.parent),
        ),
    ensures
        reachable(a, i, cursor) == reachable(b, i, cursor),
    decreases i,
{
    assert(a.len() == b.len()) by {
        assert(a.map_values(|d: DescendantNode| (d.start, d.kind@, d.parent)).len() == a.len());
    }
    if 0 <= i < a.len() {
        let va = a.map_values(|d: DescendantNode| (d.start, d.kind@, d.parent));
        assert(va[i] == (a[i].start, a[i].kind@, a[i].parent));
        let vb = b.map_values(|d: DescendantNode| (d.start, d.kind@, d.parent));
        assert(vb[i] == (b[i].start, b[i].kind@, b[i].parent));
        match a[i].parent {
            Some(p) => if (p as int) < i {
                lemma_reachable_by_view(a, b, p as int, cursor);
            },
            None => {},
        }
    }
}

proof fn lemma_yaml_walk_by_view(
    a: Seq<AncestorNode>,
    b: Seq<AncestorNode>,
    i: int,
    in_flow: bool,
    start: int,
    end: int,
)
    requires
        a.map_values(|x: AncestorNode| (x.kind@, x.value_range)) == b.map_values(
            |x: AncestorNode| (x.kind@, x.value_range),
        ),
    ensures
        yaml_walk(a, i, in_flow, start, end) == yaml_walk(b, i, in_flow, start, end),
    decreases a.len() - i,
{
    assert(a.len() == b.len()) by {
        assert(a.map_values(|x: AncestorNode| (x.kind@, x.value_range)).len() == a.len());
    }
    if 0 <= i < a.len() {
        let va = a.map_values(|x: AncestorNode| (x.kind@, x.value_range));
        let vb = b.map_values(|x: AncestorNode| (x.kind@, x.value_range));
        assert(va[i] == (a[i].kind@, a[i].value_range));
        assert(vb[i] == (b[i].kind@, b[i].value_range));
        let k = a[i].kind@;
        lemma_yaml_walk_by_view(a, b, i + 1, in_flow || k == "flow_sequence"@, start, end);
    }
}

proof fn lemma_node_context_by_view(
    cs: Seq<char>,
    cursor: int,
    a: CapturedNode,
    b: CapturedNode,
    lang: LanguageKind,
    trigger: CompletionTrigger,
    allow_empty_token: bool,
    doc: Option<Seq<char>>,
)
    requires
        captured_view(a) == captured_view(b),
    ensures
        node_context(cs, cursor, a, lang, trigger, allow_empty_token, doc) == node_context(
            cs,
            cursor,
            b,
            lang,
            trigger,
            allow_empty_token,
            doc,
        ),
{
    let cb = byte_offset(cs, cursor) as int;
    let da = a.descendants@;
    let db = b.descendants@;
    assert(da.len() == db.len()) by {
        assert(captured_view(a).descendants.len() == da.len());
        assert(captured_view(b).descendants.len() == db.len());
    }
    assert forall|i: int| 0 <= i < da.len() implies reachable(da, i, cb) == reachable(db, i, cb) && da[i].kind@
        == db[i].kind@ by {
        lemma_reachable_by_view(da, db, i, cb);
        assert(captured_view(a).descendants[i] == (da[i].start, da[i].kind@, da[i].parent));
        assert(captured_view(b).descendants[i] == (db[i].start, db[i].kind@, db[i].parent));
    }
    assert(disallowed_before(a, cb, lang) == disallowed_before(b, cb, lang)) by {
        if disallowed_before(a, cb, lang) {
            let i = choose|i: int|
                0 <= i < da.len() && reachable(da, i, cb) && disallowed_kind(lang, #[trigger] da[i].kind@);
            assert(disallowed_kind(lang, db[i].kind@));
        }
        if disallowed_before(b, cb, lang) {
            let i = choose|i: int|
                0 <= i < db.len() && reachable(db, i, cb) && disallowed_kind(lang, #[trigger] db[i].kind@);
            assert(disallowed_kind(lang, da[i].kind@));
        }
    }
    lemma_yaml_walk_by_view(a.ancestors@, b.ancestors@, 0, false, a.start as int, a.end as int);
}

/// The context a list of captures gives depends only on what the captures hold.
pub proof fn lemma_capture_context_by_view(
    cs: Seq<char>,
    cursor: int,
    a: Seq<CapturedNode>,
    b: Seq<CapturedNode>,
    lang: LanguageKind,
    trigger: CompletionTrigger,
    allow_empty_token: bool,
    doc: Option<Seq<char>>,
)
    requires
        captures_view(a) == captures_view(b),
    ensures
        capture_context(cs, cursor, a, lang, trigger, allow_empty_token, doc) == capture_context(
            cs,
            cursor,
            b,
            lang,
            trigger,
            allow_empty_token,
            doc,
        ),
{
    assert(a.len() == b.len()) by {
        assert(captures_view(a).len() == a.len());
        assert(captures_view(b).len() == b.len());
    }
    assert forall|i: int| 0 <= i < a.len() implies #[trigger] captured_view(a[i]) == captured_view(b[i]) by {
        assert(captures_view(a)[i] == captured_view(a[i]));
        assert(captures_view(b)[i] == captured_view(b[i]));
    }
    assert forall|i: int|
        is_best(cs, cursor, a, i, lang, trigger, allow_empty_token, doc) == is_best(
            cs,
            cursor,
            b,
            i,
            lang,
            trigger,
            allow_empty_token,
            doc,
        ) by {
        assert forall|j: int| 0 <= j < a.len() implies node_context(cs, cursor, a[j], lang, trigger, allow_empty_token, doc)
            == node_context(cs, cursor, b[j], lang, trigger, allow_empty_token, doc) && a[j].start == b[j].start
            && a[j].end == b[j].end && a[j].kind@ == b[j].kind@ by {
            assert(captured_view(a[j]) == captured_view(b[j]));
            lemma_node_context_by_view(cs, cursor, a[j], b[j], lang, trigger, allow_empty_token, doc);
        }
        assert forall|j: int|
            succeeds(cs, cursor, a, j, lang, trigger, allow_empty_token, doc) == succeeds(
                cs,
                cursor,
                b,
                j,
                lang,
                trigger,
                allow_empty_token,
                doc,
            ) by {
            if 0 <= j < a.len() {
                assert(eligible(a, j, byte_offset(cs, cursor) as int, utf8_len(cs) as int) == eligible(
                    b,
                    j,
                    byte_offset(cs, cursor) as int,
                    utf8_len(cs) as int,
                ));
            }
        }
    }
    if exists|i: int| is_best(cs, cursor, a, i, lang, trigger, allow_empty_token, doc) {
        let i = choose|i: int| is_best(cs, cursor, a, i, lang, trigger, allow_empty_token, doc);
        lemma_best_unique(cs, cursor, a, i, lang, trigger, allow_empty_token, doc);
        lemma_best_unique(cs, cursor, b, i, lang, trigger, allow_empty_token, doc);
        lemma_node_context_by_view(cs, cursor, a[i], b[i], lang, trigger, allow_empty_token, doc);
    }
}

/// The byte range a query runs over: one byte either side of the cursor, within the text.
pub open spec fn capture_range(cursor_byte: int, text_len: int) -> (usize, usize) {
    (
        if cursor_byte > 0 {
            (cursor_byte - 1) as usize
        } else {
            0
        },
        if cursor_byte < text_len {
            (cursor_byte + 1) as usize
        } else {
            text_len as usize
        },
    )
}

/// The captures `caps` are those of `query` at the cursor over the tree the parses
/// `history` produced, where the last parse was of the text itself.
pub open spec fn captures_of(
    caps: Seq<CapturedNode>,
    history: Seq<ParseStep>,
    cs: Seq<char>,
    cursor: int,
    lang: LanguageKind,
    query: Seq<char>,
) -> bool {
    history.len() > 0 && history.last().0 == cs ==> captures_view(caps) == captured_nodes(
        lang,
        history,
        query,
        capture_range(byte_offset(cs, cursor) as int, utf8_len(cs) as int).0,
        capture_range(byte_offset(cs, cursor) as int, utf8_len(cs) as int).1,
    )
}

/// The context the bare-token captures give, else the lexical fallback.
pub open spec fn bare_or_fallback(
    cs: Seq<char>,
    cursor: int,
    lang: LanguageKind,
    bare: Seq<CapturedNode>,
    allow_empty_token: bool,
    doc: Option<Seq<char>>,
    fallback: Option<ContextView>,
) -> Option<ContextView> {
    match capture_context(cs, cursor, bare, lang, CompletionTrigger::BareToken, allow_empty_token, doc) {
        Some(c) => Some(c),
        None => fallback,
    }
}

/// The separators and mapping keys of a lexical fallback configuration.
pub open spec fn outside_view(outside_strings: Option<&OutsideStringsConfig>) -> Option<(Seq<char>, Seq<Seq<char>>)> {
    match outside_strings {
        Some(o) => Some((o.path_separators@, keys_view(o.mapping_keys@))),
        None => None,
    }
}

/// The lexical fallback, when it is configured.
pub open spec fn fallback_context(
    cs: Seq<char>,
    cursor: int,
    doc: Option<Seq<char>>,
    allow_empty_token: bool,
    outside: Option<(Seq<char>, Seq<Seq<char>>)>,
) -> Option<ContextView> {
    match outside {
        Some((separators, keys)) => outside_context(cs, cursor, doc, allow_empty_token, separators, keys),
        None => None,
    }
}

/// `r` is the context [`extract_completion_context`] gives: `None` when the position
/// is not in the text; else, with a syntax tree, the context of the captures of the
/// language's quoted-string query, then of its bare-token query, falling back to the
/// lexical context. The captures are those tree-sitter gives ([`captured_nodes`]) where
/// the tree was parsed from the text itself.
pub open spec fn extracted_context(
    cs: Seq<char>,
    position: Position,
    syntax: Option<(LanguageKind, Seq<ParseStep>)>,
    doc: Option<Seq<char>>,
    allow_empty_token: bool,
    outside: Option<(Seq<char>, Seq<Seq<char>>)>,
    r: Option<ContextView>,
) -> bool {
    match position_index(cs, position) {
        None => r is None,
        Some(k) => match syntax {
            None => r == fallback_context(cs, k, doc, allow_empty_token, outside),
            Some((lang, history)) => {
                let fallback = fallback_context(cs, k, doc, allow_empty_token, outside);
                exists|quoted: Seq<CapturedNode>|
                    captures_of(quoted, history, cs, k, lang, quoted_query_text(lang)) && match #[trigger] capture_context(
                        cs,
                        k,
                        quoted,
                        lang,
                        CompletionTrigger::QuotedString,
                        allow_empty_token,
                        doc,
                    ) {
                        Some(c) => r == Some(c),
                        None => match bare_query_text(lang) {
                            Some(q) => exists|bare: Seq<CapturedNode>|
                                captures_of(bare, history, cs, k, lang, q) && r == #[trigger] bare_or_fallback(
                                    cs,
                                    k,
                                    lang,
                                    bare,
                                    allow_empty_token,
                                    doc,
                                    fallback,
                                ),
                            None => r == fallback,
                        },
                    }
            },
        },
    }
}

/// The language and the parses of a syntax snapshot.
pub open spec fn snapshot_language(syntax: Option<&SyntaxSnapshot>) -> Option<(LanguageKind, Seq<ParseStep>)> {
    match syntax {
        Some(s) => Some((s.kind(), s.history())),
        None => None,
    }
}

/// The context from one query over the snapshot's tree: the captures it returns are
/// modelled and handed to [`context_from_captures`].
fn extract_context_from_query(
    chars: &Vec<char>,
    cursor: usize,
    cursor_byte: usize,
    text: &str,
    text_len: usize,
    snapshot: &SyntaxSnapshot,
    query_source: &str,
    trigger: CompletionTrigger,
    allow_empty_token: bool,
    document_path: Option<&String>,
) -> (r: Option<CompletionContext>)
    requires
        positions_fit(chars@),
        cursor <= chars@.len(),
        cursor_byte == byte_offset(chars@, cursor as int),
        text_len == utf8_len(chars@),
        text@ == chars@,
    ensures
        exists|caps: Seq<CapturedNode>|
            captures_of(caps, snapshot.history(), chars@, cursor as int, snapshot.kind(), query_source@)
                && opt_context_view(r) == #[trigger] capture_context(
                chars@,
                cursor as int,
                caps,
                snapshot.kind(),
                trigger,
                allow_empty_token,
                doc_view(document_path),
            ),
{
    let range_start = if cursor_byte > 0 {
        cursor_byte - 1
    } else {
        0
    };
    let range_end = if cursor_byte < text_len {
        cursor_byte + 1
    } else {
        text_len
    };
    let caps = snapshot_captures(snapshot, query_source, text, range_start, range_end);
    let r = context_from_captures(
        chars,
        cursor,
        cursor_byte,
        text_len,
        &caps,
        snapshot.language_kind(),
        trigger,
        allow_empty_token,
        document_path,
    );
    assert(captures_of(caps@, snapshot.history(), chars@, cursor as int, snapshot.kind(), query_source@));
    r
}

/// The completion context at `position`: the smallest quoted-string node holding the
/// cursor that yields one, else the smallest bare-token node (for the languages that
/// have them), else the lexical fallback when `outside_strings` configures it. `None`
/// when the position is not in the text. What the syntax tree captures is tree-sitter's
/// ([`captured_nodes`]).
pub fn extract_completion_context(
    text: &str,
    position: Position,
    syntax: Option<&SyntaxSnapshot>,
    document_path: Option<&String>,
    allow_empty_token: bool,
    mapping_keys: &[String],
    outside_strings: Option<&OutsideStringsConfig>,
) -> (r: Option<CompletionContext>)
    requires
        positions_fit(text@),
    ensures
        extracted_context(
            text@,
            position,
            snapshot_language(syntax),
            doc_view(document_path),
            allow_empty_token,
            outside_view(outside_strings),
            opt_context_view(r),
        ),
{
    let total = str_byte_len(text);
    let chars = to_chars(text);
    let (cursor, cursor_byte) = match locate_position(&chars, total, position) {
        Some(found) => found,
        None => {
            proof {
                if position_index(text@, position) is Some {
                    let k = choose|k: int|
                        first_at_position(text@, k, position.line as int, position.character as int);
                    lemma_position_index(text@, k, position);
                }
            }
            return None;
        },
    };
    proof {
        lemma_position_index(text@, cursor as int, position);
    }
    let ghost doc = doc_view(document_path);
    let ghost fallback = fallback_context(text@, cursor as int, doc, allow_empty_token, outside_view(outside_strings));
    match syntax {
        Some(snapshot) => {
            let lang = snapshot.language_kind();
            let profile = language_profile_for_kind(lang);
            let quoted = extract_context_from_query(
                &chars,
                cursor,
                cursor_byte,
                text,
                total,
                snapshot,
                profile.quoted_query,
                CompletionTrigger::QuotedString,
                allow_empty_token,
                document_path,
            );
            let ghost qcaps = choose|caps: Seq<CapturedNode>|
                captures_of(caps, snapshot.history(), chars@, cursor as int, lang, profile.quoted_query@)
                    && opt_context_view(quoted) == #[trigger] capture_context(
                    text@,
                    cursor as int,
                    caps,
                    lang,
                    CompletionTrigger::QuotedString,
                    allow_empty_token,
                    doc,
                );
            if quoted.is_some() {
                return quoted;
            }
            match profile.bare_query {
                Some(bare_query) => {
                    let bare = extract_context_from_query(
                        &chars,
                        cursor,
                        cursor_byte,
                        text,
                        total,
                        snapshot,
                        bare_query,
                        CompletionTrigger::BareToken,
                        allow_empty_token,
                        document_path,
                    );
                    let ghost bcaps = choose|caps: Seq<CapturedNode>|
                        captures_of(caps, snapshot.history(), chars@, cursor as int, lang, bare_query@)
                            && opt_context_view(bare) == #[trigger] capture_context(
                            text@,
                            cursor as int,
                            caps,
                            lang,
                            CompletionTrigger::BareToken,
                            allow_empty_token,
                            doc,
                        );
                    if bare.is_some() {
                        assert(bare_or_fallback(text@, cursor as int, lang, bcaps, allow_empty_token, doc, fallback)
                            == opt_context_view(bare));
                        return bare;
                    }
                    let r = match outside_strings {
                        Some(o) => extract_outside_string_context(&chars, cursor, document_path, allow_empty_token, o),
                        None => None,
                    };
                    assert(bare_or_fallback(text@, cursor as int, lang, bcaps, allow_empty_token, doc, fallback)
                        == opt_context_view(r));
                    r
                },
                None => {
                    let r = match outside_strings {
                        Some(o) => extract_outside_string_context(&chars, cursor, document_path, allow_empty_token, o),
                        None => None,
                    };
                    r
                },
            }
        },
        None => match outside_strings {
            Some(o) => extract_outside_string_context(&chars, cursor, document_path, allow_empty_token, o),
            None => None,
        },
    }
}

/// What every completion context at character index `k` is: its raw token is the text
/// just before the cursor (empty only where allowed), it keeps the document path, its
/// replacement range ends at the cursor, and its insert prefix and prefix are the
/// token's parts.
pub open spec fn context_shape(
    cs: Seq<char>,
    k: int,
    allow_empty_token: bool,
    doc: Option<Seq<char>>,
    c: ContextView,
) -> bool {
    &&& exists|s: int| 0 <= s <= k && c.raw_token == #[trigger] cs.subrange(s, k)
    &&& c.raw_token.len() == 0 ==> allow_empty_token
    &&& c.document_path == doc
    &&& c.replacement_range.end == position_at(cs, k)
    &&& c.insert_prefix == token_parts(c.raw_token).0
    &&& c.prefix == token_parts(c.raw_token).1
}

proof fn lemma_context_at_shape(
    cs: Seq<char>,
    s: int,
    k: int,
    trigger: CompletionTrigger,
    allow_empty_token: bool,
    doc: Option<Seq<char>>,
)
    ensures
        context_at(cs, s, k, trigger, allow_empty_token, doc) matches Some(c) ==> context_shape(
            cs,
            k,
            allow_empty_token,
            doc,
            c,
        ),
{
    if let Some(c) = context_at(cs, s, k, trigger, allow_empty_token, doc) {
        assert(c.raw_token == cs.subrange(s, k));
    }
}

proof fn lemma_node_context_shape(
    cs: Seq<char>,
    k: int,
    n: CapturedNode,
    lang: LanguageKind,
    trigger: CompletionTrigger,
    allow_empty_token: bool,
    doc: Option<Seq<char>>,
)
    ensures
        node_context(cs, k, n, lang, trigger, allow_empty_token, doc) matches Some(c) ==> context_shape(
            cs,
            k,
            allow_empty_token,
            doc,
            c,
        ),
{
    let cb = byte_offset(cs, k) as int;
    match trigger {
        CompletionTrigger::QuotedString => {
            if let (Some(si), Some(ei)) = (char_index_at_byte(cs, n.start as int), char_index_at_byte(cs, n.end as int)) {
                if let Some((open, close)) = delimiter_lengths(lang, n.kind@, cs.subrange(si, ei)) {
                    if let Some(ts) = char_index_at_byte(cs, n.start + open) {
                        lemma_context_at_shape(cs, ts, k, CompletionTrigger::QuotedString, allow_empty_token, doc);
                    }
                }
            }
        },
        CompletionTrigger::BareToken => {
            if let Some(ts) = char_index_at_byte(cs, n.start as int) {
                lemma_context_at_shape(cs, ts, k, CompletionTrigger::BareToken, allow_empty_token, doc);
            }
        },
        CompletionTrigger::OutsideString => {},
    }
}

proof fn lemma_capture_context_shape(
    cs: Seq<char>,
    k: int,
    caps: Seq<CapturedNode>,
    lang: LanguageKind,
    trigger: CompletionTrigger,
    allow_empty_token: bool,
    doc: Option<Seq<char>>,
)
    ensures
        capture_context(cs, k, caps, lang, trigger, allow_empty_token, doc) matches Some(c) ==> context_shape(
            cs,
            k,
            allow_empty_token,
            doc,
            c,
        ),
{
    if exists|i: int| is_best(cs, k, caps, i, lang, trigger, allow_empty_token, doc) {
        let i = choose|i: int| is_best(cs, k, caps, i, lang, trigger, allow_empty_token, doc);
        lemma_node_context_shape(cs, k, caps[i], lang, trigger, allow_empty_token, doc);
    }
}

proof fn lemma_fallback_shape(
    cs: Seq<char>,
    k: int,
    doc: Option<Seq<char>>,
    allow_empty_token: bool,
    outside: Option<(Seq<char>, Seq<Seq<char>>)>,
)
    ensures
        fallback_context(cs, k, doc, allow_empty_token, outside) matches Some(c) ==> context_shape(
            cs,
            k,
            allow_empty_token,
            doc,
            c,
        ),
{
    if let Some((separators, keys)) = outside {
        if 0 <= k <= cs.len() {
            let start = outside_token_start_spec(cs, k, separators);
            lemma_context_at_shape(cs, start, k, CompletionTrigger::OutsideString, allow_empty_token, doc);
        }
    }
}

/// A context [`extract_completion_context`] gives sits at the requested position: the
/// position is in the text, the raw token is the text just before it (empty only where
/// allowed), the document path is the one given, the replacement range ends at the
/// position, and the insert prefix and prefix are the token's parts (`~/` and an empty
/// prefix for a lone `~`, else the part after the token's last `/`).
pub proof fn lemma_extracted_context_shape(
    cs: Seq<char>,
    position: Position,
    syntax: Option<(LanguageKind, Seq<ParseStep>)>,
    doc: Option<Seq<char>>,
    allow_empty_token: bool,
    outside: Option<(Seq<char>, Seq<Seq<char>>)>,
    c: ContextView,
)
    requires
        extracted_context(cs, position, syntax, doc, allow_empty_token, outside, Some(c)),
    ensures
        position_index(cs, position) matches Some(k) && context_shape(cs, k, allow_empty_token, doc, c),
        c.replacement_range.end == position,
{
    let k = position_index(cs, position)->0;
    let i = choose|i: int| first_at_position(cs, i, position.line as int, position.character as int);
    assert(at_position(cs, k, position.line as int, position.character as int));
    lemma_fallback_shape(cs, k, doc, allow_empty_token, outside);
    if let Some((lang, history)) = syntax {
        let quoted = choose|quoted: Seq<CapturedNode>|
            captures_of(quoted, history, cs, k, lang, quoted_query_text(lang)) && match #[trigger] capture_context(
                cs,
                k,
                quoted,
                lang,
                CompletionTrigger::QuotedString,
                allow_empty_token,
                doc,
            ) {
                Some(c2) => Some(c) == Some(c2),
                None => match bare_query_text(lang) {
                    Some(q) => exists|bare: Seq<CapturedNode>|
                        captures_of(bare, history, cs, k, lang, q) && Some(c) == #[trigger] bare_or_fallback(
                            cs,
                            k,
                            lang,
                            bare,
                            allow_empty_token,
                            doc,
                            fallback_context(cs, k, doc, allow_empty_token, outside),
                        ),
                    None => Some(c) == fallback_context(cs, k, doc, allow_empty_token, outside),
                },
            };
        lemma_capture_context_shape(cs, k, quoted, lang, CompletionTrigger::QuotedString, allow_empty_token, doc);
        if capture_context(cs, k, quoted, lang, CompletionTrigger::QuotedString, allow_empty_token, doc) is None {
            if let Some(q) = bare_query_text(lang) {
                let bare = choose|bare: Seq<CapturedNode>|
                    captures_of(bare, history, cs, k, lang, q) && Some(c) == #[trigger] bare_or_fallback(
                        cs,
                        k,
                        lang,
                        bare,
                        allow_empty_token,
                        doc,
                        fallback_context(cs, k, doc, allow_empty_token, outside),
                    );
                lemma_capture_context_shape(cs, k, bare, lang, CompletionTrigger::BareToken, allow_empty_token, doc);
            }
        }
    }
}

/// Where the syntax tree was parsed from the text itself (or there is none), the text,
/// position, settings and captures tree-sitter gives decide the context: two results
/// that [`extracted_context`] allows are equal.
pub proof fn lemma_extracted_context_unique(
    cs: Seq<char>,
    position: Position,
    syntax: Option<(LanguageKind, Seq<ParseStep>)>,
    doc: Option<Seq<char>>,
    allow_empty_token: bool,
    outside: Option<(Seq<char>, Seq<Seq<char>>)>,
    r1: Option<ContextView>,
    r2: Option<ContextView>,
)
    requires
        syntax matches Some((lang, history)) ==> history.len() > 0 && history.last().0 == cs,
        extracted_context(cs, position, syntax, doc, allow_empty_token, outside, r1),
        extracted_context(cs, position, syntax, doc, allow_empty_token, outside, r2),
    ensures
        r1 == r2,
{
    if let Some(k) = position_index(cs, position) {
        if let Some((lang, history)) = syntax {
            let fallback = fallback_context(cs, k, doc, allow_empty_token, outside);
            let q1 = choose|quoted: Seq<CapturedNode>|
                captures_of(quoted, history, cs, k, lang, quoted_query_text(lang)) && match #[trigger] capture_context(
                    cs,
                    k,
                    quoted,
                    lang,
                    CompletionTrigger::QuotedString,
                    allow_empty_token,
                    doc,
                ) {
                    Some(c) => r1 == Some(c),
                    None => match bare_query_text(lang) {
                        Some(q) => exists|bare: Seq<CapturedNode>|
                            captures_of(bare, history, cs, k, lang, q) && r1 == #[trigger] bare_or_fallback(
                                cs,
                                k,
                                lang,
                                bare,
                                allow_empty_token,
                                doc,
                                fallback,
                            ),
                        None => r1 == fallback,
                    },
                };
            let q2 = choose|quoted: Seq<CapturedNode>|
                captures_of(quoted, history, cs, k, lang, quoted_query_text(lang)) && match #[trigger] capture_context(
                    cs,
                    k,
                    quoted,
                    lang,
                    CompletionTrigger::QuotedString,
                    allow_empty_token,
                    doc,
                ) {
                    Some(c) => r2 == Some(c),
                    None => match bare_query_text(lang) {
                        Some(q) => exists|bare: Seq<CapturedNode>|
                            captures_of(bare, history, cs, k, lang, q) && r2 == #[trigger] bare_or_fallback(
                                cs,
                                k,
                                lang,
                                bare,
                                allow_empty_token,
                                doc,
                                fallback,
                            ),
                        None => r2 == fallback,
                    },
                };
            lemma_capture_context_by_view(cs, k, q1, q2, lang, CompletionTrigger::QuotedString, allow_empty_token, doc);
            if capture_context(cs, k, q1, lang, CompletionTrigger::QuotedString, allow_empty_token, doc) is None {
                if let Some(q) = bare_query_text(lang) {
                    let b1 = choose|bare: Seq<CapturedNode>|
                        captures_of(bare, history, cs, k, lang, q) && r1 == #[trigger] bare_or_fallback(
                            cs,
                            k,
                            lang,
                            bare,
                            allow_empty_token,
                            doc,
                            fallback,
                        );
                    let b2 = choose|bare: Seq<CapturedNode>|
                        captures_of(bare, history, cs, k, lang, q) && r2 == #[trigger] bare_or_fallback(
                            cs,
                            k,
                            lang,
                            bare,
                            allow_empty_token,
                            doc,
                            fallback,
                        );
                    lemma_capture_context_by_view(cs, k, b1, b2, lang, CompletionTrigger::BareToken, allow_empty_token, doc);
                }
            }
        }
    }
}

} // verus!

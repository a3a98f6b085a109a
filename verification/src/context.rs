//! Completion contexts: where the path token under the cursor starts, what it is,
//! and which part of it a completion replaces.
use crate::chars::{to_chars, utf8_len};
use crate::strs::{
    last_index_of, lemma_last_index_of, starts_with, subvec, trim_end, trim_end_vec, vec_contains,
    vec_eq, vec_last_index_of, vec_starts_with,
};
use crate::text::{position_at, positions_fit, Range};
use vstd::prelude::*;

verus! {

/// How the token under the cursor was found.
#[derive(Clone, Copy, Debug, PartialEq, Eq, Structural)]
pub enum CompletionTrigger {
    QuotedString,
    BareToken,
    OutsideString,
}

/// The path token under the cursor and how a completion should replace it.
#[derive(Clone, Debug)]
pub struct CompletionContext {
    pub trigger: CompletionTrigger,
    pub allow_empty_token: bool,
    pub document_path: Option<String>,
    pub raw_token: String,
    pub line_prefix: String,
    pub insert_prefix: String,
    pub replacement_range: Range,
    pub prefix: String,
}

/// Lexical fallback used when no syntax node holds the cursor.
pub struct OutsideStringsConfig<'a> {
    pub path_separators: &'a str,
    pub mapping_keys: &'a [String],
}

/// The abstract content of a [`CompletionContext`].
pub struct ContextView {
    pub trigger: CompletionTrigger,
    pub allow_empty_token: bool,
    pub document_path: Option<Seq<char>>,
    pub raw_token: Seq<char>,
    pub line_prefix: Seq<char>,
    pub insert_prefix: Seq<char>,
    pub replacement_range: Range,
    pub prefix: Seq<char>,
}

pub open spec fn opt_string_view(s: Option<String>) -> Option<Seq<char>> {
    match s {
        Some(s) => Some(s@),
        None => None,
    }
}

impl View for CompletionContext {
    type V = ContextView;

    open spec fn view(&self) -> ContextView {
        ContextView {
            trigger: self.trigger,
            allow_empty_token: self.allow_empty_token,
            document_path: opt_string_view(self.document_path),
            raw_token: self.raw_token@,
            line_prefix: self.line_prefix@,
            insert_prefix: self.insert_prefix@,
            replacement_range: self.replacement_range,
            prefix: self.prefix@,
        }
    }
}

pub open spec fn opt_context_view(c: Option<CompletionContext>) -> Option<ContextView> {
    match c {
        Some(c) => Some(c@),
        None => None,
    }
}

pub open spec fn keys_view(keys: Seq<String>) -> Seq<Seq<char>> {
    keys.map_values(|k: String| k@)
}

/// The text a completion inserts before the chosen name, the part of the token the
/// name must match, and how many characters of the token stay untouched.
pub open spec fn token_parts(token: Seq<char>) -> (Seq<char>, Seq<char>, int) {
    if token == seq!['~'] {
        (seq!['~', '/'], Seq::<char>::empty(), 0)
    } else {
        match last_index_of(token, '/') {
            Some(i) => (Seq::<char>::empty(), token.skip(i + 1), i + 1),
            None => (Seq::<char>::empty(), token, 0),
        }
    }
}

/// Index where the line holding character index `i` starts.
pub open spec fn line_start(cs: Seq<char>, i: int) -> int {
    match last_index_of(cs.take(i), '\n') {
        Some(j) => j + 1,
        None => 0,
    }
}

/// The context for the token spanning character indices `token_start..cursor`.
pub open spec fn context_at(
    cs: Seq<char>,
    token_start: int,
    cursor: int,
    trigger: CompletionTrigger,
    allow_empty_token: bool,
    document_path: Option<Seq<char>>,
) -> Option<ContextView> {
    if !(0 <= token_start <= cursor <= cs.len()) {
        None
    } else {
        let token = cs.subrange(token_start, cursor);
        if token.len() == 0 && !allow_empty_token {
            None
        } else {
            let parts = token_parts(token);
            Some(
                ContextView {
                    trigger,
                    allow_empty_token,
                    document_path,
                    raw_token: token,
                    line_prefix: cs.subrange(line_start(cs, token_start), token_start),
                    insert_prefix: parts.0,
                    replacement_range: Range {
                        start: position_at(cs, token_start + parts.2),
                        end: position_at(cs, cursor),
                    },
                    prefix: parts.1,
                },
            )
        }
    }
}

/// A mapping key without its trailing slashes (`/` itself stays `/`).
pub open spec fn normalized_key(key: Seq<char>) -> Seq<char> {
    if key == seq!['/'] {
        key
    } else {
        trim_end(key, '/')
    }
}

/// The token names the mapping key itself or a path below it.
pub open spec fn token_uses_key(key: Seq<char>, token: Seq<char>) -> bool {
    let key = normalized_key(key);
    ||| token == key
    ||| if key == seq!['/'] {
        starts_with(token, seq!['/'])
    } else {
        starts_with(token, key) && token.len() > key.len() && token[key.len() as int] == '/'
    }
}

/// The token looks like a path: rooted, relative, home-based, containing a slash,
/// or naming a mapping key.
pub open spec fn path_like(token: Seq<char>, keys: Seq<Seq<char>>) -> bool {
    ||| starts_with(token, seq!['.', '/'])
    ||| starts_with(token, seq!['.', '.', '/'])
    ||| starts_with(token, seq!['/'])
    ||| token == seq!['~']
    ||| starts_with(token, seq!['~', '/'])
    ||| token.contains('/')
    ||| exists|k: int| 0 <= k < keys.len() && token_uses_key(#[trigger] keys[k], token)
}

/// The token is a non-empty proper beginning of the mapping key, so the key itself
/// can be offered as a completion.
pub open spec fn key_extends_token(key: Seq<char>, token: Seq<char>) -> bool {
    token.len() > 0 && token.len() < key.len() && starts_with(key, token)
}

pub open spec fn is_outside_separator(c: char, separators: Seq<char>) -> bool {
    c == '\n' || separators.contains(c)
}

/// Index of the last separator in `s`.
pub open spec fn last_separator(s: Seq<char>, separators: Seq<char>) -> Option<int>
    decreases s.len(),
{
    if s.len() == 0 {
        None
    } else if is_outside_separator(s.last(), separators) {
        Some(s.len() - 1)
    } else {
        last_separator(s.drop_last(), separators)
    }
}

/// Start of the lexical token that ends at the cursor.
pub open spec fn outside_token_start_spec(cs: Seq<char>, cursor: int, separators: Seq<char>) -> int {
    match last_separator(cs.take(cursor), separators) {
        Some(j) => j + 1,
        None => 0,
    }
}

/// The lexical fallback context at the cursor.
pub open spec fn outside_context(
    cs: Seq<char>,
    cursor: int,
    document_path: Option<Seq<char>>,
    allow_empty_token: bool,
    separators: Seq<char>,
    keys: Seq<Seq<char>>,
) -> Option<ContextView> {
    if !(0 <= cursor <= cs.len()) {
        None
    } else {
        let start = outside_token_start_spec(cs, cursor, separators);
        let token = cs.subrange(start, cursor);
        if token.len() == 0 && !allow_empty_token {
            None
        } else if !path_like(token, keys) {
            None
        } else {
            context_at(cs, start, cursor, CompletionTrigger::OutsideString, allow_empty_token, document_path)
        }
    }
}

/// The name part of a token holds no slash and, with the part before it, makes up
/// the token; the part before ends with the token's last slash.
pub proof fn lemma_token_parts(token: Seq<char>)
    ensures
        ({
            let parts = token_parts(token);
            &&& 0 <= parts.2 <= token.len()
            &&& !parts.1.contains('/')
            &&& token != seq!['~'] ==> parts.0.len() == 0 && token.take(parts.2) + parts.1 == token
            &&& parts.2 > 0 ==> token[parts.2 - 1] == '/'
        }),
{
    lemma_last_index_of(token, '/');
    if token != seq!['~'] {
        let parts = token_parts(token);
        assert(token.take(parts.2) + parts.1 =~= token);
    }
}

/// Executable form of [`token_parts`].
pub fn split_token_for_completion(token: &Vec<char>) -> (r: (Vec<char>, Vec<char>, usize))
    ensures
        r.0@ == token_parts(token@).0,
        r.1@ == token_parts(token@).1,
        r.2 as int == token_parts(token@).2,
        0 <= token_parts(token@).2 <= token@.len(),
{
    if token.len() == 1 && token[0] == '~' {
        assert(token@ =~= seq!['~']);
        let mut insert: Vec<char> = Vec::new();
        insert.push('~');
        insert.push('/');
        assert(insert@ =~= seq!['~', '/']);
        return (insert, Vec::new(), 0);
    }
    assert(token@ != seq!['~']);
    proof {
        lemma_last_index_of(token@, '/');
    }
    match vec_last_index_of(token, '/') {
        Some(i) => {
            let prefix = subvec(token, i + 1, token.len());
            assert(prefix@ =~= token@.skip(i + 1));
            (Vec::new(), prefix, i + 1)
        },
        None => {
            let prefix = subvec(token, 0, token.len());
            assert(prefix@ =~= token@);
            (Vec::new(), prefix, 0)
        },
    }
}

/// Executable form of [`normalized_key`].
pub fn normalize_mapping_key(key: &Vec<char>) -> (r: Vec<char>)
    ensures
        r@ == normalized_key(key@),
{
    if key.len() == 1 && key[0] == '/' {
        assert(key@ =~= seq!['/']);
        subvec(key, 0, 1)
    } else {
        assert(key@ != seq!['/']);
        trim_end_vec(key, '/')
    }
}

fn literal(s: &str) -> (r: Vec<char>)
    ensures
        r@ == s@,
{
    to_chars(s)
}

fn token_uses_key_exec(key: &Vec<char>, token: &Vec<char>) -> (r: bool)
    ensures
        r == token_uses_key(key@, token@),
{
    let key = normalize_mapping_key(key);
    if vec_eq(token, &key) {
        return true;
    }
    if key.len() == 1 && key[0] == '/' {
        assert(key@ =~= seq!['/']);
        let r = token.len() > 0 && token[0] == '/';
        proof {
            if r {
                assert(token@.take(1) =~= seq!['/']);
            } else if starts_with(token@, seq!['/']) {
                assert(token@.take(1)[0] == '/');
            }
        }
        r
    } else {
        assert(key@ != seq!['/']);
        vec_starts_with(token, &key) && token.len() > key.len() && token[key.len()] == '/'
    }
}

/// Executable form of [`path_like`].
pub fn path_like_token_is_supported(token: &Vec<char>, mapping_keys: &[String]) -> (r: bool)
    ensures
        r == path_like(token@, keys_view(mapping_keys@)),
{
    let ghost t = token@;
    if token.len() >= 2 && token[0] == '.' && token[1] == '/' {
        assert(t.take(2) =~= seq!['.', '/']);
        return true;
    }
    assert(!starts_with(t, seq!['.', '/'])) by {
        if starts_with(t, seq!['.', '/']) {
            assert(t.take(2)[0] == '.' && t.take(2)[1] == '/');
        }
    }
    if token.len() >= 3 && token[0] == '.' && token[1] == '.' && token[2] == '/' {
        assert(t.take(3) =~= seq!['.', '.', '/']);
        return true;
    }
    assert(!starts_with(t, seq!['.', '.', '/'])) by {
        if starts_with(t, seq!['.', '.', '/']) {
            assert(t.take(3)[0] == '.' && t.take(3)[1] == '.' && t.take(3)[2] == '/');
        }
    }
    if token.len() >= 1 && token[0] == '/' {
        assert(t.take(1) =~= seq!['/']);
        return true;
    }
    assert(!starts_with(t, seq!['/'])) by {
        if starts_with(t, seq!['/']) {
            assert(t.take(1)[0] == '/');
        }
    }
    if token.len() == 1 && token[0] == '~' {
        assert(t =~= seq!['~']);
        return true;
    }
    if token.len() >= 2 && token[0] == '~' && token[1] == '/' {
        assert(t.take(2) =~= seq!['~', '/']);
        return true;
    }
    assert(!starts_with(t, seq!['~', '/'])) by {
        if starts_with(t, seq!['~', '/']) {
            assert(t.take(2)[0] == '~' && t.take(2)[1] == '/');
        }
    }
    if vec_contains(token, '/') {
        return true;
    }
    let ghost keys = keys_view(mapping_keys@);
    let mut i: usize = 0;
    while i < mapping_keys.len()
        invariant
            keys == keys_view(mapping_keys@),
            i <= mapping_keys@.len(),
            forall|k: int| 0 <= k < i ==> !token_uses_key(#[trigger] keys[k], t),
            t == token@,
        decreases mapping_keys@.len() - i,
    {
        let key = to_chars(mapping_keys[i].as_str());
        if token_uses_key_exec(&key, token) {
            assert(token_uses_key(keys[i as int], t));
            return true;
        }
        i = i + 1;
    }
    false
}

/// Executable form of [`key_extends_token`].
pub fn mapping_key_supports_prefix_completion(key: &Vec<char>, token: &Vec<char>) -> (r: bool)
    ensures
        r == key_extends_token(key@, token@),
{
    token.len() > 0 && token.len() < key.len() && vec_starts_with(key, token)
}

/// Builds the context for the token spanning character indices `token_start..cursor`.
pub fn build_context(
    chars: &Vec<char>,
    cursor: usize,
    document_path: Option<&String>,
    token_start: usize,
    trigger: CompletionTrigger,
    allow_empty_token: bool,
) -> (r: Option<CompletionContext>)
    requires
        positions_fit(chars@),
    ensures
        opt_context_view(r) == context_at(
            chars@,
            token_start as int,
            cursor as int,
            trigger,
            allow_empty_token,
            match document_path {
                Some(p) => Some(p@),
                None => None,
            },
        ),
{
    if !(token_start <= cursor && cursor <= chars.len()) {
        return None;
    }
    let token = subvec(chars, token_start, cursor);
    if token.len() == 0 && !allow_empty_token {
        return None;
    }
    let (insert_prefix, prefix, offset) = split_token_for_completion(&token);
    let replacement_start = token_start + offset;
    let range = Range::new(
        crate::text::position_at_index(chars, replacement_start),
        crate::text::position_at_index(chars, cursor),
    );
    let head = subvec(chars, 0, token_start);
    proof {
        lemma_last_index_of(head@, '\n');
    }
    let line_begin = match vec_last_index_of(&head, '\n') {
        Some(j) => j + 1,
        None => 0,
    };
    let line_prefix = subvec(chars, line_begin, token_start);
    let path = match document_path {
        Some(p) => Some(p.clone()),
        None => None,
    };
    Some(
        CompletionContext {
            trigger,
            allow_empty_token,
            document_path: path,
            raw_token: crate::chars::string_from_chars(token.as_slice()),
            line_prefix: crate::chars::string_from_chars(line_prefix.as_slice()),
            insert_prefix: crate::chars::string_from_chars(insert_prefix.as_slice()),
            replacement_range: range,
            prefix: crate::chars::string_from_chars(prefix.as_slice()),
        },
    )
}

/// Start (character index) of the lexical token that ends at `cursor`.
pub fn outside_token_start(chars: &Vec<char>, cursor: usize, separators: &Vec<char>) -> (r: Option<usize>)
    ensures
        r == if cursor <= chars@.len() {
            Some(outside_token_start_spec(chars@, cursor as int, separators@) as usize)
        } else {
            None::<usize>
        },
        r matches Some(s) ==> s <= cursor && s as int == outside_token_start_spec(
            chars@,
            cursor as int,
            separators@,
        ),
{
    if cursor > chars.len() {
        return None;
    }
    let ghost cs = chars@;
    let mut i: usize = cursor;
    proof {
        assert(cs.take(cursor as int).take(cursor as int) =~= cs.take(cursor as int));
    }
    while i > 0
        invariant
            cs == chars@,
            i <= cursor <= cs.len(),
            last_separator(cs.take(i as int), separators@) == last_separator(
                cs.take(cursor as int),
                separators@,
            ),
        decreases i,
    {
        let c = chars[i - 1];
        if c == '\n' || vec_contains(separators, c) {
            assert(cs.take(i as int).last() == c);
            return Some(i);
        }
        assert(cs.take(i as int).drop_last() =~= cs.take(i - 1));
        i = i - 1;
    }
    Some(0)
}

/// The lexical fallback context; `None` when the token is empty (and empty tokens
/// are not allowed) or does not look like a path.
pub fn build_outside_context(
    chars: &Vec<char>,
    cursor: usize,
    document_path: Option<&String>,
    token_start: usize,
    allow_empty_token: bool,
    mapping_keys: &[String],
) -> (r: Option<CompletionContext>)
    requires
        positions_fit(chars@),
        token_start <= cursor <= chars@.len(),
    ensures
        opt_context_view(r) == {
            let token = chars@.subrange(token_start as int, cursor as int);
            if token.len() == 0 && !allow_empty_token {
                None
            } else if !path_like(token, keys_view(mapping_keys@)) {
                None
            } else {
                context_at(
                    chars@,
                    token_start as int,
                    cursor as int,
                    CompletionTrigger::OutsideString,
                    allow_empty_token,
                    match document_path {
                        Some(p) => Some(p@),
                        None => None,
                    },
                )
            }
        },
{
    let token = subvec(chars, token_start, cursor);
    if token.len() == 0 && !allow_empty_token {
        return None;
    }
    if !path_like_token_is_supported(&token, mapping_keys) {
        return None;
    }
    build_context(chars, cursor, document_path, token_start, CompletionTrigger::OutsideString, allow_empty_token)
}

/// The lexical fallback at the cursor, with tokens separated by line breaks and the
/// configured separators.
pub fn extract_outside_string_context(
    chars: &Vec<char>,
    cursor: usize,
    document_path: Option<&String>,
    allow_empty_token: bool,
    outside_strings: &OutsideStringsConfig,
) -> (r: Option<CompletionContext>)
    requires
        positions_fit(chars@),
    ensures
        opt_context_view(r) == outside_context(
            chars@,
            cursor as int,
            match document_path {
                Some(p) => Some(p@),
                None => None,
            },
            allow_empty_token,
            outside_strings.path_separators@,
            keys_view(outside_strings.mapping_keys@),
        ),
{
    let separators = literal(outside_strings.path_separators);
    let token_start = outside_token_start(chars, cursor, &separators)?;
    build_outside_context(
        chars,
        cursor,
        document_path,
        token_start,
        allow_empty_token,
        outside_strings.mapping_keys,
    )
}

} // verus!

//! Language rules: which string nodes hold paths, how long their delimiters are,
//! which child nodes make the text before the cursor dynamic, and which bare tokens
//! count as paths.
use crate::chars::{char_utf8_width, to_chars, utf8_len, utf8_width};
use crate::strs::{ends_with, starts_with, vec_contains, vec_ends_with, vec_eq};
use vstd::prelude::*;

verus! {

/// The languages with a syntax tree.
#[derive(Clone, Copy, Debug, PartialEq, Eq, Structural)]
pub enum LanguageKind {
    JavaScript,
    TypeScript,
    Tsx,
    Python,
    Rust,
    Go,
    Nix,
    Toml,
    Yaml,
    Json,
    ShellScript,
}

/// Opening and closing delimiter byte lengths when `t` ends with `closing` and is long
/// enough to hold both delimiters.
pub open spec fn delimited(t: Seq<char>, opening: int, closing: Seq<char>) -> Option<(int, int)> {
    if utf8_len(t) < opening + utf8_len(closing) || !ends_with(t, closing) {
        None
    } else {
        Some((opening, utf8_len(closing) as int))
    }
}

/// A string delimited by its own one-byte first character.
pub open spec fn quoted(t: Seq<char>) -> Option<(int, int)> {
    if t.len() >= 1 && utf8_width(t[0]) == 1 {
        delimited(t, 1, seq![t[0]])
    } else {
        None
    }
}

/// Index of the first character of `t` that satisfies `quote_char`.
pub open spec fn first_quote(t: Seq<char>, double_only: bool) -> Option<int>
    decreases t.len(),
{
    if t.len() == 0 {
        None
    } else if t[0] == '"' || (!double_only && t[0] == '\'') {
        Some(0)
    } else {
        match first_quote(t.drop_first(), double_only) {
            Some(i) => Some(i + 1),
            None => None,
        }
    }
}

pub open spec fn repeat_char(c: char, n: nat) -> Seq<char> {
    Seq::new(n, |i: int| c)
}

/// Python strings: optional prefix letters, then one or three quote characters.
pub open spec fn python_delimiters(t: Seq<char>) -> Option<(int, int)> {
    match first_quote(t, false) {
        Some(q) => {
            let quote = t[q];
            let triple = t.len() - q > 2 && t[q + 1] == quote && t[q + 2] == quote;
            let quote_len: nat = if triple {
                3
            } else {
                1
            };
            delimited(t, (utf8_len(t.take(q)) + quote_len) as int, repeat_char(quote, quote_len))
        },
        None => None,
    }
}

/// Rust raw strings: `r`, some `#`, a quote; closed by a quote and as many `#`.
pub open spec fn rust_raw_delimiters(t: Seq<char>) -> Option<(int, int)> {
    match first_quote(t, true) {
        Some(q) => {
            let before = utf8_len(t.take(q));
            if before < 1 {
                None
            } else {
                delimited(t, (before + 1) as int, seq!['"'] + repeat_char('#', (before - 1) as nat))
            }
        },
        None => None,
    }
}

/// Shell `$"..."` and `$'...'` strings: the quote is the second byte.
pub open spec fn shell_prefixed_delimiters(t: Seq<char>) -> Option<(int, int)> {
    if t.len() >= 2 && utf8_width(t[0]) == 1 && utf8_width(t[1]) == 1 {
        delimited(t, 2, seq![t[1]])
    } else {
        None
    }
}

/// Opening and closing delimiter byte lengths of a string node of the given kind.
pub open spec fn delimiter_lengths(lang: LanguageKind, kind: Seq<char>, t: Seq<char>) -> Option<(int, int)> {
    match lang {
        LanguageKind::JavaScript | LanguageKind::TypeScript | LanguageKind::Tsx => {
            if kind == "string"@ {
                quoted(t)
            } else if kind == "template_string"@ {
                delimited(t, 1, seq!['`'])
            } else {
                None
            }
        },
        LanguageKind::Python => python_delimiters(t),
        LanguageKind::Rust => {
            if kind == "string_literal"@ {
                quoted(t)
            } else if kind == "raw_string_literal"@ {
                rust_raw_delimiters(t)
            } else {
                None
            }
        },
        LanguageKind::Go => {
            if kind == "interpreted_string_literal"@ {
                quoted(t)
            } else if kind == "raw_string_literal"@ {
                delimited(t, 1, seq!['`'])
            } else {
                None
            }
        },
        LanguageKind::Nix => {
            if kind == "string_expression"@ {
                quoted(t)
            } else if kind == "indented_string_expression"@ {
                delimited(t, 2, seq!['\'', '\''])
            } else {
                None
            }
        },
        LanguageKind::Toml | LanguageKind::Yaml | LanguageKind::Json => quoted(t),
        LanguageKind::ShellScript => {
            if kind == "string"@ || kind == "raw_string"@ {
                quoted(t)
            } else if kind == "translated_string"@ || kind == "ansi_c_string"@ {
                shell_prefixed_delimiters(t)
            } else {
                None
            }
        },
    }
}

/// Child node kinds that make the text before the cursor dynamic.
pub open spec fn disallowed_kind(lang: LanguageKind, kind: Seq<char>) -> bool {
    match lang {
        LanguageKind::JavaScript | LanguageKind::TypeScript | LanguageKind::Tsx => kind
            == "template_substitution"@,
        LanguageKind::Python | LanguageKind::Nix => kind == "interpolation"@,
        LanguageKind::ShellScript => {
            ||| kind == "arithmetic_expansion"@
            ||| kind == "command_substitution"@
            ||| kind == "expansion"@
            ||| kind == "process_substitution"@
            ||| kind == "simple_expansion"@
        },
        _ => false,
    }
}

/// Bare (unquoted) tokens that count as paths.
pub open spec fn bare_token_ok(lang: LanguageKind, token: Seq<char>) -> bool {
    match lang {
        LanguageKind::Nix => {
            ||| starts_with(token, seq!['/'])
            ||| starts_with(token, seq!['.', '/'])
            ||| starts_with(token, seq!['.', '.', '/'])
            ||| token.contains('/')
        },
        LanguageKind::ShellScript => {
            ||| token == seq!['~']
            ||| starts_with(token, seq!['~', '/'])
            ||| starts_with(token, seq!['/'])
            ||| starts_with(token, seq!['.', '/'])
            ||| starts_with(token, seq!['.', '.', '/'])
        },
        _ => true,
    }
}

fn utf8_len_vec(t: &Vec<char>, n: usize) -> (r: usize)
    requires
        n <= t@.len(),
        utf8_len(t@) <= usize::MAX,
    ensures
        r == utf8_len(t@.take(n as int)),
{
    let mut total: usize = 0;
    let mut i: usize = 0;
    proof {
        crate::chars::lemma_byte_offset_full(t@);
        crate::chars::lemma_byte_offset_mono(t@, 0, t@.len() as int);
    }
    while i < n
        invariant
            i <= n <= t@.len(),
            total == crate::chars::byte_offset(t@, i as int),
            crate::chars::byte_offset(t@, t@.len() as int) == utf8_len(t@),
            utf8_len(t@) <= usize::MAX,
        decreases n - i,
    {
        proof {
            crate::chars::lemma_byte_offset_step(t@, i as int);
            crate::chars::lemma_byte_offset_mono(t@, i as int + 1, t@.len() as int);
        }
        total = total + char_utf8_width(t[i]);
        i = i + 1;
    }
    total
}

fn delimited_exec(t: &Vec<char>, opening: usize, closing: &Vec<char>) -> (r: Option<(usize, usize)>)
    requires
        utf8_len(t@) <= usize::MAX,
        utf8_len(closing@) <= usize::MAX,
    ensures
        match delimited(t@, opening as int, closing@) {
            Some((o, c)) => r == Some((o as usize, c as usize)),
            None => r is None,
        },
{
    proof {
        assert(t@.take(t@.len() as int) =~= t@);
        assert(closing@.take(closing@.len() as int) =~= closing@);
    }
    let total = utf8_len_vec(t, t.len());
    let closing_len = utf8_len_vec(closing, closing.len());
    if total < closing_len || total - closing_len < opening || !vec_ends_with(t, closing) {
        return None;
    }
    Some((opening, closing_len))
}

fn quoted_exec(t: &Vec<char>) -> (r: Option<(usize, usize)>)
    requires
        utf8_len(t@) <= usize::MAX,
    ensures
        match quoted(t@) {
            Some((o, c)) => r == Some((o as usize, c as usize)),
            None => r is None,
        },
{
    if t.len() >= 1 && char_utf8_width(t[0]) == 1 {
        let mut closing: Vec<char> = Vec::new();
        closing.push(t[0]);
        assert(closing@ =~= seq![t@[0]]);
        proof {
            assert(utf8_len(seq![t@[0]]) == utf8_width(t@[0]) + utf8_len(seq![t@[0]].drop_first()));
            assert(seq![t@[0]].drop_first() =~= Seq::<char>::empty());
        }
        delimited_exec(t, 1, &closing)
    } else {
        None
    }
}

proof fn lemma_utf8_len_repeat(c: char, n: nat)
    requires
        utf8_width(c) == 1,
    ensures
        utf8_len(repeat_char(c, n)) == n,
    decreases n,
{
    if n > 0 {
        assert(repeat_char(c, n).drop_first() =~= repeat_char(c, (n - 1) as nat));
        lemma_utf8_len_repeat(c, (n - 1) as nat);
    }
}

pub open spec fn is_quote(c: char, double_only: bool) -> bool {
    c == '"' || (!double_only && c == '\'')
}

proof fn lemma_first_quote(t: Seq<char>, double_only: bool)
    ensures
        match first_quote(t, double_only) {
            Some(k) => 0 <= k < t.len() && is_quote(t[k], double_only) && forall|j: int|
                0 <= j < k ==> !is_quote(t[j], double_only),
            None => forall|j: int| 0 <= j < t.len() ==> !is_quote(t[j], double_only),
        },
    decreases t.len(),
{
    if t.len() > 0 {
        lemma_first_quote(t.drop_first(), double_only);
        assert(forall|j: int| 0 < j < t.len() ==> t[j] == t.drop_first()[j - 1]);
    }
}

fn first_quote_exec(t: &Vec<char>, double_only: bool) -> (r: Option<usize>)
    ensures
        r == match first_quote(t@, double_only) {
            Some(i) => Some(i as usize),
            None => None::<usize>,
        },
        r matches Some(i) ==> i < t@.len() && is_quote(t@[i as int], double_only),
{
    proof {
        lemma_first_quote(t@, double_only);
    }
    let mut i: usize = 0;
    while i < t.len()
        invariant
            i <= t@.len(),
            forall|j: int| 0 <= j < i ==> !is_quote(t@[j], double_only),
        decreases t@.len() - i,
    {
        let c = t[i];
        if c == '"' || (!double_only && c == '\'') {
            assert(is_quote(t@[i as int], double_only));
            proof {
                lemma_first_quote(t@, double_only);
                match first_quote(t@, double_only) {
                    Some(k) => {
                        if k < i {
                            assert(!is_quote(t@[k], double_only));
                        }
                        if k > i {
                            assert(!is_quote(t@[i as int], double_only));
                        }
                    },
                    None => {
                        assert(!is_quote(t@[i as int], double_only));
                    },
                }
            }
            return Some(i);
        }
        i = i + 1;
    }
    proof {
        if let Some(k) = first_quote(t@, double_only) {
            assert(!is_quote(t@[k], double_only));
        }
    }
    None
}

fn repeat_exec(c: char, n: usize) -> (r: Vec<char>)
    ensures
        r@ == repeat_char(c, n as nat),
{
    let mut r: Vec<char> = Vec::new();
    let mut i: usize = 0;
    while i < n
        invariant
            i <= n,
            r@ == repeat_char(c, i as nat),
        decreases n - i,
    {
        r.push(c);
        i = i + 1;
        assert(r@ =~= repeat_char(c, i as nat));
    }
    r
}

fn python_delimiters_exec(t: &Vec<char>) -> (r: Option<(usize, usize)>)
    requires
        utf8_len(t@) <= usize::MAX,
    ensures
        match python_delimiters(t@) {
            Some((o, c)) => r == Some((o as usize, c as usize)),
            None => r is None,
        },
{
    proof {
        lemma_first_quote(t@, false);
    }
    let q = match first_quote_exec(t, false) {
        Some(q) => q,
        None => return None,
    };
    let quote = t[q];
    let triple = t.len() - q > 2 && t[q + 1] == quote && t[q + 2] == quote;
    let quote_len: usize = if triple {
        3
    } else {
        1
    };
    let before = utf8_len_vec(t, q);
    proof {
        crate::chars::lemma_byte_offset_step(t@, q as int);
        crate::chars::lemma_byte_offset_mono(t@, q as int + 1, t@.len() as int);
        crate::chars::lemma_byte_offset_full(t@);
        lemma_utf8_len_repeat(quote, quote_len as nat);
    }
    let closing = repeat_exec(quote, quote_len);
    delimited_exec(t, before + quote_len, &closing)
}

fn rust_raw_delimiters_exec(t: &Vec<char>) -> (r: Option<(usize, usize)>)
    requires
        utf8_len(t@) <= usize::MAX,
    ensures
        match rust_raw_delimiters(t@) {
            Some((o, c)) => r == Some((o as usize, c as usize)),
            None => r is None,
        },
{
    proof {
        lemma_first_quote(t@, true);
    }
    let q = match first_quote_exec(t, true) {
        Some(q) => q,
        None => return None,
    };
    let before = utf8_len_vec(t, q);
    if before < 1 {
        return None;
    }
    proof {
        crate::chars::lemma_byte_offset_step(t@, q as int);
        crate::chars::lemma_byte_offset_mono(t@, q as int + 1, t@.len() as int);
        crate::chars::lemma_byte_offset_full(t@);
        lemma_utf8_len_repeat('#', (before - 1) as nat);
        crate::chars::lemma_utf8_len_concat(seq!['"'], repeat_char('#', (before - 1) as nat));
        assert(seq!['"'].drop_first() =~= Seq::<char>::empty());
        assert(('"' as u32) == 34u32);
        lemma_ascii_single('"');
    }
    let mut closing: Vec<char> = Vec::new();
    closing.push('"');
    let hashes = repeat_exec('#', before - 1);
    let mut i: usize = 0;
    while i < hashes.len()
        invariant
            i <= hashes@.len(),
            closing@ == seq!['"'] + hashes@.take(i as int),
        decreases hashes@.len() - i,
    {
        closing.push(hashes[i]);
        i = i + 1;
        assert(closing@ =~= seq!['"'] + hashes@.take(i as int));
    }
    assert(hashes@.take(hashes@.len() as int) =~= hashes@);
    delimited_exec(t, before + 1, &closing)
}

fn shell_prefixed_delimiters_exec(t: &Vec<char>) -> (r: Option<(usize, usize)>)
    requires
        utf8_len(t@) <= usize::MAX,
    ensures
        match shell_prefixed_delimiters(t@) {
            Some((o, c)) => r == Some((o as usize, c as usize)),
            None => r is None,
        },
{
    if t.len() >= 2 && char_utf8_width(t[0]) == 1 && char_utf8_width(t[1]) == 1 {
        let mut closing: Vec<char> = Vec::new();
        closing.push(t[1]);
        assert(closing@ =~= seq![t@[1]]);
        proof {
            assert(utf8_len(seq![t@[1]]) == utf8_width(t@[1]) + utf8_len(seq![t@[1]].drop_first()));
            assert(seq![t@[1]].drop_first() =~= Seq::<char>::empty());
        }
        delimited_exec(t, 2, &closing)
    } else {
        None
    }
}

proof fn lemma_ascii_single(c: char)
    requires
        (c as u32) <= 0x7F,
    ensures
        utf8_len(seq![c]) == 1,
{
    assert(seq![c].drop_first() =~= Seq::<char>::empty());
    assert(utf8_len(seq![c]) == utf8_width(seq![c][0]) + utf8_len(seq![c].drop_first()));
}

/// A Python string may be quoted with `'` as well as with `"`: a string opened and
/// closed by either quote character, with no quote inside, has a one-byte opening
/// and a one-byte closing delimiter, whatever the node's kind.
pub proof fn lemma_python_either_quote(quote: char, body: Seq<char>, kind: Seq<char>)
    requires
        quote == '\'' || quote == '"',
        !body.contains('\''),
        !body.contains('"'),
    ensures
        delimiter_lengths(LanguageKind::Python, kind, seq![quote] + body + seq![quote]) == Some((1int, 1int)),
{
    let t = seq![quote] + body + seq![quote];
    assert(t[0] == quote);
    assert(first_quote(t, false) == Some(0int));
    assert(t.take(0) =~= Seq::<char>::empty());
    assert(utf8_len(t.take(0)) == 0);
    if body.len() > 0 {
        assert(t[1] == body[0]);
        assert(body.contains(body[0]));
        assert(t[1] != quote);
    }
    assert(repeat_char(quote, 1) =~= seq![quote]);
    assert(('\'' as u32) == 39u32);
    assert(('"' as u32) == 34u32);
    lemma_ascii_single(quote);
    crate::chars::lemma_utf8_len_concat(seq![quote], body);
    crate::chars::lemma_utf8_len_concat(seq![quote] + body, seq![quote]);
    assert(t.skip(t.len() - 1) =~= seq![quote]);
    assert(ends_with(t, seq![quote]));
}

/// `a` holds the same characters as the literal `lit`.
pub fn is_kind(a: &Vec<char>, lit: &str) -> (r: bool)
    ensures
        r == (a@ == lit@),
{
    let l = to_chars(lit);
    vec_eq(a, &l)
}

/// Opening and closing delimiter byte lengths of a string node, or `None` when the
/// node is not a delimited string of this language.
pub fn quoted_delimiter_lengths(lang: LanguageKind, kind: &Vec<char>, text: &Vec<char>) -> (r: Option<(usize, usize)>)
    requires
        utf8_len(text@) <= usize::MAX,
    ensures
        match delimiter_lengths(lang, kind@, text@) {
            Some((o, c)) => r == Some((o as usize, c as usize)),
            None => r is None,
        },
{
    let mut backtick: Vec<char> = Vec::new();
    backtick.push('`');
    assert(backtick@ =~= seq!['`']);
    proof {
        assert(('`' as u32) == 96u32);
        lemma_ascii_single('`');
        assert(('\'' as u32) == 39u32);
        lemma_ascii_single('\'');
        crate::chars::lemma_utf8_len_concat(seq!['\''], seq!['\'']);
        assert(seq!['\''] + seq!['\''] =~= seq!['\'', '\'']);
    }
    match lang {
        LanguageKind::JavaScript | LanguageKind::TypeScript | LanguageKind::Tsx => {
            if is_kind(kind, "string") {
                quoted_exec(text)
            } else if is_kind(kind, "template_string") {
                delimited_exec(text, 1, &backtick)
            } else {
                None
            }
        },
        LanguageKind::Python => python_delimiters_exec(text),
        LanguageKind::Rust => {
            if is_kind(kind, "string_literal") {
                quoted_exec(text)
            } else if is_kind(kind, "raw_string_literal") {
                rust_raw_delimiters_exec(text)
            } else {
                None
            }
        },
        LanguageKind::Go => {
            if is_kind(kind, "interpreted_string_literal") {
                quoted_exec(text)
            } else if is_kind(kind, "raw_string_literal") {
                delimited_exec(text, 1, &backtick)
            } else {
                None
            }
        },
        LanguageKind::Nix => {
            if is_kind(kind, "string_expression") {
                quoted_exec(text)
            } else if is_kind(kind, "indented_string_expression") {
                let mut closing: Vec<char> = Vec::new();
                closing.push('\'');
                closing.push('\'');
                assert(closing@ =~= seq!['\'', '\'']);
                delimited_exec(text, 2, &closing)
            } else {
                None
            }
        },
        LanguageKind::Toml | LanguageKind::Yaml | LanguageKind::Json => quoted_exec(text),
        LanguageKind::ShellScript => {
            if is_kind(kind, "string") || is_kind(kind, "raw_string") {
                quoted_exec(text)
            } else if is_kind(kind, "translated_string") || is_kind(kind, "ansi_c_string") {
                shell_prefixed_delimiters_exec(text)
            } else {
                None
            }
        },
    }
}

/// Executable form of [`disallowed_kind`].
pub fn is_disallowed_child_kind(lang: LanguageKind, kind: &Vec<char>) -> (r: bool)
    ensures
        r == disallowed_kind(lang, kind@),
{
    match lang {
        LanguageKind::JavaScript | LanguageKind::TypeScript | LanguageKind::Tsx => is_kind(
            kind,
            "template_substitution",
        ),
        LanguageKind::Python | LanguageKind::Nix => is_kind(kind, "interpolation"),
        LanguageKind::ShellScript => {
            is_kind(kind, "arithmetic_expansion") || is_kind(kind, "command_substitution")
                || is_kind(kind, "expansion") || is_kind(kind, "process_substitution")
                || is_kind(kind, "simple_expansion")
        },
        _ => false,
    }
}

proof fn lemma_prefix_literal(t: Seq<char>, p: Seq<char>)
    requires
        p.len() <= t.len(),
        forall|i: int| 0 <= i < p.len() ==> t[i] == p[i],
    ensures
        starts_with(t, p),
{
    assert(t.take(p.len() as int) =~= p);
}

proof fn lemma_not_prefix(t: Seq<char>, p: Seq<char>, i: int)
    requires
        0 <= i < p.len(),
        i < t.len() ==> t[i] != p[i],
    ensures
        !starts_with(t, p),
{
    if starts_with(t, p) {
        assert(t.take(p.len() as int)[i] == p[i]);
    }
}

fn starts_dot_slash(t: &Vec<char>) -> (r: bool)
    ensures
        r == starts_with(t@, seq!['.', '/']),
{
    if t.len() >= 2 && t[0] == '.' && t[1] == '/' {
        proof {
            lemma_prefix_literal(t@, seq!['.', '/']);
        }
        true
    } else {
        proof {
            if t@.len() >= 2 {
                if t@[0] != '.' {
                    lemma_not_prefix(t@, seq!['.', '/'], 0);
                } else {
                    lemma_not_prefix(t@, seq!['.', '/'], 1);
                }
            }
        }
        false
    }
}

fn starts_dot_dot_slash(t: &Vec<char>) -> (r: bool)
    ensures
        r == starts_with(t@, seq!['.', '.', '/']),
{
    if t.len() >= 3 && t[0] == '.' && t[1] == '.' && t[2] == '/' {
        proof {
            lemma_prefix_literal(t@, seq!['.', '.', '/']);
        }
        true
    } else {
        proof {
            if t@.len() >= 3 {
                if t@[0] != '.' {
                    lemma_not_prefix(t@, seq!['.', '.', '/'], 0);
                } else if t@[1] != '.' {
                    lemma_not_prefix(t@, seq!['.', '.', '/'], 1);
                } else {
                    lemma_not_prefix(t@, seq!['.', '.', '/'], 2);
                }
            }
        }
        false
    }
}

fn starts_slash(t: &Vec<char>) -> (r: bool)
    ensures
        r == starts_with(t@, seq!['/']),
{
    if t.len() >= 1 && t[0] == '/' {
        proof {
            lemma_prefix_literal(t@, seq!['/']);
        }
        true
    } else {
        proof {
            if t@.len() >= 1 {
                lemma_not_prefix(t@, seq!['/'], 0);
            }
        }
        false
    }
}

fn starts_tilde_slash(t: &Vec<char>) -> (r: bool)
    ensures
        r == starts_with(t@, seq!['~', '/']),
{
    if t.len() >= 2 && t[0] == '~' && t[1] == '/' {
        proof {
            lemma_prefix_literal(t@, seq!['~', '/']);
        }
        true
    } else {
        proof {
            if t@.len() >= 2 {
                if t@[0] != '~' {
                    lemma_not_prefix(t@, seq!['~', '/'], 0);
                } else {
                    lemma_not_prefix(t@, seq!['~', '/'], 1);
                }
            }
        }
        false
    }
}

/// Executable form of [`bare_token_ok`].
pub fn bare_token_is_supported(lang: LanguageKind, token: &Vec<char>) -> (r: bool)
    ensures
        r == bare_token_ok(lang, token@),
{
    match lang {
        LanguageKind::Nix => {
            starts_slash(token) || starts_dot_slash(token) || starts_dot_dot_slash(token)
                || vec_contains(token, '/')
        },
        LanguageKind::ShellScript => {
            let tilde = token.len() == 1 && token[0] == '~';
            proof {
                if token@ == seq!['~'] {
                    assert(token@[0] == '~');
                }
                if tilde {
                    assert(token@ =~= seq!['~']);
                }
            }
            tilde || starts_tilde_slash(token) || starts_slash(token) || starts_dot_slash(token)
                || starts_dot_dot_slash(token)
        },
        _ => true,
    }
}

} // verus!

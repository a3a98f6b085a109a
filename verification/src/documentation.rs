//! What a completion item shows about its file or directory: the data kept on the
//! item for later resolution, the fallback text, and previews of file contents and
//! directory listings built from what was read from disk.
use crate::chars::{append_str, string_from_chars};
use crate::context::opt_string_view;
use crate::chars::to_chars;
use crate::paths::{components_of, join_with, path_components, path_eq, paths_equal};
use crate::glob::strings_view;
use crate::candidates::{lowercase, to_lowercase};
use crate::order::{lemma_lex_asymmetric, lemma_lex_irreflexive, lemma_lex_total, lemma_lex_transitive, lex_less, lex_lt};
use crate::sorting::{is_permutation_of, is_stable_sort_of, stable_sort, StrictOrder};
use vstd::prelude::*;

verus! {

/// Whether an item stands for a file or a directory.
#[derive(Clone, Copy, Debug, PartialEq, Eq, Structural)]
pub enum CompletionItemPreviewKind {
    File,
    Directory,
}

/// What a completion item carries so that its documentation can be filled in later.
#[derive(Clone, Debug)]
pub struct CompletionItemData {
    pub path: String,
    pub kind: CompletionItemPreviewKind,
    pub annotation: String,
    pub name: String,
}

pub fn completion_item_data(path: &str, is_dir: bool, annotation: &str, name: &str) -> (r: CompletionItemData)
    ensures
        r.path@ == path@,
        r.kind == (if is_dir {
            CompletionItemPreviewKind::Directory
        } else {
            CompletionItemPreviewKind::File
        }),
        r.annotation@ == annotation@,
        r.name@ == name@,
{
    CompletionItemData {
        path: path.to_string(),
        kind: if is_dir {
            CompletionItemPreviewKind::Directory
        } else {
            CompletionItemPreviewKind::File
        },
        annotation: annotation.to_string(),
        name: name.to_string(),
    }
}

/// "{annotation} path completion for `{name}`."
pub open spec fn fallback_text(annotation: Seq<char>, name: Seq<char>) -> Seq<char> {
    annotation + " path completion for `"@ + name + "`."@
}

/// The Markdown shown when no preview is available.
pub fn fallback_completion_documentation(annotation: &str, name: &str) -> (r: String)
    ensures
        r@ == fallback_text(annotation@, name@),
{
    let mut out: Vec<char> = Vec::new();
    append_str(&mut out, annotation);
    append_str(&mut out, " path completion for `");
    append_str(&mut out, name);
    append_str(&mut out, "`.");
    assert(out@ =~= fallback_text(annotation@, name@));
    string_from_chars(out.as_slice())
}

/// Control characters (the Unicode category `Cc`).
pub open spec fn is_control(c: char) -> bool {
    c <= '\u{1F}' || ('\u{7F}' <= c && c <= '\u{9F}')
}

/// Text holds no control characters but line breaks, tabs and form feeds.
pub open spec fn looks_like_text_spec(text: Seq<char>) -> bool {
    forall|i: int|
        0 <= i < text.len() ==> {
            let c = #[trigger] text[i];
            c == '\n' || c == '\r' || c == '\t' || c == '\u{000C}' || !is_control(c)
        }
}

/// Executable form of [`looks_like_text_spec`].
pub fn looks_like_text(text: &Vec<char>) -> (r: bool)
    ensures
        r == looks_like_text_spec(text@),
{
    let mut i: usize = 0;
    while i < text.len()
        invariant
            i <= text@.len(),
            forall|j: int|
                0 <= j < i ==> {
                    let c = #[trigger] text@[j];
                    c == '\n' || c == '\r' || c == '\t' || c == '\u{000C}' || !is_control(c)
                },
        decreases text@.len() - i,
    {
        let c = text[i];
        let control = c <= '\u{1F}' || ('\u{7F}' <= c && c <= '\u{9F}');
        if c != '\n' && c != '\r' && c != '\t' && c != '\u{000C}' && control {
            return false;
        }
        i = i + 1;
    }
    true
}

/// A line cut to `max` characters, with `...` appended when it was longer.
pub open spec fn truncated_line(line: Seq<char>, max: nat) -> (Seq<char>, bool) {
    if line.len() > max {
        (line.take(max as int) + "..."@, true)
    } else {
        (line, false)
    }
}

/// Executable form of [`truncated_line`].
pub fn truncate_line(line: &Vec<char>, max_chars: usize) -> (r: (Vec<char>, bool))
    ensures
        r.0@ == truncated_line(line@, max_chars as nat).0,
        r.1 == truncated_line(line@, max_chars as nat).1,
{
    if line.len() <= max_chars {
        return (line.clone(), false);
    }
    let mut out = crate::strs::subvec(line, 0, max_chars);
    out.push('.');
    out.push('.');
    out.push('.');
    proof {
        reveal_strlit("...");
    }
    assert(out@ =~= line@.take(max_chars as int) + "..."@);
    (out, true)
}

/// Index of the first `c` in `s`.
pub open spec fn first_index_of(s: Seq<char>, c: char) -> Option<int> {
    if exists|i: int| 0 <= i < s.len() && s[i] == c {
        Some(choose|i: int| 0 <= i < s.len() && s[i] == c && forall|j: int| 0 <= j < i ==> s[j] != c)
    } else {
        None
    }
}

/// A line ended by a line break loses a carriage return before it.
pub open spec fn line_body(line: Seq<char>) -> Seq<char> {
    if line.len() > 0 && line.last() == '\r' {
        line.drop_last()
    } else {
        line
    }
}

/// The lines of a text, as `str::lines` gives them: split at line breaks, a
/// carriage return before a break dropped, no empty line after a final break.
pub open spec fn text_lines(s: Seq<char>) -> Seq<Seq<char>>
    decreases s.len(),
{
    if s.len() == 0 {
        Seq::empty()
    } else {
        match first_index_of(s, '\n') {
            Some(i) => if 0 <= i < s.len() {
                seq![line_body(s.take(i))] + text_lines(s.skip(i + 1))
            } else {
                seq![s]
            },
            None => seq![s],
        }
    }
}

proof fn lemma_first_index_of(s: Seq<char>, c: char, i: int)
    requires
        0 <= i < s.len(),
        s[i] == c,
        forall|j: int| 0 <= j < i ==> s[j] != c,
    ensures
        first_index_of(s, c) == Some(i),
{
    let k = choose|k: int| 0 <= k < s.len() && s[k] == c && forall|j: int| 0 <= j < k ==> s[j] != c;
    assert(0 <= i < s.len() && s[i] == c && forall|j: int| 0 <= j < i ==> s[j] != c);
    if k < i {
        assert(s[k] != c);
    } else if i < k {
        assert(s[i] != c);
    }
}

/// The lines from `pos` on, when a break stands at `j`: the line before it, then the rest.
proof fn lemma_text_lines_break(s: Seq<char>, pos: int, j: int)
    requires
        0 <= pos <= j < s.len(),
        s[j] == '\n',
        forall|k: int| pos <= k < j ==> s[k] != '\n',
    ensures
        text_lines(s.skip(pos)) == seq![line_body(s.subrange(pos, j))] + text_lines(s.skip(j + 1)),
{
    let rest = s.skip(pos);
    assert forall|k: int| 0 <= k < j - pos implies rest[k] != '\n' by {
        assert(rest[k] == s[pos + k]);
    }
    lemma_first_index_of(rest, '\n', j - pos);
    assert(rest.take(j - pos) =~= s.subrange(pos, j));
    assert(rest.skip(j - pos + 1) =~= s.skip(j + 1));
}

/// The lines from `pos` on, when no break follows: one last line.
proof fn lemma_text_lines_last(s: Seq<char>, pos: int)
    requires
        0 <= pos < s.len(),
        forall|k: int| pos <= k < s.len() ==> s[k] != '\n',
    ensures
        text_lines(s.skip(pos)) == seq![s.skip(pos)],
{
    let rest = s.skip(pos);
    assert(!exists|k: int| 0 <= k < rest.len() && rest[k] == '\n') by {
        assert forall|k: int| 0 <= k < rest.len() implies rest[k] != '\n' by {
            assert(rest[k] == s[pos + k]);
        }
    }
}

/// Executable form of [`text_lines`].
pub fn split_lines(text: &Vec<char>) -> (r: Vec<Vec<char>>)
    ensures
        r@.map_values(|l: Vec<char>| l@) == text_lines(text@),
{
    let ghost s = text@;
    let mut out: Vec<Vec<char>> = Vec::new();
    let mut pos: usize = 0;
    assert(s.skip(0) =~= s);
    assert(out@.map_values(|l: Vec<char>| l@) =~= Seq::<Seq<char>>::empty());
    while pos < text.len()
        invariant
            s == text@,
            pos <= s.len(),
            out@.map_values(|l: Vec<char>| l@) + text_lines(s.skip(pos as int)) == text_lines(s),
        decreases s.len() - pos,
    {
        let mut j: usize = pos;
        while j < text.len() && text[j] != '\n'
            invariant
                pos <= j <= s.len(),
                s == text@,
                forall|k: int| pos <= k < j ==> s[k] != '\n',
            decreases s.len() - j,
        {
            j = j + 1;
        }
        let ghost before = out@.map_values(|l: Vec<char>| l@);
        let piece = crate::strs::subvec(text, pos, j);
        if j < text.len() {
            let body = if piece.len() > 0 && piece[piece.len() - 1] == '\r' {
                crate::strs::subvec(&piece, 0, piece.len() - 1)
            } else {
                piece
            };
            proof {
                lemma_text_lines_break(s, pos as int, j as int);
                assert(body@ =~= line_body(s.subrange(pos as int, j as int)));
            }
            out.push(body);
            assert(out@.map_values(|l: Vec<char>| l@) =~= before.push(line_body(s.subrange(pos as int, j as int))));
            assert(out@.map_values(|l: Vec<char>| l@) + text_lines(s.skip(j + 1)) =~= before + text_lines(s.skip(pos as int)));
            pos = j + 1;
        } else {
            proof {
                lemma_text_lines_last(s, pos as int);
                assert(piece@ =~= s.skip(pos as int));
                assert(s.skip(s.len() as int) =~= Seq::<char>::empty());
            }
            out.push(piece);
            assert(out@.map_values(|l: Vec<char>| l@) =~= before.push(s.skip(pos as int)));
            assert(out@.map_values(|l: Vec<char>| l@) + text_lines(s.skip(j as int)) =~= before + text_lines(s.skip(pos as int)));
            pos = j;
        }
    }
    assert(s.skip(pos as int) =~= Seq::<char>::empty());
    assert(out@.map_values(|l: Vec<char>| l@) + text_lines(s.skip(pos as int)) =~= out@.map_values(|l: Vec<char>| l@));
    out
}

/// How many bytes of a file are read for its preview.
pub const MAX_TEXT_PREVIEW_BYTES: usize = 8192;

/// How many lines of a file its preview shows.
pub const MAX_TEXT_PREVIEW_LINES: usize = 3;

/// How many characters of a line its preview shows.
pub const MAX_TEXT_PREVIEW_LINE_CHARS: usize = 120;

/// How many entries of a directory its preview lists.
pub const MAX_DIRECTORY_PREVIEW_ENTRIES: usize = 10;

/// `String::from_utf8`: the decoded text, or the error's `valid_up_to` and `error_len`
/// (`None` when the input ends inside a character).
pub uninterp spec fn utf8_decoding(bytes: Seq<u8>) -> Result<Seq<char>, (usize, Option<usize>)>;

/// UTF-16 decoding: a unit outside the surrogate range is its character; a high
/// surrogate (`D800`-`DBFF`) followed by a low one (`DC00`-`DFFF`) is the character
/// `10000 + (high - D800) * 400 + (low - DC00)` (hexadecimal); anything else, an
/// unpaired surrogate, makes the text invalid (`None`).
pub open spec fn utf16_decoding(units: Seq<u16>) -> Option<Seq<char>>
    decreases units.len(),
{
    if units.len() == 0 {
        Some(Seq::empty())
    } else {
        let u = units[0] as int;
        if u < 0xD800 || u > 0xDFFF {
            match utf16_decoding(units.drop_first()) {
                Some(t) => Some(seq![u as char] + t),
                None => None,
            }
        } else if u <= 0xDBFF && units.len() >= 2 && 0xDC00 <= units[1] <= 0xDFFF {
            let c = 0x10000 + (u - 0xD800) * 0x400 + (units[1] - 0xDC00);
            match utf16_decoding(units.skip(2)) {
                Some(t) => Some(seq![c as char] + t),
                None => None,
            }
        } else {
            None
        }
    }
}

pub open spec fn utf8_result_view(r: Result<String, (usize, Option<usize>)>) -> Result<Seq<char>, (usize, Option<usize>)> {
    match r {
        Ok(t) => Ok(t@),
        Err(e) => Err(e),
    }
}

/// Where decoding fails, the bytes before `valid_up_to` decode: `Utf8Error::valid_up_to`
/// is documented as the largest index up to which `from_utf8` succeeds.
pub open spec fn utf8_error_facts(bytes: Seq<u8>, r: Result<String, (usize, Option<usize>)>) -> bool {
    match r {
        Ok(_) => true,
        Err((v, _)) => v <= bytes.len() && utf8_decoding(bytes.take(v as int)) is Ok,
    }
}

/// `String::from_utf8` on a copy of `bytes`; the error is reduced to its
/// `valid_up_to` and `error_len`.
#[verifier::external_body]
fn decode_utf8(bytes: &[u8]) -> (r: Result<String, (usize, Option<usize>)>)
    ensures
        utf8_result_view(r) == utf8_decoding(bytes@),
        r is Ok <==> vstd::utf8::valid_utf8(bytes@),
        r is Ok ==> utf8_result_view(r)->Ok_0 == vstd::utf8::decode_utf8(bytes@),
        utf8_error_facts(bytes@, r),
{
    match String::from_utf8(bytes.to_vec()) {
        Ok(text) => Ok(text),
        Err(error) => Err((error.utf8_error().valid_up_to(), error.utf8_error().error_len())),
    }
}

/// `String::from_utf16`, with the error dropped: std documents it as decoding UTF-16
/// and failing exactly on invalid data (unpaired surrogates).
#[verifier::external_body]
fn decode_utf16(units: &[u16]) -> (r: Option<String>)
    ensures
        opt_string_view(r) == utf16_decoding(units@),
{
    String::from_utf16(units).ok()
}

/// UTF-8 text; input cut inside its last character keeps the characters before the cut
/// when there are any.
pub open spec fn utf8_preview(bytes: Seq<u8>) -> Option<Seq<char>> {
    match utf8_decoding(bytes) {
        Ok(t) => Some(t),
        Err((v, None)) => if v > 0 {
            match utf8_decoding(bytes.take(v as int)) {
                Ok(t) => Some(t),
                Err(_) => None,
            }
        } else {
            None
        },
        Err(_) => None,
    }
}

/// Consecutive byte pairs as UTF-16 code units; an odd last byte is dropped.
pub open spec fn utf16_units(bytes: Seq<u8>, little_endian: bool) -> Seq<u16> {
    Seq::new(
        (bytes.len() / 2) as nat,
        |i: int|
            if little_endian {
                (bytes[2 * i] + 256 * bytes[2 * i + 1]) as u16
            } else {
                (256 * bytes[2 * i] + bytes[2 * i + 1]) as u16
            },
    )
}

/// UTF-16 text; fewer than two bytes are the empty text.
pub open spec fn utf16_preview(bytes: Seq<u8>, little_endian: bool) -> Option<Seq<char>> {
    if bytes.len() < 2 {
        Some(Seq::empty())
    } else {
        utf16_decoding(utf16_units(bytes, little_endian))
    }
}

/// The text of a file, by its byte-order mark: UTF-8, UTF-16 little- or big-endian,
/// and UTF-8 without a mark.
pub open spec fn decoded_preview_text(bytes: Seq<u8>) -> Option<Seq<char>> {
    if bytes.len() >= 3 && bytes[0] == 0xEF && bytes[1] == 0xBB && bytes[2] == 0xBF {
        utf8_preview(bytes.skip(3))
    } else if bytes.len() >= 2 && bytes[0] == 0xFF && bytes[1] == 0xFE {
        utf16_preview(bytes.skip(2), true)
    } else if bytes.len() >= 2 && bytes[0] == 0xFE && bytes[1] == 0xFF {
        utf16_preview(bytes.skip(2), false)
    } else {
        utf8_preview(bytes)
    }
}

fn copy_bytes(bytes: &[u8], from: usize, to: usize) -> (r: Vec<u8>)
    requires
        from <= to <= bytes@.len(),
    ensures
        r@ == bytes@.subrange(from as int, to as int),
{
    let mut out: Vec<u8> = Vec::new();
    let mut i: usize = from;
    while i < to
        invariant
            from <= i <= to <= bytes@.len(),
            out@ == bytes@.subrange(from as int, i as int),
        decreases to - i,
    {
        out.push(bytes[i]);
        i = i + 1;
        assert(out@ =~= bytes@.subrange(from as int, i as int));
    }
    out
}

/// Executable form of [`utf8_preview`].
pub fn decode_utf8_preview(bytes: &[u8]) -> (r: Option<String>)
    ensures
        opt_string_view(r) == utf8_preview(bytes@),
{
    match decode_utf8(bytes) {
        Ok(text) => Some(text),
        Err((valid_up_to, None)) => {
            if valid_up_to > 0 {
                let prefix = copy_bytes(bytes, 0, valid_up_to);
                assert(prefix@ =~= bytes@.take(valid_up_to as int));
                match decode_utf8(prefix.as_slice()) {
                    Ok(text) => Some(text),
                    Err(_) => None,
                }
            } else {
                None
            }
        },
        Err(_) => None,
    }
}

/// Executable form of [`utf16_preview`].
pub fn decode_utf16_preview(bytes: &[u8], little_endian: bool) -> (r: Option<String>)
    ensures
        opt_string_view(r) == utf16_preview(bytes@, little_endian),
{
    let len: usize = bytes.len();
    let n: usize = len / 2;
    if n == 0 {
        return Some(String::new());
    }
    let mut units: Vec<u16> = Vec::new();
    let mut i: usize = 0;
    while i < n
        invariant
            len == bytes@.len(),
            n == bytes@.len() / 2,
            i <= n,
            units@ == utf16_units(bytes@, little_endian).take(i as int),
        decreases n - i,
    {
        assert(2 * (i as int) + 1 < bytes@.len()) by (nonlinear_arith)
            requires
                n == bytes@.len() / 2,
                i < n,
        ;
        let a = bytes[2 * i] as u16;
        let b = bytes[2 * i + 1] as u16;
        let unit: u16 = if little_endian {
            a + b * 256
        } else {
            a * 256 + b
        };
        units.push(unit);
        i = i + 1;
        assert(units@ =~= utf16_units(bytes@, little_endian).take(i as int));
    }
    assert(units@ =~= utf16_units(bytes@, little_endian));
    decode_utf16(units.as_slice())
}

/// Executable form of [`decoded_preview_text`].
pub fn decode_text_preview(bytes: &[u8]) -> (r: Option<String>)
    ensures
        opt_string_view(r) == decoded_preview_text(bytes@),
{
    let n = bytes.len();
    if n >= 3 && bytes[0] == 0xEF && bytes[1] == 0xBB && bytes[2] == 0xBF {
        let rest = copy_bytes(bytes, 3, n);
        assert(rest@ =~= bytes@.skip(3));
        return decode_utf8_preview(rest.as_slice());
    }
    if n >= 2 && bytes[0] == 0xFF && bytes[1] == 0xFE {
        let rest = copy_bytes(bytes, 2, n);
        assert(rest@ =~= bytes@.skip(2));
        return decode_utf16_preview(rest.as_slice(), true);
    }
    if n >= 2 && bytes[0] == 0xFE && bytes[1] == 0xFF {
        let rest = copy_bytes(bytes, 2, n);
        assert(rest@ =~= bytes@.skip(2));
        return decode_utf16_preview(rest.as_slice(), false);
    }
    decode_utf8_preview(bytes)
}

/// The strings of `parts` with `sep` between them.
pub fn join_lines(parts: &Vec<Vec<char>>, sep: char) -> (r: Vec<char>)
    ensures
        r@ == join_with(parts@.map_values(|p: Vec<char>| p@), sep),
{
    let ghost all = parts@.map_values(|p: Vec<char>| p@);
    let mut out: Vec<char> = Vec::new();
    let mut i: usize = 0;
    assert(all.take(0) =~= Seq::<Seq<char>>::empty());
    while i < parts.len()
        invariant
            all == parts@.map_values(|p: Vec<char>| p@),
            i <= parts@.len(),
            out@ == join_with(all.take(i as int), sep),
        decreases parts@.len() - i,
    {
        let ghost before = out@;
        if i > 0 {
            out.push(sep);
        }
        let part = &parts[i];
        let mut j: usize = 0;
        let ghost mid = out@;
        while j < part.len()
            invariant
                j <= part@.len(),
                out@ == mid + part@.take(j as int),
            decreases part@.len() - j,
        {
            out.push(part[j]);
            j = j + 1;
            assert(out@ =~= mid + part@.take(j as int));
        }
        proof {
            assert(part@.take(part@.len() as int) =~= part@);
            let t = all.take(i as int + 1);
            assert(t.drop_last() =~= all.take(i as int));
            assert(t.last() == part@);
            if i > 0 {
                assert(out@ =~= before + seq![sep] + part@);
            } else {
                assert(t.len() == 1);
            }
        }
        i = i + 1;
    }
    assert(all.take(parts@.len() as int) =~= all);
    out
}

/// The lines a file preview shows: the first few of the text.
pub open spec fn shown_lines(text: Seq<char>) -> Seq<Seq<char>> {
    let lines = text_lines(text);
    if lines.len() > MAX_TEXT_PREVIEW_LINES {
        lines.take(MAX_TEXT_PREVIEW_LINES as int)
    } else {
        lines
    }
}

/// The shown lines, each cut to its width, one per line.
pub open spec fn preview_body(text: Seq<char>) -> Seq<char> {
    join_with(
        shown_lines(text).map_values(|l: Seq<char>| truncated_line(l, MAX_TEXT_PREVIEW_LINE_CHARS as nat).0),
        '\n',
    )
}

/// More lines follow the shown ones, or a shown line was cut.
pub open spec fn preview_truncated(text: Seq<char>) -> bool {
    ||| text_lines(text).len() > MAX_TEXT_PREVIEW_LINES
    ||| exists|i: int|
        0 <= i < shown_lines(text).len() && #[trigger] truncated_line(
            shown_lines(text)[i],
            MAX_TEXT_PREVIEW_LINE_CHARS as nat,
        ).1
}

/// The opening lines of a text file, and whether anything was left out.
pub struct TextPreview {
    pub body: String,
    pub truncated: bool,
}

/// The preview of a text.
pub fn text_preview(text: &Vec<char>) -> (r: TextPreview)
    ensures
        r.body@ == preview_body(text@),
        r.truncated == preview_truncated(text@),
{
    let lines = split_lines(text);
    let ghost all = text_lines(text@);
    let ghost shown = shown_lines(text@);
    let count: usize = if lines.len() > MAX_TEXT_PREVIEW_LINES {
        MAX_TEXT_PREVIEW_LINES
    } else {
        lines.len()
    };
    assert(lines@.len() == all.len());
    assert(shown.len() == count);
    let mut truncated = lines.len() > MAX_TEXT_PREVIEW_LINES;
    let mut parts: Vec<Vec<char>> = Vec::new();
    let mut i: usize = 0;
    while i < count
        invariant
            lines@.map_values(|l: Vec<char>| l@) == all,
            all == text_lines(text@),
            shown == shown_lines(text@),
            count == shown.len(),
            count <= lines@.len(),
            i <= count,
            parts@.map_values(|p: Vec<char>| p@) == shown.take(i as int).map_values(
                |l: Seq<char>| truncated_line(l, MAX_TEXT_PREVIEW_LINE_CHARS as nat).0,
            ),
            truncated == (all.len() > MAX_TEXT_PREVIEW_LINES || exists|j: int|
                0 <= j < i && #[trigger] truncated_line(shown[j], MAX_TEXT_PREVIEW_LINE_CHARS as nat).1),
        decreases count - i,
    {
        assert(lines@[i as int]@ == shown[i as int]);
        let (line, cut) = truncate_line(&lines[i], MAX_TEXT_PREVIEW_LINE_CHARS);
        let ghost before = parts@.map_values(|p: Vec<char>| p@);
        parts.push(line);
        truncated = truncated || cut;
        proof {
            let now = parts@.map_values(|p: Vec<char>| p@);
            let want = shown.take(i as int + 1).map_values(
                |l: Seq<char>| truncated_line(l, MAX_TEXT_PREVIEW_LINE_CHARS as nat).0,
            );
            assert(before.len() == i);
            assert(parts@.len() == i + 1);
            assert(want.len() == i + 1);
            assert(now.len() == want.len());
            assert forall|k: int| 0 <= k < now.len() implies now[k] == want[k] by {
                if k < i {
                    assert(now[k] == before[k]);
                    assert(shown.take(i as int)[k] == shown[k]);
                } else {
                    assert(now[k] == line@);
                }
            }
            assert(parts@.map_values(|p: Vec<char>| p@) =~= shown.take(i as int + 1).map_values(
                |l: Seq<char>| truncated_line(l, MAX_TEXT_PREVIEW_LINE_CHARS as nat).0,
            ));
            if cut {
                assert(truncated_line(shown[i as int], MAX_TEXT_PREVIEW_LINE_CHARS as nat).1);
            }
        }
        i = i + 1;
    }
    assert(shown.take(count as int) =~= shown);
    let body = join_lines(&parts, '\n');
    TextPreview { body: string_from_chars(body.as_slice()), truncated }
}

/// The Markdown of a file with a preview: the fallback text, the preview in a fenced
/// block, and a note when the preview was cut.
pub open spec fn file_preview_text(annotation: Seq<char>, name: Seq<char>, body: Seq<char>, truncated: bool) -> Seq<char> {
    fallback_text(annotation, name) + "\n\n~~~text\n"@ + body + "\n~~~"@ + (if truncated {
        "\n\nPreview truncated."@
    } else {
        Seq::empty()
    })
}

/// The preview of a file's first bytes: `None` unless they decode to text without
/// control characters.
pub open spec fn bytes_preview(bytes: Seq<u8>) -> Option<(Seq<char>, bool)> {
    match decoded_preview_text(bytes) {
        Some(t) => if looks_like_text_spec(t) {
            Some((preview_body(t), preview_truncated(t)))
        } else {
            None
        },
        None => None,
    }
}

/// Executable form of [`bytes_preview`].
pub fn preview_from_bytes(bytes: &[u8]) -> (r: Option<TextPreview>)
    ensures
        match r {
            Some(p) => bytes_preview(bytes@) == Some((p.body@, p.truncated)),
            None => bytes_preview(bytes@) is None,
        },
{
    let text = match decode_text_preview(bytes) {
        Some(t) => t,
        None => return None,
    };
    let chars = to_chars(text.as_str());
    if !looks_like_text(&chars) {
        return None;
    }
    Some(text_preview(&chars))
}

/// The documentation of a file item, from the first bytes of the file when it
/// could be read.
pub open spec fn file_documentation_text(annotation: Seq<char>, name: Seq<char>, contents: Option<Seq<u8>>) -> Seq<char> {
    match contents {
        Some(bytes) => match bytes_preview(bytes) {
            Some((body, truncated)) => file_preview_text(annotation, name, body, truncated),
            None => fallback_text(annotation, name),
        },
        None => fallback_text(annotation, name),
    }
}

/// Executable form of [`file_documentation_text`].
pub fn file_documentation(annotation: &str, name: &str, contents: Option<&[u8]>) -> (r: String)
    ensures
        r@ == file_documentation_text(
            annotation@,
            name@,
            match contents {
                Some(b) => Some(b@),
                None => None,
            },
        ),
{
    let preview = match contents {
        Some(bytes) => preview_from_bytes(bytes),
        None => None,
    };
    match preview {
        Some(p) => {
            let mut out: Vec<char> = Vec::new();
            append_str(&mut out, annotation);
            append_str(&mut out, " path completion for `");
            append_str(&mut out, name);
            append_str(&mut out, "`.");
            append_str(&mut out, "\n\n~~~text\n");
            append_str(&mut out, p.body.as_str());
            append_str(&mut out, "\n~~~");
            if p.truncated {
                append_str(&mut out, "\n\nPreview truncated.");
            }
            assert(out@ =~= file_preview_text(annotation@, name@, p.body@, p.truncated));
            string_from_chars(out.as_slice())
        },
        None => fallback_completion_documentation(annotation, name),
    }
}

/// A directory entry as read from disk: its name and whether it is a directory.
pub open spec fn entry_view(e: (String, bool)) -> (Seq<char>, bool) {
    (e.0@, e.1)
}

pub open spec fn entries_view(es: Seq<(String, bool)>) -> Seq<(Seq<char>, bool)> {
    es.map_values(|e: (String, bool)| entry_view(e))
}

/// Entries whose name is empty or starts with `.` are not listed.
pub open spec fn entry_listed(e: (Seq<char>, bool)) -> bool {
    e.0.len() > 0 && e.0[0] != '.'
}

/// The listed entries, in their order.
pub open spec fn listed_entries(es: Seq<(Seq<char>, bool)>) -> Seq<(Seq<char>, bool)>
    decreases es.len(),
{
    if es.len() == 0 {
        Seq::empty()
    } else {
        let rest = listed_entries(es.drop_last());
        if entry_listed(es.last()) {
            rest.push(es.last())
        } else {
            rest
        }
    }
}

/// Directories before files, then names in the order of their lower-case forms.
pub open spec fn listing_before(a: (Seq<char>, bool), b: (Seq<char>, bool)) -> bool {
    (a.1 && !b.1) || (a.1 == b.1 && lex_lt(lowercase(a.0), lowercase(b.0)))
}

/// `out` is `input` in listing order, entries that tie kept in their input order.
pub open spec fn is_listing_order_of(
    out: Seq<(Seq<char>, bool)>,
    input: Seq<(Seq<char>, bool)>,
    perm: Seq<int>,
) -> bool {
    &&& is_permutation_of(out, input, perm)
    &&& forall|k: int, l: int| 0 <= k < l < out.len() ==> !listing_before(#[trigger] out[l], #[trigger] out[k])
    &&& forall|k: int, l: int|
        0 <= k < l < out.len() && !listing_before(#[trigger] out[k], #[trigger] out[l]) ==> perm[k] < perm[l]
}

/// One line of a listing: a tree branch, the name, and `/` after a directory.
pub open spec fn entry_line(e: (Seq<char>, bool), last: bool) -> Seq<char> {
    (if last {
        "`-- "@
    } else {
        "|-- "@
    }) + e.0 + (if e.1 {
        "/"@
    } else {
        Seq::empty()
    })
}

/// The lines of a directory preview: the directory's name, then its first entries
/// (the last one drawn as the end of the tree), `...` when more follow, or `(empty)`.
pub open spec fn listing_lines(label: Seq<char>, sorted: Seq<(Seq<char>, bool)>) -> Seq<Seq<char>> {
    let n = sorted.len();
    let head = seq![label + "/"@];
    if n == 0 {
        head.push("`-- (empty)"@)
    } else {
        let shown: nat = if n > MAX_DIRECTORY_PREVIEW_ENTRIES {
            MAX_DIRECTORY_PREVIEW_ENTRIES as nat
        } else {
            n
        };
        head + Seq::new(shown, |i: int| entry_line(sorted[i], i + 1 == n)) + (if n > MAX_DIRECTORY_PREVIEW_ENTRIES {
            seq!["`-- ..."@]
        } else {
            Seq::empty()
        })
    }
}

/// What `Path::file_name` gives, as a string: the last component unless it is the
/// root, `.` or `..`.
pub open spec fn file_name_of(path: Seq<char>) -> Option<Seq<char>> {
    let c = path_components(path);
    if c.len() > 0 && c.last() != "/"@ && c.last() != "."@ && c.last() != ".."@ {
        Some(c.last())
    } else {
        None
    }
}

/// How a directory names itself in its preview: `/` for the root, else its file
/// name, else the whole path.
pub open spec fn directory_label(path: Seq<char>) -> Seq<char> {
    if path_eq(path, "/"@) {
        "/"@
    } else {
        match file_name_of(path) {
            Some(n) => n,
            None => path,
        }
    }
}

/// Executable form of [`directory_label`].
pub fn directory_display_name(path: &str) -> (r: String)
    ensures
        r@ == directory_label(path@),
{
    proof {
        reveal_strlit("/");
        reveal_strlit(".");
        reveal_strlit("..");
    }
    if paths_equal(path, "/") {
        return "/".to_string();
    }
    let parts = components_of(path);
    let n = parts.len();
    if n > 0 {
        let last = to_chars(parts[n - 1].as_str());
        let is_root = last.len() == 1 && last[0] == '/';
        let is_cur = last.len() == 1 && last[0] == '.';
        let is_parent = last.len() == 2 && last[0] == '.' && last[1] == '.';
        proof {
            assert(strings_view(parts@)[n - 1] == parts@[n - 1]@);
            if is_root {
                assert(last@ =~= "/"@);
            } else {
                assert(last@ != "/"@);
            }
            if is_cur {
                assert(last@ =~= "."@);
            } else {
                assert(last@ != "."@);
            }
            if is_parent {
                assert(last@ =~= ".."@);
            } else {
                assert(last@ != ".."@);
            }
        }
        if !is_root && !is_cur && !is_parent {
            return string_from_chars(last.as_slice());
        }
    }
    path.to_string()
}

/// An entry being listed, with the lower-case form of its name.
struct ListingEntry {
    name: String,
    is_dir: bool,
    sort_name: String,
}

spec fn listing_entry_view(e: ListingEntry) -> (Seq<char>, bool) {
    (e.name@, e.is_dir)
}

impl StrictOrder for ListingEntry {
    closed spec fn before(a: Self, b: Self) -> bool {
        (a.is_dir && !b.is_dir) || (a.is_dir == b.is_dir && lex_lt(a.sort_name@, b.sort_name@))
    }

    proof fn lemma_irreflexive(a: Self) {
        lemma_lex_irreflexive(a.sort_name@);
    }

    proof fn lemma_transitive(a: Self, b: Self, c: Self) {
        if a.is_dir == b.is_dir && b.is_dir == c.is_dir {
            lemma_lex_transitive(a.sort_name@, b.sort_name@, c.sort_name@);
        }
    }

    proof fn lemma_neg_transitive(a: Self, b: Self, c: Self) {
        lemma_lex_total(c.sort_name@, b.sort_name@);
        if a.is_dir == b.is_dir && b.is_dir == c.is_dir && c.sort_name@ != b.sort_name@ {
            lemma_lex_asymmetric(b.sort_name@, c.sort_name@);
            lemma_lex_transitive(a.sort_name@, b.sort_name@, c.sort_name@);
        }
    }

    fn precedes(&self, other: &Self) -> (r: bool) {
        if self.is_dir != other.is_dir {
            return self.is_dir;
        }
        lex_less(&to_chars(self.sort_name.as_str()), &to_chars(other.sort_name.as_str()))
    }
}

/// Sorting listing entries by their sort names sorts their views in listing order.
proof fn lemma_listing_order(out: Seq<ListingEntry>, input: Seq<ListingEntry>, perm: Seq<int>)
    requires
        is_stable_sort_of(out, input, perm),
        forall|k: int| 0 <= k < input.len() ==> (#[trigger] input[k]).sort_name@ == lowercase(input[k].name@),
    ensures
        is_listing_order_of(out.map_values(|e: ListingEntry| listing_entry_view(e)), input.map_values(|e: ListingEntry| listing_entry_view(e)), perm),
{
    let o = out.map_values(|e: ListingEntry| listing_entry_view(e));
    let i = input.map_values(|e: ListingEntry| listing_entry_view(e));
    assert forall|k: int| 0 <= k < out.len() implies (#[trigger] out[k]).sort_name@ == lowercase(out[k].name@) by {
        assert(out[k] == input[perm[k]]);
    }
    assert forall|k: int| 0 <= k < o.len() implies 0 <= #[trigger] perm[k] < i.len() && o[k] == i[perm[k]] by {
        assert(out[k] == input[perm[k]]);
    }
    assert forall|k: int, l: int| 0 <= k < l < o.len() implies !listing_before(#[trigger] o[l], #[trigger] o[k]) by {
        assert(!ListingEntry::before(out[l], out[k]));
        assert(out[k].sort_name@ == lowercase(out[k].name@));
        assert(out[l].sort_name@ == lowercase(out[l].name@));
    }
    assert forall|k: int, l: int|
        0 <= k < l < o.len() && !listing_before(#[trigger] o[k], #[trigger] o[l]) implies perm[k] < perm[l] by {
        assert(out[k].sort_name@ == lowercase(out[k].name@));
        assert(out[l].sort_name@ == lowercase(out[l].name@));
        assert(!ListingEntry::before(out[k], out[l]));
    }
}

/// The preview of a directory at `path` from the entries read from it.
pub open spec fn directory_preview_text(path: Seq<char>, sorted: Seq<(Seq<char>, bool)>) -> Seq<char> {
    join_with(listing_lines(directory_label(path), sorted), '\n')
}

/// The preview of the directory at `path` whose entries are `entries`: hidden
/// entries left out, the rest in listing order.
pub fn directory_preview(path: &str, entries: Vec<(String, bool)>) -> (r: String)
    ensures
        exists|sorted: Seq<(Seq<char>, bool)>, perm: Seq<int>|
            #[trigger] is_listing_order_of(sorted, listed_entries(entries_view(entries@)), perm)
                && r@ == directory_preview_text(path@, sorted),
{
    let ghost es = entries_view(entries@);
    let mut kept: Vec<ListingEntry> = Vec::new();
    let mut i: usize = 0;
    assert(es.take(0) =~= Seq::<(Seq<char>, bool)>::empty());
    while i < entries.len()
        invariant
            es == entries_view(entries@),
            i <= entries@.len(),
            kept@.map_values(|e: ListingEntry| listing_entry_view(e)) == listed_entries(es.take(i as int)),
            forall|k: int| 0 <= k < kept@.len() ==> (#[trigger] kept@[k]).sort_name@ == lowercase(kept@[k].name@),
        decreases entries@.len() - i,
    {
        let name = &entries[i].0;
        let is_dir = entries[i].1;
        let chars = to_chars(name.as_str());
        let listed = chars.len() > 0 && chars[0] != '.';
        let ghost before = kept@.map_values(|e: ListingEntry| listing_entry_view(e));
        proof {
            assert(es.take(i as int + 1).drop_last() =~= es.take(i as int));
            assert(es.take(i as int + 1).last() == es[i as int]);
            assert(es[i as int] == (name@, is_dir));
        }
        if listed {
            let sort_name = to_lowercase(name.as_str());
            kept.push(ListingEntry { name: name.clone(), is_dir, sort_name });
            assert(kept@.map_values(|e: ListingEntry| listing_entry_view(e)) =~= before.push(es[i as int]));
        }
        i = i + 1;
    }
    assert(es.take(entries@.len() as int) =~= es);
    let ghost input = kept@;
    let sorted = stable_sort(kept);
    let ghost perm = choose|perm: Seq<int>| is_stable_sort_of(sorted@, input, perm);
    proof {
        lemma_listing_order(sorted@, input, perm);
    }
    let ghost view = sorted@.map_values(|e: ListingEntry| listing_entry_view(e));
    let n = sorted.len();
    let label = directory_display_name(path);
    let mut lines: Vec<Vec<char>> = Vec::new();
    let mut head = to_chars(label.as_str());
    head.push('/');
    proof {
        reveal_strlit("/");
        assert(head@ =~= label@ + "/"@);
    }
    lines.push(head);
    let ghost hd = seq![label@ + "/"@];
    assert(lines@.map_values(|l: Vec<char>| l@) =~= hd);
    if n == 0 {
        let mut empty: Vec<char> = Vec::new();
        append_str(&mut empty, "`-- (empty)");
        lines.push(empty);
        assert(lines@.map_values(|l: Vec<char>| l@) =~= hd.push("`-- (empty)"@));
    } else {
        let shown: usize = if n > MAX_DIRECTORY_PREVIEW_ENTRIES {
            MAX_DIRECTORY_PREVIEW_ENTRIES
        } else {
            n
        };
        let mut k: usize = 0;
        assert(hd + Seq::new(0, |j: int| entry_line(view[j], j + 1 == n)) =~= hd);
        while k < shown
            invariant
                view == sorted@.map_values(|e: ListingEntry| listing_entry_view(e)),
                n == view.len(),
                shown <= n,
                k <= shown,
                hd == seq![label@ + "/"@],
                lines@.map_values(|l: Vec<char>| l@) == hd + Seq::new(
                    k as nat,
                    |j: int| entry_line(view[j], j + 1 == n),
                ),
            decreases shown - k,
        {
            let ghost before = lines@.map_values(|l: Vec<char>| l@);
            let mut line: Vec<char> = Vec::new();
            if k + 1 == n {
                append_str(&mut line, "`-- ");
            } else {
                append_str(&mut line, "|-- ");
            }
            append_str(&mut line, sorted[k].name.as_str());
            if sorted[k].is_dir {
                line.push('/');
            }
            proof {
                reveal_strlit("/");
                assert(view[k as int] == (sorted@[k as int].name@, sorted@[k as int].is_dir));
                assert(line@ =~= entry_line(view[k as int], k + 1 == n));
            }
            lines.push(line);
            proof {
                let now = lines@.map_values(|l: Vec<char>| l@);
                let want = hd + Seq::new((k + 1) as nat, |j: int| entry_line(view[j], j + 1 == n));
                assert(before.len() == k + 1);
                assert(now.len() == k + 2);
                assert(want.len() == k + 2);
                assert forall|j: int| 0 <= j < now.len() implies now[j] == want[j] by {
                    if j < now.len() - 1 {
                        assert(now[j] == before[j]);
                    }
                }
                assert(now =~= want);
            }
            k = k + 1;
        }
        let ghost entries_part = hd + Seq::new(shown as nat, |j: int| entry_line(view[j], j + 1 == n));
        if n > MAX_DIRECTORY_PREVIEW_ENTRIES {
            let mut more: Vec<char> = Vec::new();
            append_str(&mut more, "`-- ...");
            lines.push(more);
            assert(lines@.map_values(|l: Vec<char>| l@) =~= entries_part + seq!["`-- ..."@]);
        } else {
            assert(entries_part + Seq::<Seq<char>>::empty() =~= entries_part);
        }
    }
    proof {
        reveal_strlit("/");
        assert(lines@.map_values(|l: Vec<char>| l@) =~= listing_lines(label@, view));
    }
    let body = join_lines(&lines, '\n');
    string_from_chars(body.as_slice())
}

/// The Markdown of a directory with a preview: the fallback text and the listing in
/// a fenced block.
pub open spec fn directory_preview_markdown(annotation: Seq<char>, name: Seq<char>, listing: Seq<char>) -> Seq<char> {
    fallback_text(annotation, name) + "\n\n~~~text\n"@ + listing + "\n~~~"@
}

/// The documentation of a directory item, from its entries when the directory could
/// be read (`entries` is `None` otherwise).
pub fn directory_documentation(annotation: &str, name: &str, path: &str, entries: Option<Vec<(String, bool)>>) -> (r: String)
    ensures
        match entries {
            None => r@ == fallback_text(annotation@, name@),
            Some(es) => exists|sorted: Seq<(Seq<char>, bool)>, perm: Seq<int>|
                #[trigger] is_listing_order_of(sorted, listed_entries(entries_view(es@)), perm)
                    && r@ == directory_preview_markdown(annotation@, name@, directory_preview_text(path@, sorted)),
        },
{
    match entries {
        None => fallback_completion_documentation(annotation, name),
        Some(es) => {
            let listing = directory_preview(path, es);
            let mut out: Vec<char> = Vec::new();
            append_str(&mut out, annotation);
            append_str(&mut out, " path completion for `");
            append_str(&mut out, name);
            append_str(&mut out, "`.");
            append_str(&mut out, "\n\n~~~text\n");
            append_str(&mut out, listing.as_str());
            append_str(&mut out, "\n~~~");
            assert(out@ =~= directory_preview_markdown(annotation@, name@, listing@));
            string_from_chars(out.as_slice())
        },
    }
}

/// The documentation of an item from its data: a file's from the first bytes of the
/// file, a directory's from its entries, each `None` where reading failed.
pub fn documentation_for_data(
    data: &CompletionItemData,
    file_contents: Option<&[u8]>,
    directory_entries: Option<Vec<(String, bool)>>,
) -> (r: String)
    ensures
        data.kind == CompletionItemPreviewKind::File ==> r@ == file_documentation_text(
            data.annotation@,
            data.name@,
            match file_contents {
                Some(b) => Some(b@),
                None => None,
            },
        ),
        data.kind == CompletionItemPreviewKind::Directory ==> match directory_entries {
            None => r@ == fallback_text(data.annotation@, data.name@),
            Some(es) => exists|sorted: Seq<(Seq<char>, bool)>, perm: Seq<int>|
                #[trigger] is_listing_order_of(sorted, listed_entries(entries_view(es@)), perm)
                    && r@ == directory_preview_markdown(data.annotation@, data.name@, directory_preview_text(data.path@, sorted)),
        },
{
    match data.kind {
        CompletionItemPreviewKind::File => file_documentation(data.annotation.as_str(), data.name.as_str(), file_contents),
        CompletionItemPreviewKind::Directory => directory_documentation(
            data.annotation.as_str(),
            data.name.as_str(),
            data.path.as_str(),
            directory_entries,
        ),
    }
}

proof fn lemma_listed_entries(es: Seq<(Seq<char>, bool)>)
    ensures
        listed_entries(es).len() <= es.len(),
        forall|k: int| 0 <= k < listed_entries(es).len() ==> entry_listed(#[trigger] listed_entries(es)[k]),
    decreases es.len(),
{
    if es.len() > 0 {
        lemma_listed_entries(es.drop_last());
    }
}

/// A directory preview lists only entries whose names are neither empty nor start
/// with `.`, and no more entries than were read.
pub proof fn lemma_listing_hides_dot_entries(es: Seq<(Seq<char>, bool)>, sorted: Seq<(Seq<char>, bool)>, perm: Seq<int>)
    requires
        is_listing_order_of(sorted, listed_entries(es), perm),
    ensures
        sorted.len() <= es.len(),
        forall|k: int| 0 <= k < sorted.len() ==> entry_listed(#[trigger] sorted[k]),
{
    lemma_listed_entries(es);
    assert forall|k: int| 0 <= k < sorted.len() implies entry_listed(#[trigger] sorted[k]) by {
        assert(sorted[k] == listed_entries(es)[perm[k]]);
    }
}

} // verus!

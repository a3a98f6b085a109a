//! Conversions between LSP positions (line, UTF-16 column), byte offsets and
//! tree-sitter points (row, byte column), and in-place range edits of a document.
use crate::chars::{
    byte_offset, char_utf16_width, char_utf8_width, lemma_byte_offset_full, lemma_utf8_len_concat,
    lemma_byte_offset_injective, lemma_byte_offset_mono, lemma_byte_offset_step, str_byte_len, string_from_chars,
    to_chars, utf16_width, utf8_len, utf8_width,
};
use vstd::prelude::*;

verus! {

/// A zero-based line and UTF-16 column, as the language server protocol counts them.
#[derive(Clone, Copy, Debug, PartialEq, Eq, Structural)]
pub struct Position {
    pub line: u32,
    pub character: u32,
}

/// A span between two positions.
#[derive(Clone, Copy, Debug, PartialEq, Eq, Structural)]
pub struct Range {
    pub start: Position,
    pub end: Position,
}

/// A zero-based row and byte column, as tree-sitter counts them.
#[derive(Clone, Copy, Debug, PartialEq, Eq, Structural)]
pub struct Point {
    pub row: usize,
    pub column: usize,
}

/// A description of one text edit in the form a syntax tree needs to follow it.
#[derive(Clone, Copy, Debug, PartialEq, Eq, Structural)]
pub struct InputEdit {
    pub start_byte: usize,
    pub old_end_byte: usize,
    pub new_end_byte: usize,
    pub start_position: Point,
    pub old_end_position: Point,
    pub new_end_position: Point,
}

impl Position {
    pub fn new(line: u32, character: u32) -> (p: Position)
        ensures
            p.line == line,
            p.character == character,
    {
        Position { line, character }
    }
}

impl Range {
    pub fn new(start: Position, end: Position) -> (r: Range)
        ensures
            r.start == start,
            r.end == end,
    {
        Range { start, end }
    }
}

/// Number of line breaks before character index `i`.
pub open spec fn line_of(cs: Seq<char>, i: int) -> nat
    decreases i,
{
    if i <= 0 {
        0
    } else {
        line_of(cs, i - 1) + if cs[i - 1] == '\n' {
            1nat
        } else {
            0nat
        }
    }
}

/// UTF-16 column of character index `i` within its line.
pub open spec fn column_of(cs: Seq<char>, i: int) -> nat
    decreases i,
{
    if i <= 0 {
        0
    } else if cs[i - 1] == '\n' {
        0
    } else {
        column_of(cs, i - 1) + utf16_width(cs[i - 1])
    }
}

/// The line number and UTF-16 column of character index `k` fit in 32 bits.
pub open spec fn position_fits(cs: Seq<char>, k: int) -> bool {
    line_of(cs, k) <= u32::MAX && column_of(cs, k) <= u32::MAX
}

/// Every line number and UTF-16 column of the text fits in 32 bits, as LSP positions
/// need: fewer than 2^32 lines, and fewer than 2^32 UTF-16 units on each line.
pub open spec fn positions_fit(cs: Seq<char>) -> bool {
    forall|k: int| 0 <= k <= cs.len() ==> #[trigger] position_fits(cs, k)
}

/// Byte column of character index `i` within its line.
pub open spec fn byte_column_of(cs: Seq<char>, i: int) -> nat
    decreases i,
{
    if i <= 0 {
        0
    } else if cs[i - 1] == '\n' {
        0
    } else {
        byte_column_of(cs, i - 1) + utf8_width(cs[i - 1])
    }
}

pub open spec fn at_position(cs: Seq<char>, i: int, line: int, character: int) -> bool {
    line_of(cs, i) == line && column_of(cs, i) == character
}

/// `i` is the first character index (end of text included) that sits at the given position.
pub open spec fn first_at_position(cs: Seq<char>, i: int, line: int, character: int) -> bool {
    &&& 0 <= i <= cs.len()
    &&& at_position(cs, i, line, character)
    &&& forall|j: int| 0 <= j < i ==> !at_position(cs, j, line, character)
}

/// Byte offset of a position in the text, if the position lies in it.
pub open spec fn position_offset(cs: Seq<char>, p: Position) -> Option<nat> {
    if exists|i: int| first_at_position(cs, i, p.line as int, p.character as int) {
        let i = choose|i: int| first_at_position(cs, i, p.line as int, p.character as int);
        Some(byte_offset(cs, i))
    } else {
        None
    }
}

/// Character index of a position in the text, if the position lies in it.
pub open spec fn position_index(cs: Seq<char>, p: Position) -> Option<int> {
    if exists|i: int| first_at_position(cs, i, p.line as int, p.character as int) {
        Some(choose|i: int| first_at_position(cs, i, p.line as int, p.character as int))
    } else {
        None
    }
}

/// Character index whose byte offset is `b`, if `b` is a character boundary of the text.
pub open spec fn char_index_at_byte(cs: Seq<char>, b: int) -> Option<int> {
    if exists|i: int| 0 <= i <= cs.len() && byte_offset(cs, i) == b {
        Some(choose|i: int| 0 <= i <= cs.len() && byte_offset(cs, i) == b)
    } else {
        None
    }
}

pub open spec fn position_at(cs: Seq<char>, i: int) -> Position {
    Position { line: line_of(cs, i) as u32, character: column_of(cs, i) as u32 }
}

pub open spec fn point_at(cs: Seq<char>, i: int) -> Point {
    Point { row: line_of(cs, i) as usize, column: byte_column_of(cs, i) as usize }
}

/// Position of the byte offset `b`, when `b` is a character boundary.
pub open spec fn offset_position(cs: Seq<char>, b: int) -> Option<Position> {
    match char_index_at_byte(cs, b) {
        Some(i) => Some(position_at(cs, i)),
        None => None,
    }
}

/// Row and byte column of the byte offset `b`, when `b` is a character boundary.
pub open spec fn offset_point(cs: Seq<char>, b: int) -> Option<Point> {
    match char_index_at_byte(cs, b) {
        Some(i) => Some(point_at(cs, i)),
        None => None,
    }
}

/// The point reached from `p` by writing the characters `cs`.
pub open spec fn advance(p: Point, cs: Seq<char>) -> Point
    decreases cs.len(),
{
    if cs.len() == 0 {
        p
    } else {
        let last = cs.last();
        let q = advance(p, cs.drop_last());
        if last == '\n' {
            Point { row: (q.row + 1) as usize, column: 0 }
        } else {
            Point { row: q.row, column: (q.column + utf8_width(last)) as usize }
        }
    }
}

pub proof fn lemma_line_mono(cs: Seq<char>, i: int, j: int)
    requires
        0 <= i <= j <= cs.len(),
    ensures
        line_of(cs, i) <= line_of(cs, j),
    decreases j - i,
{
    if i < j {
        lemma_line_mono(cs, i, j - 1);
    }
}

/// Lines and columns never exceed the byte offset they describe.
pub proof fn lemma_position_bounds(cs: Seq<char>, i: int)
    requires
        0 <= i <= cs.len(),
    ensures
        line_of(cs, i) <= i,
        column_of(cs, i) <= byte_column_of(cs, i),
        byte_column_of(cs, i) <= byte_offset(cs, i),
        i <= byte_offset(cs, i),
    decreases i,
{
    if i > 0 {
        lemma_position_bounds(cs, i - 1);
        lemma_byte_offset_step(cs, i - 1);
    }
    lemma_byte_offset_mono(cs, 0, i);
}

pub proof fn lemma_char_index_at_byte(cs: Seq<char>, i: int)
    requires
        0 <= i <= cs.len(),
    ensures
        char_index_at_byte(cs, byte_offset(cs, i) as int) == Some(i),
{
    let b = byte_offset(cs, i) as int;
    assert(0 <= i <= cs.len() && byte_offset(cs, i) == b);
    let k = choose|k: int| 0 <= k <= cs.len() && byte_offset(cs, k) == b;
    lemma_byte_offset_injective(cs, i, k);
}

proof fn lemma_first_at_unique(cs: Seq<char>, i: int, p: Position)
    requires
        first_at_position(cs, i, p.line as int, p.character as int),
    ensures
        position_offset(cs, p) == Some(byte_offset(cs, i)),
{
    let k = choose|k: int| first_at_position(cs, k, p.line as int, p.character as int);
    if k < i {
        assert(!at_position(cs, k, p.line as int, p.character as int));
    }
    if i < k {
        assert(!at_position(cs, i, p.line as int, p.character as int));
    }
}

/// The first index at a position is the one [`position_index`] names, and the byte
/// offset of the position is that index's offset.
pub proof fn lemma_position_index(cs: Seq<char>, i: int, p: Position)
    requires
        first_at_position(cs, i, p.line as int, p.character as int),
    ensures
        position_index(cs, p) == Some(i),
        position_offset(cs, p) == Some(byte_offset(cs, i)),
{
    let k = choose|k: int| first_at_position(cs, k, p.line as int, p.character as int);
    if k < i {
        assert(!at_position(cs, k, p.line as int, p.character as int));
    }
    if i < k {
        assert(!at_position(cs, i, p.line as int, p.character as int));
    }
    lemma_first_at_unique(cs, i, p);
}

/// A position in the text lies at most at its end.
pub proof fn lemma_position_offset_bound(cs: Seq<char>, p: Position)
    ensures
        position_offset(cs, p) matches Some(b) ==> b <= utf8_len(cs),
{
    if position_offset(cs, p) is Some {
        let i = choose|i: int| first_at_position(cs, i, p.line as int, p.character as int);
        lemma_byte_offset_mono(cs, i, cs.len() as int);
        lemma_byte_offset_full(cs);
    }
}

proof fn lemma_no_position(cs: Seq<char>, p: Position)
    requires
        forall|i: int| 0 <= i <= cs.len() ==> !at_position(cs, i, p.line as int, p.character as int),
    ensures
        position_offset(cs, p) is None,
{
}

/// Byte offset of an LSP position, or `None` when the position is not in the text.
pub fn position_to_offset(text: &str, position: Position) -> (r: Option<usize>)
    ensures
        r == match position_offset(text@, position) {
            Some(b) => Some(b as usize),
            None => None::<usize>,
        },
        r matches Some(b) ==> b <= utf8_len(text@),
{
    let total = str_byte_len(text);
    let chars = to_chars(text);
    match locate_position(&chars, total, position) {
        Some((_, b)) => Some(b),
        None => None,
    }
}

/// Character index and byte offset of a position.
pub fn locate_position(chars: &Vec<char>, total: usize, position: Position) -> (r: Option<(usize, usize)>)
    requires
        total == utf8_len(chars@),
    ensures
        match r {
            Some((k, b)) => first_at_position(chars@, k as int, position.line as int, position.character as int)
                && b == byte_offset(chars@, k as int)
                && position_offset(chars@, position) == Some(b as nat),
            None => position_offset(chars@, position) is None,
        },
        r matches Some((k, b)) ==> b <= utf8_len(chars@),
{
    let ghost cs = chars@;
    let target_line = position.line as usize;
    let target_character = position.character as usize;
    let mut line: usize = 0;
    let mut character: usize = 0;
    let mut index: usize = 0;
    let mut k: usize = 0;
    proof {
        lemma_byte_offset_full(cs);
    }
    while k < chars.len()
        invariant
            cs == chars@,
            total == utf8_len(cs),
            byte_offset(cs, cs.len() as int) == utf8_len(cs),
            k <= cs.len(),
            line == line_of(cs, k as int),
            character == column_of(cs, k as int),
            index == byte_offset(cs, k as int),
            line <= target_line,
            target_line == position.line,
            target_character == position.character,
            forall|j: int| 0 <= j < k ==> !at_position(cs, j, position.line as int, position.character as int),
        decreases cs.len() - k,
    {
        if line == target_line && character == target_character {
            proof {
                lemma_first_at_unique(cs, k as int, position);
                lemma_byte_offset_mono(cs, k as int, cs.len() as int);
            }
            return Some((k, index));
        }
        let ch = chars[k];
        proof {
            lemma_position_bounds(cs, k as int + 1);
            lemma_byte_offset_step(cs, k as int);
            lemma_byte_offset_mono(cs, k as int + 1, cs.len() as int);
        }
        if ch == '\n' {
            line = line + 1;
            character = 0;
            if line > target_line {
                proof {
                    assert forall|j: int| 0 <= j <= cs.len() implies !at_position(
                        cs,
                        j,
                        position.line as int,
                        position.character as int,
                    ) by {
                        if j > k {
                            lemma_line_mono(cs, k as int + 1, j);
                        }
                    }
                    lemma_no_position(cs, position);
                }
                return None;
            }
        } else {
            character = character + char_utf16_width(ch);
        }
        index = index + char_utf8_width(ch);
        k = k + 1;
    }
    if line == target_line && character == target_character {
        proof {
            lemma_first_at_unique(cs, k as int, position);
        }
        Some((k, index))
    } else {
        proof {
            lemma_no_position(cs, position);
        }
        None
    }
}

/// Character index of a byte offset, or `None` when the offset is not a character boundary.
pub fn locate_offset(chars: &Vec<char>, offset: usize) -> (r: Option<usize>)
    ensures
        match r {
            Some(k) => char_index_at_byte(chars@, offset as int) == Some(k as int)
                && k <= chars@.len() && byte_offset(chars@, k as int) == offset,
            None => char_index_at_byte(chars@, offset as int) is None,
        },
{
    let ghost cs = chars@;
    let mut index: usize = 0;
    let mut k: usize = 0;
    while k < chars.len()
        invariant
            cs == chars@,
            k <= cs.len(),
            index == byte_offset(cs, k as int),
            index <= offset,
            forall|j: int| 0 <= j < k ==> byte_offset(cs, j) != offset,
        decreases cs.len() - k,
    {
        if index == offset {
            proof {
                lemma_char_index_at_byte(cs, k as int);
            }
            return Some(k);
        }
        let w = char_utf8_width(chars[k]);
        proof {
            lemma_byte_offset_step(cs, k as int);
        }
        if w > offset - index {
            proof {
                assert forall|j: int| 0 <= j <= cs.len() implies byte_offset(cs, j) != offset by {
                    if j > k {
                        lemma_byte_offset_mono(cs, k as int + 1, j);
                    }
                }
            }
            return None;
        }
        index = index + w;
        k = k + 1;
    }
    if index == offset {
        proof {
            lemma_char_index_at_byte(cs, k as int);
        }
        Some(k)
    } else {
        None
    }
}

/// Line and UTF-16 column of the character at index `k`.
pub fn position_at_index(chars: &Vec<char>, k: usize) -> (p: Position)
    requires
        k <= chars@.len(),
        positions_fit(chars@),
    ensures
        p == position_at(chars@, k as int),
{
    let ghost cs = chars@;
    let mut line: u32 = 0;
    let mut character: u32 = 0;
    let mut i: usize = 0;
    proof {
        lemma_byte_offset_mono(cs, 0, cs.len() as int);
        lemma_byte_offset_full(cs);
    }
    while i < k
        invariant
            cs == chars@,
            i <= k <= cs.len(),
            positions_fit(cs),
            byte_offset(cs, cs.len() as int) == utf8_len(cs),
            line == line_of(cs, i as int),
            character == column_of(cs, i as int),
        decreases k - i,
    {
        let ch = chars[i];
        proof {
            assert(position_fits(cs, i as int + 1));
        }
        if ch == '\n' {
            line = line + 1;
            character = 0;
        } else {
            character = character + char_utf16_width(ch) as u32;
        }
        i = i + 1;
    }
    Position { line, character }
}

/// Row and byte column of the character at index `k`.
pub fn point_at_index(chars: &Vec<char>, total: usize, k: usize) -> (p: Point)
    requires
        k <= chars@.len(),
        total == utf8_len(chars@),
    ensures
        p == point_at(chars@, k as int),
{
    let ghost cs = chars@;
    let mut row: usize = 0;
    let mut column: usize = 0;
    let mut i: usize = 0;
    proof {
        lemma_byte_offset_full(cs);
    }
    while i < k
        invariant
            cs == chars@,
            i <= k <= cs.len(),
            total == utf8_len(cs),
            byte_offset(cs, cs.len() as int) == utf8_len(cs),
            row == line_of(cs, i as int),
            column == byte_column_of(cs, i as int),
        decreases k - i,
    {
        let ch = chars[i];
        proof {
            lemma_position_bounds(cs, i as int + 1);
            lemma_byte_offset_mono(cs, i as int + 1, cs.len() as int);
        }
        if ch == '\n' {
            row = row + 1;
            column = 0;
        } else {
            column = column + char_utf8_width(ch);
        }
        i = i + 1;
    }
    Point { row, column }
}

/// LSP position of a byte offset, or `None` when the offset is not a character boundary.
pub fn offset_to_position(text: &str, offset: usize) -> (r: Option<Position>)
    requires
        positions_fit(text@),
    ensures
        r == offset_position(text@, offset as int),
{
    let chars = to_chars(text);
    match locate_offset(&chars, offset) {
        Some(k) => Some(position_at_index(&chars, k)),
        None => None,
    }
}

/// The range between two byte offsets, when both are character boundaries.
pub fn range_from_offsets(text: &str, start: usize, end: usize) -> (r: Option<Range>)
    requires
        positions_fit(text@),
    ensures
        r == match (offset_position(text@, start as int), offset_position(text@, end as int)) {
            (Some(s), Some(e)) => Some(Range { start: s, end: e }),
            _ => None::<Range>,
        },
{
    let start_position = offset_to_position(text, start)?;
    let end_position = offset_to_position(text, end)?;
    Some(Range::new(start_position, end_position))
}

/// Tree-sitter point of a byte offset, or `None` when the offset is not a character boundary.
pub fn offset_to_point(text: &str, offset: usize) -> (r: Option<Point>)
    ensures
        r == offset_point(text@, offset as int),
{
    let total = str_byte_len(text);
    let chars = to_chars(text);
    match locate_offset(&chars, offset) {
        Some(k) => Some(point_at_index(&chars, total, k)),
        None => None,
    }
}

/// The point reached from `point` by writing `text`.
pub fn advance_point(point: Point, text: &str) -> (r: Point)
    requires
        point.row + utf8_len(text@) <= usize::MAX,
        point.column + utf8_len(text@) <= usize::MAX,
    ensures
        r == advance(point, text@),
{
    let chars = to_chars(text);
    let ghost cs = chars@;
    let mut p = point;
    let mut i: usize = 0;
    proof {
        lemma_byte_offset_full(cs);
        assert(cs.take(0) =~= Seq::<char>::empty());
    }
    while i < chars.len()
        invariant
            cs == chars@,
            i <= cs.len(),
            byte_offset(cs, cs.len() as int) == utf8_len(cs),
            point.row + utf8_len(cs) <= usize::MAX,
            point.column + utf8_len(cs) <= usize::MAX,
            p == advance(point, cs.take(i as int)),
            p.row <= point.row + byte_offset(cs, i as int),
            p.column <= point.column + byte_offset(cs, i as int),
        decreases cs.len() - i,
    {
        let ch = chars[i];
        proof {
            lemma_byte_offset_step(cs, i as int);
            lemma_byte_offset_mono(cs, i as int + 1, cs.len() as int);
            assert(cs.take(i as int + 1).drop_last() =~= cs.take(i as int));
        }
        if ch == '\n' {
            p = Point { row: p.row + 1, column: 0 };
        } else {
            p = Point { row: p.row, column: p.column + char_utf8_width(ch) };
        }
        i = i + 1;
    }
    proof {
        assert(cs.take(cs.len() as int) =~= cs);
    }
    p
}

/// Later characters sit at later positions: on a later line, or further along the
/// same line.
proof fn lemma_position_increases(cs: Seq<char>, i: int, j: int)
    requires
        0 <= i < j <= cs.len(),
    ensures
        line_of(cs, i) < line_of(cs, j) || (line_of(cs, i) == line_of(cs, j) && column_of(cs, i) < column_of(
            cs,
            j,
        )),
    decreases j - i,
{
    if j > i + 1 {
        lemma_position_increases(cs, i, j - 1);
    }
}

/// The position of a position's offset is that position.
pub proof fn lemma_position_round_trip(cs: Seq<char>, p: Position)
    ensures
        position_offset(cs, p) matches Some(b) ==> offset_position(cs, b as int) == Some(p),
{
    if position_offset(cs, p) is Some {
        let i = choose|i: int| first_at_position(cs, i, p.line as int, p.character as int);
        lemma_char_index_at_byte(cs, i);
    }
}

/// Executable form of [`positions_fit`].
pub fn text_positions_fit(text: &str) -> (r: bool)
    ensures
        r == positions_fit(text@),
{
    let chars = to_chars(text);
    let ghost cs = chars@;
    let mut line: u64 = 0;
    let mut character: u64 = 0;
    let mut i: usize = 0;
    while i < chars.len()
        invariant
            cs == chars@,
            cs == text@,
            i <= cs.len(),
            line == line_of(cs, i as int),
            character == column_of(cs, i as int),
            forall|k: int| 0 <= k <= i ==> #[trigger] position_fits(cs, k),
        decreases cs.len() - i,
    {
        let ch = chars[i];
        assert(position_fits(cs, i as int));
        if ch == '\n' {
            line = line + 1;
            character = 0;
        } else {
            character = character + char_utf16_width(ch) as u64;
        }
        i = i + 1;
        if line > 0xFFFF_FFFF || character > 0xFFFF_FFFF {
            assert(!position_fits(cs, i as int));
            return false;
        }
        assert(position_fits(cs, i as int));
    }
    true
}

/// The offset of an offset's position is that offset, for texts whose line and
/// column numbers fit in 32 bits.
pub proof fn lemma_offset_round_trip(cs: Seq<char>, b: int)
    requires
        positions_fit(cs),
    ensures
        offset_position(cs, b) matches Some(p) ==> position_offset(cs, p) == Some(b as nat),
{
    if let Some(i) = char_index_at_byte(cs, b) {
        let p = position_at(cs, i);
        assert(position_fits(cs, i));
        lemma_byte_offset_mono(cs, i, cs.len() as int);
        lemma_byte_offset_full(cs);
        assert(first_at_position(cs, i, p.line as int, p.character as int)) by {
            assert forall|j: int| 0 <= j < i implies !at_position(cs, j, p.line as int, p.character as int) by {
                lemma_position_increases(cs, j, i);
            }
        }
        lemma_first_at_unique(cs, i, p);
    }
}

/// The edit description and the resulting text of replacing `range` by `new`,
/// when both ends of the range lie in the text.
pub open spec fn range_change(cs: Seq<char>, range: Range, new: Seq<char>) -> Option<(InputEdit, Seq<char>)> {
    match (position_offset(cs, range.start), position_offset(cs, range.end)) {
        (Some(s), Some(e)) => {
            let si = char_index_at_byte(cs, s as int)->0;
            let ei = char_index_at_byte(cs, e as int)->0;
            let sp = point_at(cs, si);
            Some(
                (
                    InputEdit {
                        start_byte: s as usize,
                        old_end_byte: e as usize,
                        new_end_byte: (s + utf8_len(new)) as usize,
                        start_position: sp,
                        old_end_position: point_at(cs, ei),
                        new_end_position: advance(sp, new),
                    },
                    cs.take(si) + new + cs.skip(ei),
                ),
            )
        },
        _ => None,
    }
}

/// Lines and byte columns depend only on the text before the index.
proof fn lemma_point_prefix(a: Seq<char>, b: Seq<char>, i: int)
    requires
        0 <= i <= a.len(),
        i <= b.len(),
        a.take(i) == b.take(i),
    ensures
        line_of(a, i) == line_of(b, i),
        byte_column_of(a, i) == byte_column_of(b, i),
    decreases i,
{
    if i > 0 {
        assert(a.take(i - 1) =~= a.take(i).take(i - 1));
        assert(b.take(i - 1) =~= b.take(i).take(i - 1));
        assert(a[i - 1] == a.take(i)[i - 1]);
        assert(b[i - 1] == b.take(i)[i - 1]);
        lemma_point_prefix(a, b, i - 1);
    }
}

/// Writing the characters from index `i` on moves the point of `i` to the point
/// after them.
proof fn lemma_advance(t: Seq<char>, i: int, k: int)
    requires
        utf8_len(t) <= usize::MAX,
        0 <= i,
        0 <= k,
        i + k <= t.len(),
    ensures
        point_at(t, i + k) == advance(point_at(t, i), t.subrange(i, i + k)),
    decreases k,
{
    lemma_byte_offset_full(t);
    if k == 0 {
        assert(t.subrange(i, i) =~= Seq::<char>::empty());
    } else {
        lemma_advance(t, i, k - 1);
        let sub = t.subrange(i, i + k);
        assert(sub.drop_last() =~= t.subrange(i, i + k - 1));
        assert(sub.last() == t[i + k - 1]);
        lemma_position_bounds(t, i + k);
        lemma_position_bounds(t, i + k - 1);
        lemma_byte_offset_mono(t, i + k, t.len() as int);
    }
}

/// The edit that describes a range change agrees with the text it leaves: the new
/// text lies between the start and the new end offset, at the start and new end
/// points, and the old end lies at the old end point of the old text.
pub proof fn lemma_edit_matches_text(cs: Seq<char>, range: Range, new: Seq<char>)
    requires
        range_is_ordered(cs, range),
        utf8_len(cs) + utf8_len(new) <= usize::MAX,
    ensures
        range_change(cs, range, new) matches Some((edit, t)) ==> {
            &&& offset_point(t, edit.start_byte as int) == Some(edit.start_position)
            &&& offset_point(t, edit.new_end_byte as int) == Some(edit.new_end_position)
            &&& offset_point(cs, edit.old_end_byte as int) == Some(edit.old_end_position)
            &&& t.subrange(
                char_index_at_byte(t, edit.start_byte as int)->0,
                char_index_at_byte(t, edit.new_end_byte as int)->0,
            ) == new
        },
{
    if let (Some(sb), Some(eb)) = (position_offset(cs, range.start), position_offset(cs, range.end)) {
        let i = choose|i: int| first_at_position(cs, i, range.start.line as int, range.start.character as int);
        let j = choose|j: int| first_at_position(cs, j, range.end.line as int, range.end.character as int);
        lemma_char_index_at_byte(cs, i);
        lemma_char_index_at_byte(cs, j);
        lemma_position_index(cs, i, range.start);
        lemma_position_index(cs, j, range.end);
        if j < i {
            lemma_byte_offset_mono(cs, j, i);
            lemma_byte_offset_injective(cs, j, i);
        }
        let t = cs.take(i) + new + cs.skip(j);
        assert(t.take(i) =~= cs.take(i));
        assert(t.take(i + new.len()) =~= cs.take(i) + new);
        assert(t.subrange(i, i + new.len()) =~= new);
        lemma_utf8_len_concat(cs.take(i), new);
        lemma_utf8_len_concat(cs.take(i) + new, cs.skip(j));
        assert(cs =~= cs.take(j) + cs.skip(j));
        lemma_utf8_len_concat(cs.take(j), cs.skip(j));
        lemma_byte_offset_mono(cs, i, j);
        lemma_byte_offset_mono(cs, j, cs.len() as int);
        lemma_byte_offset_full(cs);
        lemma_char_index_at_byte(t, i);
        lemma_char_index_at_byte(t, i + new.len());
        lemma_point_prefix(cs, t, i);
        lemma_advance(t, i, new.len() as int);
    }
}

/// A range whose ends both lie in the text does not end before it starts.
pub open spec fn range_is_ordered(cs: Seq<char>, range: Range) -> bool {
    match (position_offset(cs, range.start), position_offset(cs, range.end)) {
        (Some(s), Some(e)) => s <= e,
        _ => true,
    }
}

/// Replaces `range` of `text` by `new_text` and describes the edit; leaves the text
/// unchanged and returns `None` when an end of the range is not in the text.
pub fn apply_range_change(text: &mut String, range: Range, new_text: &str) -> (r: Option<InputEdit>)
    requires
        range_is_ordered(old(text)@, range),
        utf8_len(old(text)@) + utf8_len(new_text@) <= usize::MAX,
    ensures
        match range_change(old(text)@, range, new_text@) {
            Some((edit, t)) => r == Some(edit) && final(text)@ == t,
            None => r is None && final(text)@ == old(text)@,
        },
{
    let ghost cs = text@;
    let total = str_byte_len(text.as_str());
    let chars = to_chars(text.as_str());
    let (si, start_byte) = match locate_position(&chars, total, range.start) {
        Some(found) => found,
        None => return None,
    };
    let (ei, old_end_byte) = match locate_position(&chars, total, range.end) {
        Some(found) => found,
        None => return None,
    };
    proof {
        lemma_char_index_at_byte(cs, si as int);
        lemma_char_index_at_byte(cs, ei as int);
        if ei < si {
            lemma_byte_offset_mono(cs, ei as int, si as int);
        }
        lemma_position_bounds(cs, si as int);
        lemma_byte_offset_mono(cs, si as int, cs.len() as int);
        lemma_byte_offset_full(cs);
    }
    let start_position = point_at_index(&chars, total, si);
    let old_end_position = point_at_index(&chars, total, ei);
    let new_len = str_byte_len(new_text);
    let new_end_position = advance_point(start_position, new_text);
    let new_end_byte = start_byte + new_len;
    let new_chars = to_chars(new_text);
    let mut out: Vec<char> = Vec::new();
    let mut i: usize = 0;
    while i < si
        invariant
            cs == chars@,
            si <= ei <= cs.len(),
            i <= si,
            out@ == cs.take(i as int),
        decreases si - i,
    {
        out.push(chars[i]);
        i = i + 1;
        assert(out@ =~= cs.take(i as int));
    }
    let mut j: usize = 0;
    while j < new_chars.len()
        invariant
            out@ == cs.take(si as int) + new_chars@.take(j as int),
            j <= new_chars@.len(),
        decreases new_chars@.len() - j,
    {
        out.push(new_chars[j]);
        j = j + 1;
        assert(out@ =~= cs.take(si as int) + new_chars@.take(j as int));
    }
    let mut k: usize = ei;
    while k < chars.len()
        invariant
            cs == chars@,
            ei <= k <= cs.len(),
            out@ == cs.take(si as int) + new_chars@ + cs.subrange(ei as int, k as int),
        decreases cs.len() - k,
    {
        out.push(chars[k]);
        k = k + 1;
        assert(out@ =~= cs.take(si as int) + new_chars@ + cs.subrange(ei as int, k as int));
    }
    proof {
        assert(new_chars@.take(new_chars@.len() as int) =~= new_chars@);
        assert(cs.subrange(ei as int, cs.len() as int) =~= cs.skip(ei as int));
    }
    *text = string_from_chars(out.as_slice());
    Some(
        InputEdit {
            start_byte,
            old_end_byte,
            new_end_byte,
            start_position,
            old_end_position,
            new_end_position,
        },
    )
}

} // verus!

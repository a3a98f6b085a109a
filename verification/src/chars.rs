//! Character-level model of text: UTF-8 and UTF-16 widths, prefix byte lengths,
//! and conversions between `&str`, `String` and `Vec<char>`.
use vstd::prelude::*;
#[allow(unused_imports)]
use vstd::std_specs::iter::IteratorSpec;

verus! {

broadcast use vstd::string::group_string_axioms;

/// Number of bytes `c` occupies in UTF-8.
pub open spec fn utf8_width(c: char) -> nat {
    if (c as u32) <= 0x7F {
        1
    } else if (c as u32) <= 0x7FF {
        2
    } else if (c as u32) <= 0xFFFF {
        3
    } else {
        4
    }
}

/// Number of UTF-16 code units `c` occupies.
pub open spec fn utf16_width(c: char) -> nat {
    if (c as u32) <= 0xFFFF {
        1
    } else {
        2
    }
}

/// Byte length of the UTF-8 encoding of `cs`.
pub open spec fn utf8_len(cs: Seq<char>) -> nat
    decreases cs.len(),
{
    if cs.len() == 0 {
        0
    } else {
        utf8_width(cs[0]) + utf8_len(cs.drop_first())
    }
}

/// Byte offset of the character at index `i` of `cs`.
pub open spec fn byte_offset(cs: Seq<char>, i: int) -> nat {
    utf8_len(cs.take(i))
}

pub proof fn lemma_utf8_len_concat(a: Seq<char>, b: Seq<char>)
    ensures
        utf8_len(a + b) == utf8_len(a) + utf8_len(b),
    decreases a.len(),
{
    if a.len() == 0 {
        assert(a + b =~= b);
    } else {
        assert((a + b).drop_first() =~= a.drop_first() + b);
        lemma_utf8_len_concat(a.drop_first(), b);
    }
}

pub proof fn lemma_byte_offset_step(cs: Seq<char>, i: int)
    requires
        0 <= i < cs.len(),
    ensures
        byte_offset(cs, i + 1) == byte_offset(cs, i) + utf8_width(cs[i]),
{
    assert(cs.take(i + 1) =~= cs.take(i) + seq![cs[i]]);
    lemma_utf8_len_concat(cs.take(i), seq![cs[i]]);
    assert(seq![cs[i]].drop_first() =~= Seq::<char>::empty());
    assert(utf8_len(seq![cs[i]]) == utf8_width(cs[i]) + utf8_len(Seq::<char>::empty()));
}

pub proof fn lemma_byte_offset_mono(cs: Seq<char>, i: int, j: int)
    requires
        0 <= i <= j <= cs.len(),
    ensures
        byte_offset(cs, i) + (j - i) <= byte_offset(cs, j),
    decreases j - i,
{
    if i < j {
        lemma_byte_offset_mono(cs, i, j - 1);
        lemma_byte_offset_step(cs, j - 1);
    }
}

pub proof fn lemma_byte_offset_full(cs: Seq<char>)
    ensures
        byte_offset(cs, cs.len() as int) == utf8_len(cs),
{
    assert(cs.take(cs.len() as int) =~= cs);
}

/// Byte offsets are strictly increasing in the character index.
pub proof fn lemma_byte_offset_injective(cs: Seq<char>, i: int, j: int)
    requires
        0 <= i <= cs.len(),
        0 <= j <= cs.len(),
        byte_offset(cs, i) == byte_offset(cs, j),
    ensures
        i == j,
{
    if i < j {
        lemma_byte_offset_mono(cs, i, j);
    } else if j < i {
        lemma_byte_offset_mono(cs, j, i);
    }
}

proof fn lemma_scalar_width(c: char)
    ensures
        vstd::utf8::encode_scalar(c as u32).len() == utf8_width(c),
{
    vstd::utf8::char_is_scalar(c);
}

/// The UTF-8 width model agrees with the encoding `str` uses.
pub proof fn lemma_utf8_len_encode(cs: Seq<char>)
    ensures
        vstd::utf8::encode_utf8(cs).len() == utf8_len(cs),
    decreases cs.len(),
{
    if cs.len() > 0 {
        lemma_scalar_width(cs[0]);
        lemma_utf8_len_encode(cs.drop_first());
    }
}

/// The byte length of a string slice fits in `usize`.
pub fn str_byte_len(s: &str) -> (n: usize)
    ensures
        n == utf8_len(s@),
{
    let b = s.as_bytes();
    proof {
        lemma_utf8_len_encode(s@);
        vstd::slice::axiom_spec_len(b);
    }
    b.len()
}

/// Executable UTF-8 width of a character.
pub fn char_utf8_width(c: char) -> (w: usize)
    ensures
        w == utf8_width(c),
        1 <= w <= 4,
{
    let v = c as u32;
    if v <= 0x7F {
        1
    } else if v <= 0x7FF {
        2
    } else if v <= 0xFFFF {
        3
    } else {
        4
    }
}

/// Executable UTF-16 width of a character.
pub fn char_utf16_width(c: char) -> (w: usize)
    ensures
        w == utf16_width(c),
        1 <= w <= 2,
        w <= utf8_width(c),
{
    let v = c as u32;
    if v <= 0xFFFF {
        1
    } else {
        2
    }
}

/// The characters of `s`, in order.
pub fn to_chars(s: &str) -> (v: Vec<char>)
    ensures
        v@ == s@,
{
    let mut v: Vec<char> = Vec::new();
    for c in iter: s.chars()
        invariant
            v@ == iter.seq().take(iter.index() as int),
    {
        v.push(c);
        assert(v@ =~= iter.seq().take(iter.index() + 1));
    }
    assert(v@ =~= s@);
    v
}

/// Builds a string holding exactly the given characters (`FromIterator<char>` for `String`).
#[verifier::external_body]
pub(crate) fn string_from_chars(cs: &[char]) -> (s: String)
    ensures
        s@ == cs@,
{
    cs.iter().collect()
}

/// The bytes of a slice of the text are the difference of the two boundary offsets.
pub proof fn lemma_subrange_len(cs: Seq<char>, a: int, b: int)
    requires
        0 <= a <= b <= cs.len(),
    ensures
        utf8_len(cs.subrange(a, b)) == byte_offset(cs, b) - byte_offset(cs, a),
        utf8_len(cs.subrange(a, b)) <= utf8_len(cs),
{
    assert(cs.take(b) =~= cs.take(a) + cs.subrange(a, b));
    lemma_utf8_len_concat(cs.take(a), cs.subrange(a, b));
    lemma_byte_offset_mono(cs, b, cs.len() as int);
    lemma_byte_offset_full(cs);
}

/// Appends the characters of `s`.
pub fn append_str(out: &mut Vec<char>, s: &str)
    ensures
        final(out)@ == old(out)@ + s@,
{
    let cs = to_chars(s);
    let ghost base = out@;
    let mut i: usize = 0;
    while i < cs.len()
        invariant
            i <= cs@.len(),
            out@ == base + cs@.take(i as int),
        decreases cs@.len() - i,
    {
        out.push(cs[i]);
        i = i + 1;
        assert(out@ =~= base + cs@.take(i as int));
    }
    assert(cs@.take(cs@.len() as int) =~= cs@);
}

} // verus!

use vstd::prelude::*;

verus! {

/// The character sequence that stands for a byte sequence, byte by byte.
/// Every byte names a valid character, so this embedding is exact.
pub open spec fn chars_of(bs: Seq<u8>) -> Seq<char> {
    Seq::new(bs.len(), |i: int| bs[i] as char)
}

/// Two characters with the same code point are the same character.
pub proof fn lemma_char_eq(c1: char, c2: char)
    requires
        c1 as int == c2 as int,
    ensures
        c1 == c2,
{
    vstd::utf8::char_u32_cast(c1, c1 as u32);
    vstd::utf8::char_u32_cast(c2, c2 as u32);
}

/// A value below 256 keeps its value when narrowed to a byte.
pub proof fn lemma_u64_to_byte(x: u64)
    requires
        x < 256,
    ensures
        x as u8 as int == x as int,
{
    assert(x < 256 ==> x as u8 as u64 == x) by (bit_vector);
}

/// A value below 256 keeps its value when narrowed to a byte.
pub proof fn lemma_u32_to_byte(x: u32)
    requires
        x < 256,
    ensures
        x as u8 as int == x as int,
{
    assert(x < 256 ==> x as u8 as u32 == x) by (bit_vector);
}

/// A character whose code fits in a byte keeps its code when narrowed.
pub proof fn lemma_char_to_byte(c: char)
    requires
        (c as int) < 256,
    ensures
        (c as u8) as int == c as int,
{
    let u = c as u32;
    assert(u < 256 ==> u as u8 as u32 == u) by (bit_vector);
    assert(c as u8 == u as u8);
}

/// A text is narrow when every character's code fits in a byte of the
/// 7-bit wire range.
pub open spec fn all_narrow_chars(cs: Seq<char>) -> bool {
    forall|i: int| 0 <= i < cs.len() ==> (#[trigger] cs[i] as int) < 128
}

/// Index of the first character too wide for a byte (the length when none is).
pub open spec fn first_wide_char(cs: Seq<char>) -> int
    decreases cs.len(),
{
    if cs.len() == 0 {
        0
    } else if (cs[0] as int) >= 128 {
        0
    } else {
        1 + first_wide_char(cs.drop_first())
    }
}

pub proof fn lemma_first_wide_char_at(cs: Seq<char>, i: int)
    requires
        0 <= i < cs.len(),
        (cs[i] as int) >= 128,
        forall|j: int| 0 <= j < i ==> (#[trigger] cs[j] as int) < 128,
    ensures
        first_wide_char(cs) == i,
    decreases i,
{
    if i == 0 {
    } else {
        let rest = cs.drop_first();
        assert((cs[0] as int) < 128);
        assert(rest[i - 1] == cs[i]);
        assert forall|j: int| 0 <= j < i - 1 implies (#[trigger] rest[j] as int) < 128 by {
            assert(rest[j] == cs[j + 1]);
        }
        lemma_first_wide_char_at(rest, i - 1);
    }
}

/// The byte string that carries a narrow text; meaningful only when every
/// character's code fits in a byte.
pub open spec fn bytes_of(cs: Seq<char>) -> Seq<u8> {
    choose|bs: Seq<u8>| chars_of(bs) == cs
}

/// A narrow text is carried by exactly one byte string, and `bytes_of`
/// names it.
pub proof fn lemma_bytes_of_narrow(cs: Seq<char>)
    requires
        forall|i: int| 0 <= i < cs.len() ==> (#[trigger] cs[i] as int) < 256,
    ensures
        chars_of(bytes_of(cs)) == cs,
{
    let bs = Seq::new(cs.len(), |i: int| cs[i] as u8);
    assert forall|i: int| 0 <= i < cs.len() implies chars_of(bs)[i] == cs[i] by {
        lemma_char_to_byte(cs[i]);
        lemma_char_eq(bs[i] as char, cs[i]);
    }
    assert(chars_of(bs) =~= cs);
}

/// Two byte strings that carry the same text are the same byte string.
pub proof fn lemma_chars_of_injective(b1: Seq<u8>, b2: Seq<u8>)
    requires
        chars_of(b1) == chars_of(b2),
    ensures
        b1 == b2,
{
    assert(chars_of(b1).len() == b1.len());
    assert(chars_of(b2).len() == b2.len());
    assert forall|i: int| 0 <= i < b1.len() implies b1[i] == b2[i] by {
        assert(chars_of(b1)[i] == b1[i] as char);
        assert(chars_of(b2)[i] == b2[i] as char);
        assert(b1[i] as char as int == b1[i] as int);
        assert(b2[i] as char as int == b2[i] as int);
    }
    assert(b1 =~= b2);
}

/// The byte string built for a text is the one `bytes_of` names.
pub proof fn lemma_bytes_of_exact(cs: Seq<char>, bs: Seq<u8>)
    requires
        chars_of(bs) == cs,
    ensures
        bytes_of(cs) == bs,
{
    assert(chars_of(bytes_of(cs)) == cs);
    lemma_chars_of_injective(bytes_of(cs), bs);
}

/// Relies on String::push: appends one character at the end of the string.
pub assume_specification[ String::push ](s: &mut String, c: char)
    ensures
        final(s)@ == old(s)@.push(c),
;

} // verus!

use vstd::prelude::*;
use vstd::string::StrSliceExecFns;

use crate::chars::{chars_of, lemma_char_eq, lemma_u32_to_byte};
use crate::errors::EncodingError;

verus! {

/// Code point of alphabet entry i, for 0 <= i < 94. The order is fixed by the
/// wire format: lowercase, uppercase, digits, punctuation, space, newline.
pub open spec fn alphabet_code(i: int) -> int {
    if i < 26 {
        97 + i  // 'a'..='z'
    } else if i < 52 {
        65 + (i - 26)  // 'A'..='Z'
    } else if i < 62 {
        48 + (i - 52)  // '0'..='9'
    } else if i < 77 {
        33 + (i - 62)  // '!'..='/'
    } else if i < 84 {
        58 + (i - 77)  // ':'..='@'
    } else if i < 90 {
        91 + (i - 84)  // '['..='`'
    } else if i == 90 {
        124  // '|'
    } else if i == 91 {
        126  // '~'
    } else if i == 92 {
        32  // ' '
    } else {
        10  // '\n'
    }
}

pub open spec fn alphabet_char(i: int) -> char {
    alphabet_code(i) as char
}

/// Whether a code point has a slot in the 94-symbol alphabet.
pub open spec fn is_alphabet_code(c: int) -> bool {
    (97 <= c <= 122) || (65 <= c <= 90) || (48 <= c <= 57) || (33 <= c <= 47) || (58 <= c <= 64)
        || (91 <= c <= 96) || c == 124 || c == 126 || c == 32 || c == 10
}

pub open spec fn is_alphabet_char(c: char) -> bool {
    is_alphabet_code(c as int)
}

pub open spec fn all_alphabet_chars(s: Seq<char>) -> bool {
    forall|i: int| 0 <= i < s.len() ==> is_alphabet_char(#[trigger] s[i])
}

/// Slot of a code point in the alphabet; meaningful only on alphabet codes.
pub open spec fn alphabet_index(c: int) -> int {
    if 97 <= c <= 122 {
        c - 97
    } else if 65 <= c <= 90 {
        26 + (c - 65)
    } else if 48 <= c <= 57 {
        52 + (c - 48)
    } else if 33 <= c <= 47 {
        62 + (c - 33)
    } else if 58 <= c <= 64 {
        77 + (c - 58)
    } else if 91 <= c <= 96 {
        84 + (c - 91)
    } else if c == 124 {
        90
    } else if c == 126 {
        91
    } else if c == 32 {
        92
    } else {
        93
    }
}

/// A string payload byte must lie in the printable range 33..=126.
pub open spec fn is_payload_byte(b: u8) -> bool {
    33 <= b <= 126
}

pub open spec fn all_payload_bytes(bs: Seq<u8>) -> bool {
    forall|i: int| 0 <= i < bs.len() ==> is_payload_byte(#[trigger] bs[i])
}

/// Index of the first byte outside 33..=126 (the length when none is).
pub open spec fn first_bad_byte(bs: Seq<u8>) -> int
    decreases bs.len(),
{
    if bs.len() == 0 {
        0
    } else if !is_payload_byte(bs[0]) {
        0
    } else {
        1 + first_bad_byte(bs.drop_first())
    }
}

/// Index of the first character with no slot in the alphabet
/// (the length when all have one).
pub open spec fn first_unsupported(s: Seq<char>) -> int
    decreases s.len(),
{
    if s.len() == 0 {
        0
    } else if !is_alphabet_char(s[0]) {
        0
    } else {
        1 + first_unsupported(s.drop_first())
    }
}

/// The text named by an alphabet-encoded byte sequence: byte b names
/// alphabet entry b - 33.
pub open spec fn decoded_chars(bs: Seq<u8>) -> Seq<char> {
    Seq::new(bs.len(), |i: int| alphabet_char(bs[i] - 33))
}

/// The encoded form of a text, character by character: alphabet slot + 33.
pub open spec fn encoded_chars(s: Seq<char>) -> Seq<char> {
    Seq::new(s.len(), |i: int| (alphabet_index(s[i] as int) + 33) as char)
}

/// The two directions of the alphabet table are inverse to each other.
pub proof fn lemma_alphabet_inverse()
    ensures
        forall|i: int|
            0 <= i < 94 ==> is_alphabet_code(#[trigger] alphabet_code(i)) && alphabet_index(
                alphabet_code(i),
            ) == i,
        forall|c: int|
            #[trigger] is_alphabet_code(c) ==> 0 <= alphabet_index(c) < 94 && alphabet_code(
                alphabet_index(c),
            ) == c,
{
}

pub proof fn lemma_first_bad_byte_at(bs: Seq<u8>, i: int)
    requires
        0 <= i < bs.len(),
        !is_payload_byte(bs[i]),
        forall|j: int| 0 <= j < i ==> is_payload_byte(#[trigger] bs[j]),
    ensures
        first_bad_byte(bs) == i,
    decreases i,
{
    if i == 0 {
    } else {
        let rest = bs.drop_first();
        assert(is_payload_byte(bs[0]));
        assert(rest[i - 1] == bs[i]);
        assert forall|j: int| 0 <= j < i - 1 implies is_payload_byte(#[trigger] rest[j]) by {
            assert(rest[j] == bs[j + 1]);
        }
        lemma_first_bad_byte_at(rest, i - 1);
    }
}

pub proof fn lemma_first_unsupported_at(s: Seq<char>, i: int)
    requires
        0 <= i < s.len(),
        !is_alphabet_char(s[i]),
        forall|j: int| 0 <= j < i ==> is_alphabet_char(#[trigger] s[j]),
    ensures
        first_unsupported(s) == i,
    decreases i,
{
    if i == 0 {
    } else {
        let rest = s.drop_first();
        assert(is_alphabet_char(s[0]));
        assert(rest[i - 1] == s[i]);
        assert forall|j: int| 0 <= j < i - 1 implies is_alphabet_char(#[trigger] rest[j]) by {
            assert(rest[j] == s[j + 1]);
        }
        lemma_first_unsupported_at(rest, i - 1);
    }
}

/// Decoding the encoding of a text over the alphabet gives the text back:
/// this holds of every byte string that carries the encoded characters.
pub proof fn lemma_text_round_trip(s: Seq<char>, bs: Seq<u8>)
    requires
        all_alphabet_chars(s),
        chars_of(bs) == encoded_chars(s),
    ensures
        all_payload_bytes(bs),
        decoded_chars(bs) == s,
{
    lemma_alphabet_inverse();
    assert(chars_of(bs).len() == bs.len());
    assert(encoded_chars(s).len() == s.len());
    assert(bs.len() == s.len());
    assert forall|i: int| 0 <= i < bs.len() implies is_payload_byte(#[trigger] bs[i]) by {
        assert(chars_of(bs)[i] == encoded_chars(s)[i]);
        assert(is_alphabet_char(s[i]));
        let slot = alphabet_index(s[i] as int);
        assert(0 <= slot < 94);
        assert(chars_of(bs)[i] == bs[i] as char);
        assert(encoded_chars(s)[i] == (slot + 33) as char);
        assert((slot + 33) as char as int == slot + 33);
        assert(bs[i] as char as int == bs[i] as int);
        assert(bs[i] as int == slot + 33);
    }
    assert forall|i: int| 0 <= i < bs.len() implies decoded_chars(bs)[i] == s[i] by {
        assert(chars_of(bs)[i] == encoded_chars(s)[i]);
        assert(is_alphabet_char(s[i]));
        let slot = alphabet_index(s[i] as int);
        assert(0 <= slot < 94);
        assert(chars_of(bs)[i] == bs[i] as char);
        assert(encoded_chars(s)[i] == (slot + 33) as char);
        assert((slot + 33) as char as int == slot + 33);
        assert(bs[i] as char as int == bs[i] as int);
        assert(bs[i] as int == slot + 33);
        assert(alphabet_code(slot) == s[i] as int);
        lemma_char_eq(alphabet_char(bs[i] - 33), s[i]);
    }
    assert(decoded_chars(bs) =~= s);
}

/// Reads an alphabet-encoded string payload: every byte must lie in
/// 33..=126 and names the alphabet entry at its code less 33.
pub fn parse_str(b: &[u8]) -> (r: Result<String, EncodingError>)
    ensures
        r is Ok <==> all_payload_bytes(b@),
        r matches Ok(s) ==> s@ == decoded_chars(b@),
        !all_payload_bytes(b@) ==> r == Err::<String, EncodingError>(
            EncodingError::InvalidDigit(b@[first_bad_byte(b@)]),
        ),
{
    let mut out = String::new();
    let mut i: usize = 0;
    while i < b.len()
        invariant
            i <= b.len(),
            forall|j: int| 0 <= j < i ==> is_payload_byte(#[trigger] b@[j]),
            out@ =~= decoded_chars(b@).take(i as int),
        decreases b.len() - i,
    {
        let byte = b[i];
        if byte < 33 || byte > 126 {
            proof {
                lemma_first_bad_byte_at(b@, i as int);
            }
            return Err(EncodingError::InvalidDigit(byte));
        }
        let idx: u8 = byte - 33;
        let code: u8 = if idx < 26 {
            97 + idx
        } else if idx < 52 {
            65 + (idx - 26)
        } else if idx < 62 {
            48 + (idx - 52)
        } else if idx < 77 {
            33 + (idx - 62)
        } else if idx < 84 {
            58 + (idx - 77)
        } else if idx < 90 {
            91 + (idx - 84)
        } else if idx == 90 {
            124
        } else if idx == 91 {
            126
        } else if idx == 92 {
            32
        } else {
            10
        };
        proof {
            assert(code as int == alphabet_code(idx as int));
            lemma_char_eq(code as char, alphabet_char(idx as int));
            assert(decoded_chars(b@)[i as int] == code as char);
        }
        out.push(code as char);
        proof {
            assert(out@ =~= decoded_chars(b@).take(i + 1));
        }
        i += 1;
    }
    proof {
        assert(decoded_chars(b@).take(b@.len() as int) =~= decoded_chars(b@));
    }
    Ok(out)
}

/// Writes a text over the 94-symbol alphabet as payload bytes-as-characters:
/// each character becomes its alphabet slot + 33. A character with no slot
/// is reported, and nothing is written for such a text.
pub fn encode_str(s: &str) -> (r: Result<String, EncodingError>)
    ensures
        r is Ok <==> all_alphabet_chars(s@),
        r matches Ok(t) ==> t@ == encoded_chars(s@),
        !all_alphabet_chars(s@) ==> r == Err::<String, EncodingError>(
            EncodingError::UnsupportedCharacter(s@[first_unsupported(s@)]),
        ),
{
    let n = s.unicode_len();
    let mut out = String::new();
    let mut i: usize = 0;
    while i < n
        invariant
            n == s@.len(),
            i <= n,
            forall|j: int| 0 <= j < i ==> is_alphabet_char(#[trigger] s@[j]),
            out@ =~= encoded_chars(s@).take(i as int),
        decreases n - i,
    {
        let c = s.get_char(i);
        let code = c as u32;
        let slot: u32 = if 97 <= code && code <= 122 {
            code - 97
        } else if 65 <= code && code <= 90 {
            26 + (code - 65)
        } else if 48 <= code && code <= 57 {
            52 + (code - 48)
        } else if 33 <= code && code <= 47 {
            62 + (code - 33)
        } else if 58 <= code && code <= 64 {
            77 + (code - 58)
        } else if 91 <= code && code <= 96 {
            84 + (code - 91)
        } else if code == 124 {
            90
        } else if code == 126 {
            91
        } else if code == 32 {
            92
        } else if code == 10 {
            93
        } else {
            proof {
                assert(!is_alphabet_char(s@[i as int]));
                lemma_first_unsupported_at(s@, i as int);
            }
            return Err(EncodingError::UnsupportedCharacter(c));
        };
        let out_code: u32 = slot + 33;
        proof {
            assert(is_alphabet_char(s@[i as int]));
            assert(out_code as int == alphabet_index(c as int) + 33);
            lemma_u32_to_byte(out_code);
        }
        let byte: u8 = out_code as u8;
        proof {
            lemma_char_eq(byte as char, (alphabet_index(c as int) + 33) as char);
            assert(encoded_chars(s@)[i as int] == byte as char);
        }
        out.push(byte as char);
        proof {
            assert(out@ =~= encoded_chars(s@).take(i + 1));
        }
        i += 1;
    }
    proof {
        assert(encoded_chars(s@).take(s@.len() as int) =~= encoded_chars(s@));
    }
    Ok(out)
}

} // verus!

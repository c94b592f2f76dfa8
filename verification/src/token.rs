use vstd::prelude::*;
use vstd::string::StringExecFns;

use crate::base94::{all_digit_chars, base94_chars, base94_val, first_non_digit, lemma_base94_round_trip};
use crate::chars::{all_narrow_chars, bytes_of, chars_of, first_wide_char, lemma_bytes_of_exact, lemma_char_to_byte, lemma_first_wide_char_at};
use crate::errors::TokenStreamError;
use crate::errors::{EncodingError, TokenError};
use crate::text::{all_alphabet_chars, all_payload_bytes, decoded_chars, encoded_chars, first_bad_byte, lemma_text_round_trip};

verus! {

/// One lexical token of the wire format: a tag and an inline payload.
#[derive(Debug, Clone, PartialEq)]
pub enum Tok {
    Bool(bool),
    Int(u64),
    Str(String),
    Unop(char),
    Binop(char),
    If,
    Lam(u64),
    Var(u64),
}

/// The mathematical form of a token: numbers as integers, strings as
/// character sequences.
pub enum TokView {
    Bool(bool),
    Int(int),
    Str(Seq<char>),
    Unop(char),
    Binop(char),
    If,
    Lam(int),
    Var(int),
}

impl View for Tok {
    type V = TokView;

    open spec fn view(&self) -> TokView {
        match self {
            Tok::Bool(b) => TokView::Bool(*b),
            Tok::Int(n) => TokView::Int(*n as int),
            Tok::Str(s) => TokView::Str(s@),
            Tok::Unop(c) => TokView::Unop(*c),
            Tok::Binop(c) => TokView::Binop(*c),
            Tok::If => TokView::If,
            Tok::Lam(n) => TokView::Lam(*n as int),
            Tok::Var(n) => TokView::Var(*n as int),
        }
    }
}

/// A token that the wire format can carry: ids fit in 64 bits, string
/// payloads stay inside the alphabet, operator symbols are printable bytes.
pub open spec fn wf_token(t: TokView) -> bool {
    match t {
        TokView::Bool(_) => true,
        TokView::If => true,
        TokView::Int(n) => 0 <= n <= u64::MAX,
        TokView::Lam(n) => 0 <= n <= u64::MAX,
        TokView::Var(n) => 0 <= n <= u64::MAX,
        TokView::Str(s) => all_alphabet_chars(s),
        TokView::Unop(c) => 33 <= (c as int) <= 126,
        TokView::Binop(c) => 33 <= (c as int) <= 126,
    }
}

/// The text of one token: its tag character followed by its payload.
pub open spec fn token_text(t: TokView) -> Seq<char> {
    match t {
        TokView::Bool(b) => if b {
            seq!['T']
        } else {
            seq!['F']
        },
        TokView::Int(n) => seq!['I'] + base94_chars(n as nat),
        TokView::Str(s) => seq!['S'] + encoded_chars(s),
        TokView::Unop(c) => seq!['U', c],
        TokView::Binop(c) => seq!['B', c],
        TokView::If => seq!['?'],
        TokView::Lam(n) => seq!['L'] + base94_chars(n as nat),
        TokView::Var(n) => seq!['v'] + base94_chars(n as nat),
    }
}

/// What reading a base-94 numeral payload yields.
pub open spec fn spec_parse_num(bs: Seq<u8>) -> Result<int, EncodingError> {
    let cs = chars_of(bs);
    if !all_digit_chars(cs) {
        Err(EncodingError::InvalidDigit(bs[first_non_digit(cs)]))
    } else if base94_val(cs) > u64::MAX {
        Err(EncodingError::NumberTooLarge)
    } else {
        Ok(base94_val(cs))
    }
}

/// What decoding one token from its bytes yields. The first byte selects the
/// tag; `T`, `F` and `?` carry nothing, `I`, `L` and `v` carry a base-94
/// numeral, `S` carries alphabet-encoded text, and `U` and `B` carry exactly
/// one raw operator byte (anything after it is ignored, as the wire format's
/// consumers do).
pub open spec fn spec_parse_token(bs: Seq<u8>) -> Result<TokView, TokenError> {
    if bs.len() == 0 {
        Err(TokenError::EmptyToken)
    } else {
        let tag = bs[0];
        let payload = bs.subrange(1, bs.len() as int);
        if tag == 84 {  // 'T'
            Ok(TokView::Bool(true))
        } else if tag == 70 {  // 'F'
            Ok(TokView::Bool(false))
        } else if tag == 63 {  // '?'
            Ok(TokView::If)
        } else if tag == 73 {  // 'I'
            match spec_parse_num(payload) {
                Ok(n) => Ok(TokView::Int(n)),
                Err(e) => Err(TokenError::Encoding(e)),
            }
        } else if tag == 76 {  // 'L'
            match spec_parse_num(payload) {
                Ok(n) => Ok(TokView::Lam(n)),
                Err(e) => Err(TokenError::Encoding(e)),
            }
        } else if tag == 118 {  // 'v'
            match spec_parse_num(payload) {
                Ok(n) => Ok(TokView::Var(n)),
                Err(e) => Err(TokenError::Encoding(e)),
            }
        } else if tag == 83 {  // 'S'
            if all_payload_bytes(payload) {
                Ok(TokView::Str(decoded_chars(payload)))
            } else {
                Err(TokenError::Encoding(EncodingError::InvalidDigit(payload[first_bad_byte(payload)])))
            }
        } else if tag == 85 {  // 'U'
            if bs.len() < 2 {
                Err(TokenError::UnexpectedEndOfStream(1))
            } else {
                Ok(TokView::Unop(bs[1] as char))
            }
        } else if tag == 66 {  // 'B'
            if bs.len() < 2 {
                Err(TokenError::UnexpectedEndOfStream(1))
            } else {
                Ok(TokView::Binop(bs[1] as char))
            }
        } else {
            Err(TokenError::UnknownTokenTag(tag))
        }
    }
}

/// A token result seen at the level of token views.
pub open spec fn result_view(r: Result<Tok, TokenError>) -> Result<TokView, TokenError> {
    match r {
        Ok(t) => Ok(t@),
        Err(e) => Err(e),
    }
}

/// Decodes one token from its bytes, exactly as `spec_parse_token` says.
pub fn parse_token(s: &[u8]) -> (r: Result<Tok, TokenError>)
    ensures
        result_view(r) == spec_parse_token(s@),
{
    if s.len() == 0 {
        return Err(TokenError::EmptyToken);
    }
    let ghost payload = s@.subrange(1, s@.len() as int);
    let tag = s[0];
    match tag {
        84 => Ok(Tok::Bool(true)),  // 'T'
        70 => Ok(Tok::Bool(false)),  // 'F'
        63 => Ok(Tok::If),  // '?'
        73 => {  // 'I'
            let rest = vstd::slice::slice_subrange(s, 1, s.len());
            match crate::base94::parse_base94(rest) {
                Ok(n) => Ok(Tok::Int(n)),
                Err(e) => Err(TokenError::Encoding(e)),
            }
        },
        76 => {  // 'L'
            let rest = vstd::slice::slice_subrange(s, 1, s.len());
            match crate::base94::parse_base94(rest) {
                Ok(n) => Ok(Tok::Lam(n)),
                Err(e) => Err(TokenError::Encoding(e)),
            }
        },
        118 => {  // 'v'
            let rest = vstd::slice::slice_subrange(s, 1, s.len());
            match crate::base94::parse_base94(rest) {
                Ok(n) => Ok(Tok::Var(n)),
                Err(e) => Err(TokenError::Encoding(e)),
            }
        },
        83 => {  // 'S'
            let rest = vstd::slice::slice_subrange(s, 1, s.len());
            match crate::text::parse_str(rest) {
                Ok(t) => Ok(Tok::Str(t)),
                Err(e) => Err(TokenError::Encoding(e)),
            }
        },
        85 => {  // 'U'
            if s.len() < 2 {
                Err(TokenError::UnexpectedEndOfStream(1))
            } else {
                Ok(Tok::Unop(s[1] as char))
            }
        },
        66 => {  // 'B'
            if s.len() < 2 {
                Err(TokenError::UnexpectedEndOfStream(1))
            } else {
                Ok(Tok::Binop(s[1] as char))
            }
        },
        _ => Err(TokenError::UnknownTokenTag(tag)),
    }
}

/// Writes one token as text: the tag character, then the payload.
pub fn encode_token(t: &Tok) -> (r: String)
    requires
        wf_token(t@),
    ensures
        r@ == token_text(t@),
{
    let mut out = String::new();
    match t {
        Tok::Bool(b) => {
            if *b {
                out.push('T');
            } else {
                out.push('F');
            }
        },
        Tok::If => {
            out.push('?');
        },
        Tok::Int(n) => {
            out.push('I');
            let digits = crate::base94::encode_base94(*n);
            out.append(digits.as_str());
        },
        Tok::Lam(n) => {
            out.push('L');
            let digits = crate::base94::encode_base94(*n);
            out.append(digits.as_str());
        },
        Tok::Var(n) => {
            out.push('v');
            let digits = crate::base94::encode_base94(*n);
            out.append(digits.as_str());
        },
        Tok::Str(s) => {
            out.push('S');
            match crate::text::encode_str(s.as_str()) {
                Ok(p) => {
                    out.append(p.as_str());
                },
                Err(_) => {
                    proof {
                        assert(false);
                    }
                },
            }
        },
        Tok::Unop(c) => {
            out.push('U');
            out.push(*c);
        },
        Tok::Binop(c) => {
            out.push('B');
            out.push(*c);
        },
    }
    proof {
        assert(out@ =~= token_text(t@));
    }
    out
}

/// Decoding the text of a well-formed token gives the token back. This holds
/// of every byte string that carries the token's text.
pub proof fn lemma_token_round_trip(t: TokView, bs: Seq<u8>)
    requires
        wf_token(t),
        chars_of(bs) == token_text(t),
    ensures
        spec_parse_token(bs) == Ok::<TokView, TokenError>(t),
{
    let text = token_text(t);
    assert(chars_of(bs).len() == bs.len());
    assert(bs.len() == text.len());
    assert(bs[0] as char == text[0]);
    assert(bs[0] as char as int == bs[0] as int);
    let payload = bs.subrange(1, bs.len() as int);
    assert forall|j: int| 0 <= j < payload.len() implies chars_of(payload)[j] == text[j + 1] by {
        assert(chars_of(payload)[j] == payload[j] as char);
        assert(payload[j] == bs[j + 1]);
        assert(chars_of(bs)[j + 1] == bs[j + 1] as char);
    }
    match t {
        TokView::Bool(b) => {
            if b {
                assert(bs[0] == 84) by {
                    assert(text[0] == 'T');
                }
            } else {
                assert(bs[0] == 70) by {
                    assert(text[0] == 'F');
                }
            }
        },
        TokView::If => {
            assert(bs[0] == 63) by {
                assert(text[0] == '?');
            }
        },
        TokView::Int(n) => {
            assert(bs[0] == 73) by {
                assert(text[0] == 'I');
            }
            lemma_base94_round_trip(n as nat);
            assert(chars_of(payload) =~= base94_chars(n as nat));
            assert(spec_parse_num(payload) == Ok::<int, EncodingError>(n));
        },
        TokView::Lam(n) => {
            assert(bs[0] == 76) by {
                assert(text[0] == 'L');
            }
            lemma_base94_round_trip(n as nat);
            assert(chars_of(payload) =~= base94_chars(n as nat));
            assert(spec_parse_num(payload) == Ok::<int, EncodingError>(n));
        },
        TokView::Var(n) => {
            assert(bs[0] == 118) by {
                assert(text[0] == 'v');
            }
            lemma_base94_round_trip(n as nat);
            assert(chars_of(payload) =~= base94_chars(n as nat));
            assert(spec_parse_num(payload) == Ok::<int, EncodingError>(n));
        },
        TokView::Str(s) => {
            assert(bs[0] == 83) by {
                assert(text[0] == 'S');
            }
            assert(chars_of(payload) =~= encoded_chars(s));
            lemma_text_round_trip(s, payload);
        },
        TokView::Unop(c) => {
            assert(bs[0] == 85) by {
                assert(text[0] == 'U');
            }
            assert(bs.len() == 2);
            assert(bs[1] as char == text[1]);
        },
        TokView::Binop(c) => {
            assert(bs[0] == 66) by {
                assert(text[0] == 'B');
            }
            assert(bs.len() == 2);
            assert(bs[1] as char == text[1]);
        },
    }
}

/// Every character of a well-formed token's text lies in the printable
/// range 33..=126: token texts are nonempty and hold no whitespace.
pub proof fn lemma_token_text_chars(t: TokView)
    requires
        wf_token(t),
    ensures
        token_text(t).len() >= 1,
        forall|i: int|
            0 <= i < token_text(t).len() ==> 33 <= (#[trigger] token_text(t)[i] as int) <= 126,
{
    let text = token_text(t);
    match t {
        TokView::Bool(b) => {
            assert(text[0] == 'T' || text[0] == 'F');
        },
        TokView::If => {
            assert(text[0] == '?');
        },
        TokView::Int(n) => {
            lemma_base94_round_trip(n as nat);
            assert forall|i: int| 0 <= i < text.len() implies 33 <= (#[trigger] text[i] as int)
                <= 126 by {
                if i > 0 {
                    assert(text[i] == base94_chars(n as nat)[i - 1]);
                    assert(crate::base94::is_digit_char(base94_chars(n as nat)[i - 1]));
                }
            }
        },
        TokView::Lam(n) => {
            lemma_base94_round_trip(n as nat);
            assert forall|i: int| 0 <= i < text.len() implies 33 <= (#[trigger] text[i] as int)
                <= 126 by {
                if i > 0 {
                    assert(text[i] == base94_chars(n as nat)[i - 1]);
                    assert(crate::base94::is_digit_char(base94_chars(n as nat)[i - 1]));
                }
            }
        },
        TokView::Var(n) => {
            lemma_base94_round_trip(n as nat);
            assert forall|i: int| 0 <= i < text.len() implies 33 <= (#[trigger] text[i] as int)
                <= 126 by {
                if i > 0 {
                    assert(text[i] == base94_chars(n as nat)[i - 1]);
                    assert(crate::base94::is_digit_char(base94_chars(n as nat)[i - 1]));
                }
            }
        },
        TokView::Str(s) => {
            crate::text::lemma_alphabet_inverse();
            assert forall|i: int| 0 <= i < text.len() implies 33 <= (#[trigger] text[i] as int)
                <= 126 by {
                if i > 0 {
                    assert(text[i] == encoded_chars(s)[i - 1]);
                    assert(crate::text::is_alphabet_char(s[i - 1]));
                    let slot = crate::text::alphabet_index(s[i - 1] as int);
                    assert(0 <= slot < 94);
                    assert(encoded_chars(s)[i - 1] == (slot + 33) as char);
                    assert((slot + 33) as char as int == slot + 33);
                }
            }
        },
        TokView::Unop(c) => {
            assert(text[0] == 'U');
            assert(text[1] == c);
        },
        TokView::Binop(c) => {
            assert(text[0] == 'B');
            assert(text[1] == c);
        },
    }
}

/// A whitespace character of the wire text: space, newline, tab or
/// carriage return.
pub open spec fn is_space_char(c: char) -> bool {
    c == ' ' || c == '\n' || c == '\t' || c == '\r'
}

/// Length of the leading whitespace-free run of a text.
pub open spec fn run_len(s: Seq<char>) -> int
    decreases s.len(),
{
    if s.len() == 0 {
        0
    } else if is_space_char(s[0]) {
        0
    } else {
        1 + run_len(s.drop_first())
    }
}

pub proof fn lemma_run_len_bounds(s: Seq<char>)
    ensures
        0 <= run_len(s) <= s.len(),
    decreases s.len(),
{
    if s.len() > 0 && !is_space_char(s[0]) {
        lemma_run_len_bounds(s.drop_first());
    }
}

/// The maximal whitespace-free chunks of a text, in order.
pub open spec fn chunks_of(s: Seq<char>) -> Seq<Seq<char>>
    decreases s.len(),
    via chunks_of_dec
{
    if s.len() == 0 {
        Seq::empty()
    } else if is_space_char(s[0]) {
        chunks_of(s.drop_first())
    } else {
        seq![s.take(run_len(s))] + chunks_of(s.skip(run_len(s)))
    }
}

#[via_fn]
proof fn chunks_of_dec(s: Seq<char>) {
    lemma_run_len_bounds(s);
    if s.len() > 0 && !is_space_char(s[0]) {
        lemma_run_len_bounds(s.drop_first());
        assert(run_len(s) >= 1);
    }
}

/// As long as only non-space characters have been seen, the leading run
/// is at least that long.
pub proof fn lemma_run_len_ge(t: Seq<char>, m: int)
    requires
        0 <= m <= t.len(),
        forall|j: int| 0 <= j < m ==> !is_space_char(#[trigger] t[j]),
    ensures
        run_len(t) >= m,
    decreases m,
{
    lemma_run_len_bounds(t);
    if m > 0 {
        assert(!is_space_char(t[0]));
        let rest = t.drop_first();
        assert forall|j: int| 0 <= j < m - 1 implies !is_space_char(#[trigger] rest[j]) by {
            assert(rest[j] == t[j + 1]);
        }
        lemma_run_len_ge(rest, m - 1);
    }
}

/// The leading run ends exactly at the first space (or at the end).
pub proof fn lemma_run_len_at(t: Seq<char>, m: int)
    requires
        0 <= m <= t.len(),
        forall|j: int| 0 <= j < m ==> !is_space_char(#[trigger] t[j]),
        m == t.len() || is_space_char(t[m]),
    ensures
        run_len(t) == m,
    decreases m,
{
    if m == 0 {
    } else {
        assert(!is_space_char(t[0]));
        let rest = t.drop_first();
        assert forall|j: int| 0 <= j < m - 1 implies !is_space_char(#[trigger] rest[j]) by {
            assert(rest[j] == t[j + 1]);
        }
        assert(m - 1 == rest.len() || is_space_char(rest[m - 1]));
        lemma_run_len_at(rest, m - 1);
    }
}

/// Skipping over one space does not change the chunks that remain.
pub proof fn lemma_chunks_skip_space(s: Seq<char>, i: int)
    requires
        0 <= i < s.len(),
        is_space_char(s[i]),
    ensures
        chunks_of(s.skip(i)) == chunks_of(s.skip(i + 1)),
{
    assert(s.skip(i)[0] == s[i]);
    assert(s.skip(i).drop_first() =~= s.skip(i + 1));
}

/// What decoding one whitespace-free chunk yields: a character too wide for
/// a byte is reported first; otherwise the chunk's bytes decide.
pub open spec fn spec_parse_chunk(cs: Seq<char>) -> Result<TokView, TokenError> {
    if !all_narrow_chars(cs) {
        Err(TokenError::Encoding(EncodingError::UnsupportedCharacter(cs[first_wide_char(cs)])))
    } else {
        spec_parse_token(bytes_of(cs))
    }
}

/// Whether every whitespace-free chunk of the text decodes as a token.
pub open spec fn all_chunks_ok(s: Seq<char>) -> bool {
    forall|k: int|
        0 <= k < chunks_of(s).len() ==> (#[trigger] spec_parse_chunk(chunks_of(s)[k])) is Ok
}

/// The tokens of a text whose chunks all decode.
pub open spec fn spec_tokens(s: Seq<char>) -> Seq<TokView> {
    Seq::new(chunks_of(s).len(), |k: int| spec_parse_chunk(chunks_of(s)[k])->Ok_0)
}

fn is_space_at(s: &str, i: usize) -> (b: bool)
    requires
        i < s@.len(),
    ensures
        b == is_space_char(s@[i as int]),
{
    let c = s.get_char(i);
    c == ' ' || c == '\n' || c == '\t' || c == '\r'
}

/// Splits the text on runs of whitespace (space, newline, tab, carriage
/// return) and decodes each chunk as one token; on the first failing chunk
/// it reports that chunk's 0-based index together with the cause.
#[verifier::loop_isolation(false)]
pub fn parse_toks(s: &str) -> (r: Result<Vec<Tok>, TokenStreamError>)
    ensures
        r matches Ok(v) ==> v@.len() == chunks_of(s@).len() && forall|k: int|
            0 <= k < v@.len() ==> #[trigger] spec_parse_chunk(chunks_of(s@)[k]) == Ok::<
                TokView,
                TokenError,
            >(v@[k]@),
        r matches Err(te) ==> te.index < chunks_of(s@).len() && spec_parse_chunk(
            chunks_of(s@)[te.index as int],
        ) == Err::<TokView, TokenError>(te.cause) && forall|k: int|
            0 <= k < te.index ==> (#[trigger] spec_parse_chunk(chunks_of(s@)[k])) is Ok,
{
    let ghost cs = chunks_of(s@);
    let n = s.unicode_len();
    let mut toks: Vec<Tok> = Vec::new();
    let mut i: usize = 0;
    proof {
        assert(s@.skip(0) =~= s@);
        assert(cs.skip(0) =~= cs);
    }
    while i < n
        invariant
            n == s@.len(),
            i <= n,
            cs == chunks_of(s@),
            toks@.len() <= cs.len(),
            chunks_of(s@.skip(i as int)) == cs.skip(toks@.len() as int),
            forall|k: int|
                0 <= k < toks@.len() ==> #[trigger] spec_parse_chunk(cs[k]) == Ok::<
                    TokView,
                    TokenError,
                >(toks@[k]@),
        decreases n - i,
    {
        if is_space_at(s, i) {
            proof {
                lemma_chunks_skip_space(s@, i as int);
            }
            i += 1;
        } else {
            let ghost start = i as int;
            let ghost tail = s@.skip(start);
            let ghost k = toks@.len() as int;
            proof {
                assert(tail[0] == s@[start]);
                lemma_run_len_bounds(tail);
                assert(chunks_of(tail) == seq![tail.take(run_len(tail))] + chunks_of(
                    tail.skip(run_len(tail)),
                ));
                assert(chunks_of(tail).len() >= 1);
                assert(cs.skip(k).len() == cs.len() - k);
                assert(k < cs.len());
                assert(cs[k] == cs.skip(k)[0]);
                assert(cs[k] == tail.take(run_len(tail)));
            }
            let ghost this_chunk = tail.take(run_len(tail));
            let mut chunk: Vec<u8> = Vec::new();
            while i < n && !is_space_at(s, i)
                invariant
                    n == s@.len(),
                    0 <= start <= i <= n,
                    i - start == chunk@.len(),
                    tail == s@.skip(start),
                    chars_of(chunk@) == s@.subrange(start, i as int),
                    forall|j: int|
                        start <= j < i ==> !is_space_char(#[trigger] s@[j]) && (s@[j] as int)
                            < 128,
                decreases n - i,
            {
                let c = s.get_char(i);
                let code = c as u32;
                if code >= 128 {
                    proof {
                        let off = i - start;
                        assert(!is_space_char(s@[i as int]));
                        assert forall|j: int| 0 <= j < off + 1 implies !is_space_char(
                            #[trigger] tail[j],
                        ) by {
                            assert(tail[j] == s@[start + j]);
                        }
                        lemma_run_len_ge(tail, off + 1);
                        assert forall|j: int| 0 <= j < off implies (#[trigger] this_chunk[j] as int)
                            < 128 by {
                            assert(this_chunk[j] == tail[j]);
                            assert(tail[j] == s@[start + j]);
                        }
                        assert(this_chunk[off] == tail[off]);
                        assert(tail[off] == s@[i as int]);
                        assert((this_chunk[off] as int) >= 128);
                        lemma_first_wide_char_at(this_chunk, off);
                        assert(!all_narrow_chars(this_chunk));
                        assert(spec_parse_chunk(cs[k]) == Err::<TokView, TokenError>(
                            TokenError::Encoding(EncodingError::UnsupportedCharacter(c)),
                        ));
                    }
                    return Err(
                        TokenStreamError {
                            index: toks.len(),
                            cause: TokenError::Encoding(EncodingError::UnsupportedCharacter(c)),
                        },
                    );
                }
                proof {
                    lemma_char_to_byte(c);
                }
                let byte: u8 = c as u8;
                chunk.push(byte);
                proof {
                    crate::chars::lemma_char_eq(byte as char, c);
                    assert(chars_of(chunk@) =~= s@.subrange(start, i + 1));
                }
                i += 1;
            }
            proof {
                let off = i - start;
                assert forall|j: int| 0 <= j < off implies !is_space_char(#[trigger] tail[j]) by {
                    assert(tail[j] == s@[start + j]);
                }
                if i < n {
                    assert(is_space_char(s@[i as int]));
                    assert(tail[off] == s@[i as int]);
                }
                lemma_run_len_at(tail, off);
                assert(this_chunk =~= s@.subrange(start, i as int));
                assert(chars_of(chunk@) == this_chunk);
                assert forall|j: int| 0 <= j < this_chunk.len() implies (
                #[trigger] this_chunk[j] as int) < 128 by {
                    assert(this_chunk[j] == tail[j]);
                    assert(tail[j] == s@[start + j]);
                }
                assert(all_narrow_chars(this_chunk));
                lemma_bytes_of_exact(this_chunk, chunk@);
                assert(chunks_of(s@.skip(i as int)) == cs.skip(k + 1)) by {
                    assert(chunks_of(tail) == seq![this_chunk] + chunks_of(tail.skip(off)));
                    assert(tail.skip(off) =~= s@.skip(i as int));
                    assert(chunks_of(tail) == cs.skip(k));
                    assert(cs.skip(k).drop_first() =~= cs.skip(k + 1));
                    assert(chunks_of(s@.skip(i as int)) =~= cs.skip(k).drop_first());
                }
            }
            match parse_token(chunk.as_slice()) {
                Ok(t) => {
                    proof {
                        assert(spec_parse_chunk(cs[k]) == Ok::<TokView, TokenError>(t@));
                    }
                    toks.push(t);
                },
                Err(e) => {
                    proof {
                        assert(spec_parse_chunk(cs[k]) == Err::<TokView, TokenError>(e));
                    }
                    return Err(TokenStreamError { index: toks.len(), cause: e });
                },
            }
        }
    }
    proof {
        assert(s@.skip(n as int) =~= Seq::<char>::empty());
        assert(chunks_of(s@.skip(n as int)).len() == 0);
        assert(cs.skip(toks@.len() as int).len() == 0);
        assert(toks@.len() == cs.len());
    }
    Ok(toks)
}

} // verus!

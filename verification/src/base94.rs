use vstd::prelude::*;

use crate::chars::{chars_of, lemma_char_eq, lemma_u64_to_byte};
use crate::errors::EncodingError;

verus! {

/// A base-94 digit character: the printable range `!`..=`~` (codes 33..=126).
pub open spec fn is_digit_char(c: char) -> bool {
    33 <= (c as int) <= 126
}

pub open spec fn all_digit_chars(cs: Seq<char>) -> bool {
    forall|i: int| 0 <= i < cs.len() ==> is_digit_char(#[trigger] cs[i])
}

/// Index of the first character that is not a base-94 digit
/// (the length when all of them are).
pub open spec fn first_non_digit(cs: Seq<char>) -> int
    decreases cs.len(),
{
    if cs.len() == 0 {
        0
    } else if !is_digit_char(cs[0]) {
        0
    } else {
        1 + first_non_digit(cs.drop_first())
    }
}

/// The number named by a big-endian base-94 digit string; each digit is its
/// character's code less 33. The empty string names 0.
pub open spec fn base94_val(cs: Seq<char>) -> int
    decreases cs.len(),
{
    if cs.len() == 0 {
        0
    } else {
        base94_val(cs.drop_last()) * 94 + (cs.last() as int - 33)
    }
}

/// The canonical digit string for n: a single digit below 94, otherwise the
/// digits of n / 94 followed by the digit for n % 94. Zero is the one-digit
/// string `!`, never the empty string.
pub open spec fn base94_chars(n: nat) -> Seq<char>
    decreases n,
{
    if n < 94 {
        seq![(n + 33) as char]
    } else {
        base94_chars(n / 94).push((n % 94 + 33) as char)
    }
}

pub proof fn lemma_val_nonneg(cs: Seq<char>)
    requires
        all_digit_chars(cs),
    ensures
        base94_val(cs) >= 0,
    decreases cs.len(),
{
    if cs.len() > 0 {
        assert forall|j: int| 0 <= j < cs.drop_last().len() implies is_digit_char(
            #[trigger] cs.drop_last()[j],
        ) by {
            assert(cs.drop_last()[j] == cs[j]);
        }
        lemma_val_nonneg(cs.drop_last());
    }
}

/// A digit string's value only grows as more digits follow.
pub proof fn lemma_val_prefix_le(cs: Seq<char>, k: int)
    requires
        all_digit_chars(cs),
        0 <= k <= cs.len(),
    ensures
        base94_val(cs.take(k)) <= base94_val(cs),
    decreases cs.len(),
{
    if k == cs.len() {
        assert(cs.take(k) =~= cs);
    } else {
        let head = cs.drop_last();
        assert forall|j: int| 0 <= j < head.len() implies is_digit_char(#[trigger] head[j]) by {
            assert(head[j] == cs[j]);
        }
        lemma_val_nonneg(head);
        lemma_val_prefix_le(head, k);
        assert(head.take(k) =~= cs.take(k));
        assert(cs.last() as int - 33 >= 0);
    }
}

pub proof fn lemma_first_non_digit_at(cs: Seq<char>, i: int)
    requires
        0 <= i < cs.len(),
        !is_digit_char(cs[i]),
        forall|j: int| 0 <= j < i ==> is_digit_char(#[trigger] cs[j]),
    ensures
        first_non_digit(cs) == i,
    decreases i,
{
    if i == 0 {
    } else {
        let rest = cs.drop_first();
        assert(is_digit_char(cs[0]));
        assert(rest[i - 1] == cs[i]);
        assert forall|j: int| 0 <= j < i - 1 implies is_digit_char(#[trigger] rest[j]) by {
            assert(rest[j] == cs[j + 1]);
        }
        lemma_first_non_digit_at(rest, i - 1);
    }
}

/// Decoding the canonical digit string of any number gives that number back;
/// the string is nonempty, all digits, and free of a superfluous leading zero.
pub proof fn lemma_base94_round_trip(n: nat)
    ensures
        all_digit_chars(base94_chars(n)),
        base94_chars(n).len() >= 1,
        base94_val(base94_chars(n)) == n,
        n == 0 ==> base94_chars(n) =~= seq!['!'],
        n > 0 ==> base94_chars(n)[0] != '!',
    decreases n,
{
    if n < 94 {
        let c = (n + 33) as char;
        assert(c as int == n + 33);
        assert(base94_chars(n) =~= seq![c]);
        assert(seq![c].drop_last() =~= Seq::<char>::empty());
        assert(base94_val(Seq::<char>::empty()) == 0);
        assert(seq![c].last() == c);
        assert(base94_val(seq![c]) == base94_val(seq![c].drop_last()) * 94 + (c as int - 33));
        if n == 0 {
            lemma_char_eq(c, '!');
        }
    } else {
        vstd::arithmetic::div_mod::lemma_fundamental_div_mod(n as int, 94);
        vstd::arithmetic::div_mod::lemma_mod_bound(n as int, 94);
        lemma_base94_round_trip(n / 94);
        let high = base94_chars(n / 94);
        let d = (n % 94 + 33) as char;
        assert(d as int == n % 94 + 33);
        let whole = base94_chars(n);
        assert(whole == high.push(d));
        assert(whole.drop_last() =~= high);
        assert(whole.last() == d);
        assert(base94_val(whole) == base94_val(high) * 94 + (n % 94));
        assert(base94_val(whole) == n);
        assert forall|j: int| 0 <= j < whole.len() implies is_digit_char(#[trigger] whole[j]) by {
            if j < high.len() {
                assert(whole[j] == high[j]);
            } else {
                assert(whole[j] == d);
            }
        }
        assert(n / 94 > 0);
        assert(whole[0] == high[0]);
    }
}

/// Reads a big-endian base-94 numeral: each byte must lie in `!`..=`~` and
/// contributes its code less 33 as one digit. An empty slice reads as 0.
pub fn parse_base94(b: &[u8]) -> (r: Result<u64, EncodingError>)
    ensures
        r is Ok <==> all_digit_chars(chars_of(b@)) && base94_val(chars_of(b@)) <= u64::MAX,
        r matches Ok(v) ==> v as int == base94_val(chars_of(b@)),
        !all_digit_chars(chars_of(b@)) ==> r == Err::<u64, EncodingError>(
            EncodingError::InvalidDigit(b@[first_non_digit(chars_of(b@))]),
        ),
        all_digit_chars(chars_of(b@)) && base94_val(chars_of(b@)) > u64::MAX ==> r
            == Err::<u64, EncodingError>(EncodingError::NumberTooLarge),
{
    let ghost cs = chars_of(b@);
    let mut i: usize = 0;
    while i < b.len()
        invariant
            cs == chars_of(b@),
            i <= b.len(),
            cs.len() == b@.len(),
            forall|j: int| 0 <= j < i ==> is_digit_char(#[trigger] cs[j]),
        decreases b.len() - i,
    {
        let byte = b[i];
        if byte < 33 || byte > 126 {
            proof {
                assert(cs[i as int] == b@[i as int] as char);
                assert(!is_digit_char(cs[i as int]));
                lemma_first_non_digit_at(cs, i as int);
            }
            return Err(EncodingError::InvalidDigit(byte));
        }
        i += 1;
    }
    assert(all_digit_chars(cs));
    let mut acc: u64 = 0;
    let mut k: usize = 0;
    while k < b.len()
        invariant
            cs == chars_of(b@),
            k <= b.len(),
            cs.len() == b@.len(),
            all_digit_chars(cs),
            acc as int == base94_val(cs.take(k as int)),
        decreases b.len() - k,
    {
        let byte = b[k];
        assert(cs[k as int] == b@[k as int] as char);
        assert(33 <= byte <= 126);
        let d: u64 = (byte - 33) as u64;
        let limit: u64 = (u64::MAX - d) / 94;
        proof {
            vstd::arithmetic::div_mod::lemma_fundamental_div_mod(u64::MAX - d, 94);
            vstd::arithmetic::div_mod::lemma_mod_bound(u64::MAX - d, 94);
            assert(cs.take(k + 1).drop_last() =~= cs.take(k as int));
            assert(cs.take(k + 1).last() == cs[k as int]);
            assert(base94_val(cs.take(k + 1)) == base94_val(cs.take(k as int)) * 94 + d);
        }
        if acc > limit {
            proof {
                assert(base94_val(cs.take(k + 1)) > u64::MAX);
                lemma_val_prefix_le(cs, k + 1);
            }
            return Err(EncodingError::NumberTooLarge);
        }
        acc = acc * 94 + d;
        k += 1;
    }
    proof {
        assert(cs.take(b@.len() as int) =~= cs);
    }
    Ok(acc)
}

/// Writes the shortest big-endian base-94 numeral for n; zero becomes the
/// single digit `!` rather than the empty string.
pub fn encode_base94(n: u64) -> (r: String)
    ensures
        r@ == base94_chars(n as nat),
{
    let mut digits: Vec<u8> = Vec::new();
    let mut m: u64 = n;
    while m >= 94
        invariant
            base94_chars(n as nat) =~= base94_chars(m as nat) + chars_of(digits@).reverse(),
        decreases m,
    {
        let dd: u64 = m % 94;
        proof {
            vstd::arithmetic::div_mod::lemma_fundamental_div_mod(m as int, 94);
            vstd::arithmetic::div_mod::lemma_mod_bound(m as int, 94);
        }
        let byte_val: u64 = dd + 33;
        proof {
            lemma_u64_to_byte(byte_val);
        }
        let byte: u8 = byte_val as u8;
        let ghost old_digits = digits@;
        digits.push(byte);
        m = m / 94;
        proof {
            let d_char = (dd as nat + 33) as char;
            assert(byte as char as int == byte as int);
            lemma_char_eq(byte as char, d_char);
            assert(chars_of(digits@).reverse() =~= seq![d_char] + chars_of(old_digits).reverse());
            assert(base94_chars((m * 94 + dd) as nat) == base94_chars(m as nat).push(d_char));
            assert(base94_chars(n as nat) =~= base94_chars(m as nat) + chars_of(
                digits@,
            ).reverse());
        }
    }
    let mut r = String::new();
    let head_val: u64 = m + 33;
    proof {
        lemma_u64_to_byte(head_val);
    }
    let head: u8 = head_val as u8;
    r.push(head as char);
    proof {
        lemma_char_eq(head as char, (m as nat + 33) as char);
        assert(base94_chars(m as nat) =~= seq![head as char]);
    }
    let ghost target = base94_chars(n as nat);
    let ghost rev = chars_of(digits@).reverse();
    assert(target =~= seq![head as char] + rev);
    let mut i: usize = digits.len();
    while i > 0
        invariant
            i <= digits.len(),
            rev == chars_of(digits@).reverse(),
            target == seq![head as char] + rev,
            rev.len() == digits@.len(),
            r@ =~= target.take(target.len() - i),
        decreases i,
    {
        i = i - 1;
        let b = digits[i];
        r.push(b as char);
        proof {
            assert(rev[rev.len() - 1 - i] == chars_of(digits@)[i as int]);
            assert(target[target.len() - 1 - i] == b as char);
            assert(r@ =~= target.take(target.len() - i));
        }
    }
    proof {
        assert(r@ =~= target);
    }
    r
}

} // verus!

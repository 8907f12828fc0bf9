//! The two numeric literal grammars: signed decimal integers that fit in 64
//! bits, and floating-point literals.
use crate::text::{chars_of, digit, is_digit, lemma_run_len, lemma_run_len_is, run_len};
use vstd::prelude::*;

verus! {

/// The number that the digit `c` stands for.
pub open spec fn digit_value(c: char) -> nat {
    (c as int - '0' as int) as nat
}

/// The number that a string of digits stands for, read in base ten with the
/// most significant digit first. The empty string stands for zero.
pub open spec fn digits_value(s: Seq<char>) -> nat
    decreases s.len(),
{
    if s.len() == 0 {
        0
    } else {
        10 * digits_value(s.drop_last()) + digit_value(s.last())
    }
}

pub open spec fn all_digits(s: Seq<char>) -> bool {
    forall|i: int| 0 <= i < s.len() ==> digit(#[trigger] s[i])
}

/// `s` starts with `+` or `-`.
pub open spec fn signed(s: Seq<char>) -> bool {
    s.len() > 0 && (s[0] == '+' || s[0] == '-')
}

/// `s` starts with `-`.
pub open spec fn negative(s: Seq<char>) -> bool {
    s.len() > 0 && s[0] == '-'
}

/// `s` without its leading sign, if it has one.
pub open spec fn unsigned_part(s: Seq<char>) -> Seq<char> {
    if signed(s) {
        s.drop_first()
    } else {
        s
    }
}

/// The integer that a sign followed by digits stands for.
pub open spec fn integer_value(s: Seq<char>) -> int {
    if negative(s) {
        -(digits_value(unsigned_part(s)) as int)
    } else {
        digits_value(unsigned_part(s)) as int
    }
}

/// An integer literal is an optional sign followed by one or more digits, and
/// stands for a number that a 64-bit signed integer can hold.
pub open spec fn integer_literal(s: Seq<char>) -> bool {
    &&& unsigned_part(s).len() > 0
    &&& all_digits(unsigned_part(s))
    &&& i64::MIN <= integer_value(s) <= i64::MAX
}

/// The value of the text as an integer literal, if it is one.
pub open spec fn parsed_integer(s: Seq<char>) -> Option<i64> {
    if integer_literal(s) {
        Some(integer_value(s) as i64)
    } else {
        None
    }
}

/// A longer string of digits never stands for a smaller number than one of
/// its prefixes.
pub proof fn lemma_digits_value_prefix(s: Seq<char>, k: int)
    requires
        0 <= k <= s.len(),
    ensures
        digits_value(s.take(k)) <= digits_value(s),
    decreases s.len() - k,
{
    if k == s.len() {
        assert(s.take(k) == s);
    } else {
        lemma_digits_value_prefix(s.drop_last(), k);
        assert(s.drop_last().take(k) == s.take(k));
    }
}

/// Reads `word` as a signed decimal integer.
pub fn parse_integer(word: &str) -> (r: Option<i64>)
    ensures
        r == parsed_integer(word@),
{
    integer_of(&chars_of(word))
}

/// Reads the characters `chars` as a signed decimal integer.
pub fn integer_of(chars: &Vec<char>) -> (r: Option<i64>)
    ensures
        r == parsed_integer(chars@),
{
    let n = chars.len();
    if n == 0 {
        return None;
    }
    let neg = chars[0] == '-';
    let start: usize = if chars[0] == '-' || chars[0] == '+' {
        1
    } else {
        0
    };
    if start == n {
        return None;
    }
    let ghost body = unsigned_part(chars@);
    assert(body == chars@.skip(start as int));
    let limit: u64 = if neg {
        0x8000_0000_0000_0000
    } else {
        0x7fff_ffff_ffff_ffff
    };
    let mut acc: u64 = 0;
    let mut i: usize = start;
    while i < n
        invariant
            start <= i <= n,
            n == chars.len(),
            body == chars@.skip(start as int),
            body == unsigned_part(chars@),
            neg == negative(chars@),
            limit == if neg {
                0x8000_0000_0000_0000u64
            } else {
                0x7fff_ffff_ffff_ffffu64
            },
            all_digits(body.take(i - start)),
            acc == digits_value(body.take(i - start)),
            acc <= limit,
        decreases n - i,
    {
        let c = chars[i];
        assert(c == body[i - start]);
        if !is_digit(c) {
            assert(!digit(body[i - start]));
            return None;
        }
        let d: u64 = (c as u32 - '0' as u32) as u64;
        assert(d == digit_value(c));
        let ghost next = body.take(i - start + 1);
        assert(next.drop_last() == body.take(i - start));
        assert(next.last() == c);
        if acc > (limit - d) / 10 {
            proof {
                if all_digits(body) {
                    lemma_digits_value_prefix(body, i - start + 1);
                }
            }
            return None;
        }
        acc = acc * 10 + d;
        i += 1;
    }
    assert(body.take(n - start) == body);
    if neg {
        if acc == 0x8000_0000_0000_0000 {
            Some(i64::MIN)
        } else {
            Some(-(acc as i64))
        }
    } else {
        Some(acc as i64)
    }
}

/// `c` is the lower-case letter `lower` or its upper-case form.
pub open spec fn same_letter(c: char, lower: char) -> bool {
    c == lower || c as int + 32 == lower as int
}

/// `s` spells the lower-case word `word`, in any mix of cases.
pub open spec fn spells(s: Seq<char>, word: Seq<char>) -> bool {
    &&& s.len() == word.len()
    &&& forall|i: int| 0 <= i < s.len() ==> same_letter(#[trigger] s[i], word[i])
}

/// The names of the values that are not numbers: `inf`, `infinity`, `nan`.
pub open spec fn special_float(s: Seq<char>) -> bool {
    ||| spells(s, seq!['i', 'n', 'f'])
    ||| spells(s, seq!['n', 'a', 'n'])
    ||| spells(s, seq!['i', 'n', 'f', 'i', 'n', 'i', 't', 'y'])
}

/// An exponent is `e` or `E`, an optional sign, and one or more digits.
pub open spec fn exponent(s: Seq<char>) -> bool {
    &&& s.len() > 0
    &&& (s[0] == 'e' || s[0] == 'E')
    &&& unsigned_part(s.drop_first()).len() > 0
    &&& all_digits(unsigned_part(s.drop_first()))
}

/// Number of digits at the start of `s`.
pub open spec fn leading_digits(s: Seq<char>) -> nat {
    run_len(s, |c: char| digit(c))
}

/// A decimal number is digits, optionally a `.` and more digits, with at
/// least one digit on either side of the `.`, and optionally an exponent.
pub open spec fn decimal_number(s: Seq<char>) -> bool {
    let whole = leading_digits(s);
    if whole < s.len() && s[whole as int] == '.' {
        let rest = s.skip(whole as int + 1);
        let fraction = leading_digits(rest);
        &&& whole + fraction > 0
        &&& fraction == rest.len() || exponent(rest.skip(fraction as int))
    } else {
        &&& whole > 0
        &&& whole == s.len() || exponent(s.skip(whole as int))
    }
}

/// A floating-point literal is an optional sign followed by a decimal number
/// or by the name of a value that is not a number.
pub open spec fn float_literal(s: Seq<char>) -> bool {
    special_float(unsigned_part(s)) || decimal_number(unsigned_part(s))
}

/// A string is made of digits exactly when its leading digits are all of it.
pub proof fn lemma_all_digits_run(s: Seq<char>)
    ensures
        all_digits(s) <==> leading_digits(s) == s.len(),
{
    let keep = |c: char| digit(c);
    lemma_run_len(s, keep);
    if all_digits(s) {
        assert forall|i: int| 0 <= i < s.len() implies keep(#[trigger] s[i]) by {
            assert(digit(s[i]));
        }
        lemma_run_len_is(s, keep, s.len());
    }
}

fn same_letter_as(c: char, lower: char) -> (r: bool)
    requires
        'a' <= lower <= 'z',
    ensures
        r == same_letter(c, lower),
{
    c == lower || c as u32 + 32 == lower as u32
}

/// Whether the characters of `chars` from `from` on spell `word`.
fn spells_from(chars: &Vec<char>, from: usize, word: &[char]) -> (r: bool)
    requires
        from <= chars.len(),
        forall|i: int| 0 <= i < word@.len() ==> 'a' <= #[trigger] word@[i] <= 'z',
    ensures
        r == spells(chars@.skip(from as int), word@),
{
    if chars.len() - from != word.len() {
        return false;
    }
    let mut i: usize = 0;
    while i < word.len()
        invariant
            i <= word.len(),
            from <= chars.len(),
            chars.len() - from == word.len(),
            forall|i: int| 0 <= i < word@.len() ==> 'a' <= #[trigger] word@[i] <= 'z',
            forall|j: int|
                0 <= j < i ==> same_letter(#[trigger] chars@.skip(from as int)[j], word@[j]),
        decreases word.len() - i,
    {
        assert(chars@.skip(from as int)[i as int] == chars@[from + i]);
        if !same_letter_as(chars[from + i], word[i]) {
            return false;
        }
        i += 1;
    }
    true
}

/// The index after the digits that start at `from`.
fn digits_end(chars: &Vec<char>, from: usize) -> (end: usize)
    requires
        from <= chars.len(),
    ensures
        from <= end <= chars.len(),
        end - from == leading_digits(chars@.skip(from as int)),
{
    let mut end: usize = from;
    while end < chars.len() && is_digit(chars[end])
        invariant
            from <= end <= chars.len(),
            forall|j: int| from <= j < end ==> digit(#[trigger] chars@[j]),
        decreases chars.len() - end,
    {
        end += 1;
    }
    proof {
        let s = chars@.skip(from as int);
        let keep = |c: char| digit(c);
        assert forall|j: int| 0 <= j < end - from implies keep(#[trigger] s[j]) by {
            assert(s[j] == chars@[from + j]);
        }
        if end < chars.len() {
            assert(s[end - from] == chars@[end as int]);
        }
        lemma_run_len_is(s, keep, (end - from) as nat);
    }
    end
}

/// Whether the characters of `chars` from `from` on are an exponent.
fn exponent_from(chars: &Vec<char>, from: usize) -> (r: bool)
    requires
        from <= chars.len(),
    ensures
        r == exponent(chars@.skip(from as int)),
{
    let n = chars.len();
    if from == n || (chars[from] != 'e' && chars[from] != 'E') {
        return false;
    }
    let digits: usize = if from + 1 < n && (chars[from + 1] == '+' || chars[from + 1] == '-') {
        from + 2
    } else {
        from + 1
    };
    let end = digits_end(chars, digits);
    proof {
        let s = chars@.skip(from as int);
        assert(s[0] == chars@[from as int]);
        if from + 1 < n {
            assert(s.drop_first()[0] == chars@[from + 1]);
        }
        assert(unsigned_part(s.drop_first()) == chars@.skip(digits as int));
        lemma_all_digits_run(chars@.skip(digits as int));
    }
    digits < n && end == n
}

/// Whether `word` is a floating-point literal.
pub fn is_float_literal(word: &str) -> (r: bool)
    ensures
        r == float_literal(word@),
{
    is_float_literal_of(&chars_of(word))
}

/// Whether the characters `chars` are a floating-point literal.
pub fn is_float_literal_of(chars: &Vec<char>) -> (r: bool)
    ensures
        r == float_literal(chars@),
{
    let n = chars.len();
    let start: usize = if n > 0 && (chars[0] == '+' || chars[0] == '-') {
        1
    } else {
        0
    };
    assert(unsigned_part(chars@) == chars@.skip(start as int));
    let inf: [char; 3] = ['i', 'n', 'f'];
    let nan: [char; 3] = ['n', 'a', 'n'];
    let infinity: [char; 8] = ['i', 'n', 'f', 'i', 'n', 'i', 't', 'y'];
    assert(inf@ == seq!['i', 'n', 'f']);
    assert(nan@ == seq!['n', 'a', 'n']);
    assert(infinity@ == seq!['i', 'n', 'f', 'i', 'n', 'i', 't', 'y']);
    if spells_from(chars, start, inf.as_slice()) || spells_from(chars, start, nan.as_slice())
        || spells_from(chars, start, infinity.as_slice()) {
        return true;
    }
    let ghost body = chars@.skip(start as int);
    let whole_end = digits_end(chars, start);
    if whole_end < n && chars[whole_end] == '.' {
        let fraction_end = digits_end(chars, whole_end + 1);
        proof {
            assert(body[whole_end - start] == chars@[whole_end as int]);
            assert(body.skip(whole_end - start + 1) == chars@.skip(whole_end + 1));
            assert(body.skip(whole_end - start + 1).skip(fraction_end - whole_end - 1)
                == chars@.skip(fraction_end as int));
        }
        fraction_end - start > 1 && (fraction_end == n || exponent_from(chars, fraction_end))
    } else {
        proof {
            if whole_end < n {
                assert(body[whole_end - start] == chars@[whole_end as int]);
            }
            assert(body.skip(whole_end - start) == chars@.skip(whole_end as int));
        }
        whole_end > start && (whole_end == n || exponent_from(chars, whole_end))
    }
}

} // verus!

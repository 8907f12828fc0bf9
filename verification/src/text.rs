//! Characters and character runs: the classes the notation distinguishes, and
//! the longest-prefix measure that the tokenizer and the number grammar share.
use vstd::prelude::*;

verus! {

/// Specification of `std::string::String::push`, taken on trust: afterwards
/// the string is what it was, with `ch` appended.
pub assume_specification[ std::string::String::push ](s: &mut std::string::String, ch: char)
    ensures
        final(s)@ == old(s)@.push(ch),
;

/// The character opening and closing a string literal.
pub const STRING_LITERAL_SEPARATOR: char = '"';

pub const LINE_SEPARATOR: char = ',';

pub const OPEN_ARGUMENTS: char = '(';

pub const CLOSE_ARGUMENTS: char = ')';

pub const OPEN_OBJECT: char = '{';

pub const CLOSE_OBJECT: char = '}';

pub const NAME_SEPARATOR: char = ':';

pub const NAMESPACE_SEPARATOR: char = '!';

/// The code points that carry the Unicode `White_Space` property.
pub open spec fn white_space(c: char) -> bool {
    ||| '\u{9}' <= c <= '\u{d}'
    ||| c == ' '
    ||| c == '\u{85}'
    ||| c == '\u{a0}'
    ||| c == '\u{1680}'
    ||| '\u{2000}' <= c <= '\u{200a}'
    ||| c == '\u{2028}'
    ||| c == '\u{2029}'
    ||| c == '\u{202f}'
    ||| c == '\u{205f}'
    ||| c == '\u{3000}'
}

/// The seven punctuation characters that end a bare word and are tokens of
/// their own. The string literal separator is not one of them.
pub open spec fn reserved(c: char) -> bool {
    ||| c == LINE_SEPARATOR
    ||| c == OPEN_ARGUMENTS
    ||| c == CLOSE_ARGUMENTS
    ||| c == OPEN_OBJECT
    ||| c == CLOSE_OBJECT
    ||| c == NAME_SEPARATOR
    ||| c == NAMESPACE_SEPARATOR
}

/// The ASCII decimal digits.
pub open spec fn digit(c: char) -> bool {
    '0' <= c <= '9'
}

pub fn is_whitespace(c: char) -> (r: bool)
    ensures
        r == white_space(c),
{
    ('\u{9}' <= c && c <= '\u{d}') || c == ' ' || c == '\u{85}' || c == '\u{a0}' || c == '\u{1680}'
        || ('\u{2000}' <= c && c <= '\u{200a}') || c == '\u{2028}' || c == '\u{2029}' || c
        == '\u{202f}' || c == '\u{205f}' || c == '\u{3000}'
}

pub fn is_digit(c: char) -> (r: bool)
    ensures
        r == digit(c),
{
    '0' <= c && c <= '9'
}

/// Length of the longest prefix of `s` whose characters all satisfy `keep`.
pub open spec fn run_len(s: Seq<char>, keep: spec_fn(char) -> bool) -> nat
    decreases s.len(),
{
    if s.len() > 0 && keep(s[0]) {
        1 + run_len(s.drop_first(), keep)
    } else {
        0
    }
}

/// The run is a prefix of `s`, every character in it satisfies `keep`, and
/// the character after it, if there is one, does not.
pub proof fn lemma_run_len(s: Seq<char>, keep: spec_fn(char) -> bool)
    ensures
        run_len(s, keep) <= s.len(),
        forall|i: int| 0 <= i < run_len(s, keep) ==> keep(#[trigger] s[i]),
        run_len(s, keep) < s.len() ==> !keep(s[run_len(s, keep) as int]),
    decreases s.len(),
{
    if s.len() > 0 && keep(s[0]) {
        lemma_run_len(s.drop_first(), keep);
        assert forall|i: int| 0 <= i < run_len(s, keep) implies keep(#[trigger] s[i]) by {
            if i > 0 {
                assert(s[i] == s.drop_first()[i - 1]);
            }
        }
    }
}

/// A prefix of length `n` whose characters all satisfy `keep`, and which is
/// followed by the end of `s` or by a character that does not, is the run.
pub proof fn lemma_run_len_is(s: Seq<char>, keep: spec_fn(char) -> bool, n: nat)
    requires
        n <= s.len(),
        forall|i: int| 0 <= i < n ==> keep(#[trigger] s[i]),
        n < s.len() ==> !keep(s[n as int]),
    ensures
        run_len(s, keep) == n,
    decreases n,
{
    if n > 0 {
        let t = s.drop_first();
        assert forall|i: int| 0 <= i < n - 1 implies keep(#[trigger] t[i]) by {
            assert(t[i] == s[i + 1]);
        }
        if n < s.len() {
            assert(t[n - 1] == s[n as int]);
        }
        lemma_run_len_is(t, keep, (n - 1) as nat);
    }
}

/// The run of `head + tail`, where every character of `head` satisfies
/// `keep`, is `head` and the run of `tail`.
pub proof fn lemma_run_len_concat(head: Seq<char>, tail: Seq<char>, keep: spec_fn(char) -> bool)
    requires
        forall|i: int| 0 <= i < head.len() ==> keep(#[trigger] head[i]),
    ensures
        run_len(head + tail, keep) == head.len() + run_len(tail, keep),
{
    let s = head + tail;
    let n = head.len() + run_len(tail, keep);
    lemma_run_len(tail, keep);
    assert forall|i: int| 0 <= i < n implies keep(#[trigger] s[i]) by {
        if i >= head.len() {
            assert(s[i] == tail[i - head.len()]);
        }
    }
    if n < s.len() {
        assert(s[n as int] == tail[run_len(tail, keep) as int]);
    }
    lemma_run_len_is(s, keep, n);
}

/// The characters of `s`, in order.
pub fn chars_of(s: &str) -> (r: Vec<char>)
    ensures
        r@ == s@,
{
    let mut out: Vec<char> = Vec::new();
    for c in it: s.chars()
        invariant
            out@ == it.seq().take(it.index()),
    {
        out.push(c);
    }
    out
}

} // verus!

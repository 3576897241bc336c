//! Character classes and word-level predicates of the source language.

use vstd::prelude::*;

verus! {

/// The characters with the Unicode property `White_Space`.
pub open spec fn is_whitespace(c: char) -> bool {
    let n = c as u32;
    ||| 0x09 <= n <= 0x0D
    ||| n == 0x20
    ||| n == 0x85
    ||| n == 0xA0
    ||| n == 0x1680
    ||| 0x2000 <= n <= 0x200A
    ||| n == 0x2028
    ||| n == 0x2029
    ||| n == 0x202F
    ||| n == 0x205F
    ||| n == 0x3000
}

/// A separator ends a word: white space, or the statement terminator `;`.
pub open spec fn is_separator(c: char) -> bool {
    is_whitespace(c) || c == ';'
}

/// Tells whether `c` separates words.
pub fn separates(c: char) -> (r: bool)
    ensures
        r == is_separator(c),
{
    let n: u32 = c as u32;
    (0x09 <= n && n <= 0x0D) || n == 0x20 || n == 0x85 || n == 0xA0 || n == 0x1680 || (0x2000 <= n
        && n <= 0x200A) || n == 0x2028 || n == 0x2029 || n == 0x202F || n == 0x205F || n == 0x3000
        || c == ';'
}

/// The code point of `c` with the ASCII capitals folded onto the small letters.
pub open spec fn folded(c: char) -> int {
    if 'A' <= c && c <= 'Z' {
        c as u32 + 32
    } else {
        c as u32 as int
    }
}

/// `word` spells `keyword` (given in small letters), whatever the case of
/// its ASCII letters.
pub open spec fn is_keyword(word: Seq<char>, keyword: Seq<char>) -> bool {
    &&& word.len() == keyword.len()
    &&& forall|i: int| 0 <= i < word.len() ==> folded(#[trigger] word[i]) == keyword[i] as u32
}

/// Tells whether `word` spells `keyword`, which is given in small letters.
#[verifier::loop_isolation(false)]
pub fn spells(word: &str, keyword: &str) -> (r: bool)
    ensures
        r == is_keyword(word@, keyword@),
{
    let w = chars_of(word);
    let k = chars_of(keyword);
    if w.len() != k.len() {
        return false;
    }
    let mut i: usize = 0;
    while i < w.len()
        invariant
            i <= w.len(),
            w.len() == k.len(),
            forall|j: int| 0 <= j < i ==> folded(#[trigger] w@[j]) == k@[j] as u32,
        decreases w.len() - i,
    {
        let c: char = w[i];
        let n: u32 = c as u32;
        let m: u32 = if 'A' <= c && c <= 'Z' {
            n + 32
        } else {
            n
        };
        if m != k[i] as u32 {
            assert(folded(w@[i as int]) != k@[i as int] as u32);
            return false;
        }
        i += 1;
    }
    true
}

/// A decimal digit of ASCII.
pub open spec fn is_digit(c: char) -> bool {
    '0' <= c && c <= '9'
}

/// Every character of `s` is a digit.
pub open spec fn all_digits(s: Seq<char>) -> bool {
    forall|i: int| 0 <= i < s.len() ==> is_digit(#[trigger] s[i])
}

/// The number that a run of digits denotes; the empty run denotes 0.
pub open spec fn digits_value(digits: Seq<char>) -> int
    decreases digits.len(),
{
    if digits.len() == 0 {
        0
    } else {
        digits_value(digits.drop_last()) * 10 + (digits.last() as u32 - '0' as u32)
    }
}

/// The number that `word` denotes in decimal notation: one digit or more
/// and nothing else.
pub open spec fn decimal(word: Seq<char>) -> Option<int> {
    if word.len() > 0 && all_digits(word) {
        Some(digits_value(word))
    } else {
        None
    }
}

/// The value of `word` as a 128-bit signed integer, where it has one: the
/// number that it denotes, if that is no more than the largest such
/// integer.
pub open spec fn decimal_i128(word: Seq<char>) -> Option<i128> {
    match decimal(word) {
        Some(v) => if v <= i128::MAX {
            Some(v as i128)
        } else {
            None
        },
        None => None,
    }
}

/// A run of digits denotes no negative number.
pub proof fn lemma_digits_value_nonnegative(digits: Seq<char>)
    requires
        all_digits(digits),
    ensures
        0 <= digits_value(digits),
    decreases digits.len(),
{
    if digits.len() > 0 {
        assert(is_digit(digits[digits.len() - 1]));
        lemma_digits_value_nonnegative(digits.drop_last());
    }
}

/// Reads `word` as a decimal integer of 128 bits.
#[verifier::loop_isolation(false)]
pub fn parse_i128(word: &str) -> (r: Option<i128>)
    ensures
        r == decimal_i128(word@),
{
    let w = chars_of(word);
    if w.len() == 0 {
        return None;
    }
    let mut acc: i128 = 0;
    let mut overflow = false;
    let mut i: usize = 0;
    while i < w.len()
        invariant
            i <= w.len(),
            all_digits(w@.take(i as int)),
            !overflow ==> acc == digits_value(w@.take(i as int)),
            overflow ==> digits_value(w@.take(i as int)) > i128::MAX,
        decreases w.len() - i,
    {
        let c: char = w[i];
        if !('0' <= c && c <= '9') {
            assert(!is_digit(word@[i as int]));
            return None;
        }
        let d: i128 = (c as u32 - '0' as u32) as i128;
        proof {
            let longer = w@.take(i + 1);
            assert(longer.drop_last() == w@.take(i as int));
            assert(longer.last() == c);
            assert forall|j: int| 0 <= j < longer.len() implies is_digit(#[trigger] longer[j]) by {
                if j < i {
                    assert(w@.take(i as int)[j] == longer[j]);
                }
            }
            lemma_digits_value_nonnegative(longer.drop_last());
        }
        if !overflow {
            let next = match acc.checked_mul(10) {
                Some(m) => m.checked_add(d),
                None => None,
            };
            match next {
                Some(n) => {
                    acc = n;
                },
                None => {
                    overflow = true;
                },
            }
        }
        i += 1;
    }
    assert(w@.take(i as int) == w@);
    if overflow {
        None
    } else {
        Some(acc)
    }
}

/// The characters of a string, in order.
pub fn chars_of(s: &str) -> (v: Vec<char>)
    ensures
        v@ == s@,
{
    broadcast use vstd::string::group_string_axioms;

    let mut v: Vec<char> = Vec::new();
    for c in it: s.chars()
        invariant
            it.seq() == s@,
            v@ == it.seq().take(it.index()),
    {
        v.push(c);
    }
    v
}

} // verus!

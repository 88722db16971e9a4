//! Character classes and small text-level helpers that the grammar, the
//! parser and the query navigator share: whitespace trimming, first
//! occurrence of a character, and the shape of a numeric run.

use vstd::prelude::*;

verus! {

/// The characters the parser skips between tokens: the Unicode
/// `White_Space` set.
pub open spec fn is_ws(c: char) -> bool {
    let u = c as u32;
    u == 0x20 || (0x09 <= u && u <= 0x0D) || u == 0x85 || u == 0xA0 || u == 0x1680 || (0x2000
        <= u && u <= 0x200A) || u == 0x2028 || u == 0x2029 || u == 0x202F || u == 0x205F || u
        == 0x3000
}

/// Executable test for [`is_ws`].
pub fn ws_char(c: char) -> (b: bool)
    ensures
        b == is_ws(c),
{
    let u = c as u32;
    u == 0x20 || (0x09 <= u && u <= 0x0D) || u == 0x85 || u == 0xA0 || u == 0x1680 || (0x2000
        <= u && u <= 0x200A) || u == 0x2028 || u == 0x2029 || u == 0x202F || u == 0x205F || u
        == 0x3000
}

/// An ASCII decimal digit.
pub open spec fn is_digit(c: char) -> bool {
    0x30 <= (c as u32) && (c as u32) <= 0x39
}

/// Executable test for [`is_digit`].
pub fn digit_char(c: char) -> (b: bool)
    ensures
        b == is_digit(c),
{
    let u = c as u32;
    0x30 <= u && u <= 0x39
}

/// A character that a numeric run may contain.
pub open spec fn is_num_char(c: char) -> bool {
    is_digit(c) || c == '.' || c == '-'
}

/// Executable test for [`is_num_char`].
pub fn num_char(c: char) -> (b: bool)
    ensures
        b == is_num_char(c),
{
    digit_char(c) || c == '.' || c == '-'
}

/// The input with its leading whitespace removed.
pub open spec fn trimmed(s: Seq<char>) -> Seq<char>
    decreases s.len(),
{
    if s.len() > 0 && is_ws(s[0]) {
        trimmed(s.skip(1))
    } else {
        s
    }
}

pub proof fn lemma_trimmed_len(s: Seq<char>)
    ensures
        trimmed(s).len() <= s.len(),
    decreases s.len(),
{
    if s.len() > 0 && is_ws(s[0]) {
        lemma_trimmed_len(s.skip(1));
    }
}

/// The position of the first occurrence of `c` in `s`, if any.
pub open spec fn find_char(s: Seq<char>, c: char) -> Option<nat>
    decreases s.len(),
{
    if s.len() == 0 {
        None
    } else if s[0] == c {
        Some(0 as nat)
    } else {
        match find_char(s.skip(1), c) {
            Some(k) => Some((k + 1) as nat),
            None => None,
        }
    }
}

pub proof fn lemma_find_char_range(s: Seq<char>, c: char)
    ensures
        find_char(s, c) matches Some(k) ==> k < s.len() && s[k as int] == c,
    decreases s.len(),
{
    if s.len() > 0 && s[0] != c {
        lemma_find_char_range(s.skip(1), c);
    }
}

/// A scan that saw no `c` before `k`, and `c` at `k`, found the first one.
pub proof fn lemma_find_char_hit(s: Seq<char>, c: char, k: int)
    requires
        0 <= k < s.len(),
        s[k] == c,
        forall|j: int| 0 <= j < k ==> s[j] != c,
    ensures
        find_char(s, c) == Some(k as nat),
    decreases k,
{
    if k > 0 {
        lemma_find_char_hit(s.skip(1), c, k - 1);
    }
}

/// A scan that saw no `c` anywhere finds nothing.
pub proof fn lemma_find_char_miss(s: Seq<char>, c: char)
    requires
        forall|j: int| 0 <= j < s.len() ==> s[j] != c,
    ensures
        find_char(s, c) == None::<nat>,
    decreases s.len(),
{
    if s.len() > 0 {
        lemma_find_char_miss(s.skip(1), c);
    }
}

/// The length of the maximal leading run of numeric characters.
pub open spec fn num_run_len(s: Seq<char>) -> nat
    decreases s.len(),
{
    if s.len() > 0 && is_num_char(s[0]) {
        (1 + num_run_len(s.skip(1))) as nat
    } else {
        0
    }
}

pub proof fn lemma_num_run_len_range(s: Seq<char>)
    ensures
        num_run_len(s) <= s.len(),
    decreases s.len(),
{
    if s.len() > 0 && is_num_char(s[0]) {
        lemma_num_run_len_range(s.skip(1));
    }
}

/// A scan that stopped at the first non-numeric character measured the run.
pub proof fn lemma_num_run_len_at(s: Seq<char>, k: int)
    requires
        0 <= k <= s.len(),
        forall|j: int| 0 <= j < k ==> is_num_char(s[j]),
        k == s.len() || !is_num_char(s[k]),
    ensures
        num_run_len(s) == k,
    decreases k,
{
    if k > 0 {
        lemma_num_run_len_at(s.skip(1), k - 1);
    }
}

/// The number of `.` characters in `s`.
pub open spec fn count_dots(s: Seq<char>) -> int
    decreases s.len(),
{
    if s.len() == 0 {
        0
    } else {
        (if s[0] == '.' {
            1int
        } else {
            0int
        }) + count_dots(s.skip(1))
    }
}

pub proof fn lemma_count_dots_push(s: Seq<char>, c: char)
    ensures
        count_dots(s.push(c)) == count_dots(s) + (if c == '.' {
            1int
        } else {
            0int
        }),
    decreases s.len(),
{
    assert(s.push(c).len() == s.len() + 1);
    if s.len() == 0 {
        assert(s.push(c)[0] == c);
        assert(s.push(c).skip(1) =~= Seq::<char>::empty());
        assert(count_dots(s.push(c).skip(1)) == 0);
    } else {
        assert(s.push(c)[0] == s[0]);
        assert(s.push(c).skip(1) =~= s.skip(1).push(c));
        lemma_count_dots_push(s.skip(1), c);
    }
}

/// Every character of `t` is a digit or a dot.
pub open spec fn digits_or_dots(t: Seq<char>) -> bool
    decreases t.len(),
{
    t.len() == 0 || ((is_digit(t[0]) || t[0] == '.') && digits_or_dots(t.skip(1)))
}

/// Some character of `t` is a digit.
pub open spec fn has_digit(t: Seq<char>) -> bool
    decreases t.len(),
{
    t.len() > 0 && (is_digit(t[0]) || has_digit(t.skip(1)))
}

/// A scan that found only digits and dots before `k` and something else at
/// `k` refutes [`digits_or_dots`].
pub proof fn lemma_digits_or_dots_at(t: Seq<char>, k: int)
    requires
        0 <= k < t.len(),
        !(is_digit(t[k]) || t[k] == '.'),
    ensures
        !digits_or_dots(t),
    decreases k,
{
    if k > 0 {
        lemma_digits_or_dots_at(t.skip(1), k - 1);
    }
}

/// A scan that found only digits and dots establishes [`digits_or_dots`].
pub proof fn lemma_digits_or_dots_all(t: Seq<char>)
    requires
        forall|j: int| 0 <= j < t.len() ==> is_digit(t[j]) || t[j] == '.',
    ensures
        digits_or_dots(t),
    decreases t.len(),
{
    if t.len() > 0 {
        lemma_digits_or_dots_all(t.skip(1));
    }
}

/// A digit seen at `k` establishes [`has_digit`].
pub proof fn lemma_has_digit_at(t: Seq<char>, k: int)
    requires
        0 <= k < t.len(),
        is_digit(t[k]),
    ensures
        has_digit(t),
    decreases k,
{
    if k > 0 {
        lemma_has_digit_at(t.skip(1), k - 1);
    }
}

/// A scan that saw no digit refutes [`has_digit`].
pub proof fn lemma_has_digit_none(t: Seq<char>)
    requires
        forall|j: int| 0 <= j < t.len() ==> !is_digit(t[j]),
    ensures
        !has_digit(t),
    decreases t.len(),
{
    if t.len() > 0 {
        lemma_has_digit_none(t.skip(1));
    }
}

/// Exactly the numeric runs that a strict decimal parse accepts, over the
/// run alphabet (digits, `.`, `-`): an optional leading minus, then at
/// least one character, all digits or dots, with at most one dot and at
/// least one digit.
pub open spec fn valid_number_run(s: Seq<char>) -> bool {
    let t = if s.len() > 0 && s[0] == '-' {
        s.skip(1)
    } else {
        s
    };
    t.len() > 0 && digits_or_dots(t) && count_dots(t) <= 1 && has_digit(t)
}

} // verus!

//! The text form of a task identifier.
//!
//! The store numbers its tasks 1, 2, 3, ... and hands each number out as the
//! text `task_` followed by the number in decimal, without sign, padding or
//! leading zeros: `task_1`, `task_2`, ..., `task_10`, ... This module defines
//! that text, writes it, reads it back, and proves that the two directions
//! agree.

use vstd::prelude::*;
use vstd::string::*;

verus! {

/// The characters every identifier starts with: `task_`.
pub open spec fn key_prefix() -> Seq<char> {
    seq!['t', 'a', 's', 'k', '_']
}

/// The character that stands for the digit `d`, for `d` below ten.
pub open spec fn digit_char(d: nat) -> char {
    if d == 0 {
        '0'
    } else if d == 1 {
        '1'
    } else if d == 2 {
        '2'
    } else if d == 3 {
        '3'
    } else if d == 4 {
        '4'
    } else if d == 5 {
        '5'
    } else if d == 6 {
        '6'
    } else if d == 7 {
        '7'
    } else if d == 8 {
        '8'
    } else {
        '9'
    }
}

/// The digit that `c` stands for, if it is one of `0` to `9`.
pub open spec fn digit_of(c: char) -> Option<nat> {
    if c == '0' {
        Some(0)
    } else if c == '1' {
        Some(1)
    } else if c == '2' {
        Some(2)
    } else if c == '3' {
        Some(3)
    } else if c == '4' {
        Some(4)
    } else if c == '5' {
        Some(5)
    } else if c == '6' {
        Some(6)
    } else if c == '7' {
        Some(7)
    } else if c == '8' {
        Some(8)
    } else if c == '9' {
        Some(9)
    } else {
        None
    }
}

/// The decimal numeral of `n`: its digits, most significant first, with no
/// leading zero (zero itself is the single digit `0`).
pub open spec fn decimal(n: nat) -> Seq<char>
    decreases n,
{
    if n < 10 {
        seq![digit_char(n)]
    } else {
        decimal(n / 10).push(digit_char(n % 10))
    }
}

/// The number that a string of digits denotes, read most significant first.
/// A character that is no digit counts as zero; [`is_decimal`] rules those out.
pub open spec fn digits_value(s: Seq<char>) -> nat
    decreases s.len(),
{
    if s.len() == 0 {
        0
    } else {
        let last: nat = match digit_of(s.last()) {
            Some(d) => d,
            None => 0,
        };
        10 * digits_value(s.drop_last()) + last
    }
}

/// Whether `s` is a decimal numeral: one digit or more, nothing but digits,
/// and no leading zero unless the numeral is `0` itself.
pub open spec fn is_decimal(s: Seq<char>) -> bool {
    &&& s.len() >= 1
    &&& forall|i: int| 0 <= i < s.len() ==> digit_of(#[trigger] s[i]) is Some
    &&& (s.len() == 1 || s[0] != '0')
}

/// The text under which the task numbered `id` is known.
pub open spec fn task_key(id: nat) -> Seq<char> {
    key_prefix() + decimal(id)
}

/// The number of the task that `key` names, if `key` is the text of an
/// identifier at all.
pub open spec fn key_id(key: Seq<char>) -> Option<nat> {
    let numeral = key.subrange(5, key.len() as int);
    if key.len() > 5 && key.subrange(0, 5) == key_prefix() && is_decimal(numeral) {
        Some(digits_value(numeral))
    } else {
        None
    }
}

/// A numeral of digits that does not start with `0` denotes a positive number.
proof fn lemma_value_positive(s: Seq<char>)
    requires
        s.len() >= 1,
        forall|i: int| 0 <= i < s.len() ==> digit_of(#[trigger] s[i]) is Some,
        s[0] != '0',
    ensures
        digits_value(s) >= 1,
    decreases s.len(),
{
    let front = s.drop_last();
    if s.len() == 1 {
        assert(digits_value(front) == 0);
        assert(digit_of(s[0]) is Some);
    } else {
        assert(front[0] == s[0]);
        lemma_value_positive(front);
    }
}

/// The value of a string of digits is at least the value of each of its
/// prefixes.
pub proof fn lemma_value_of_prefix(s: Seq<char>, k: int)
    requires
        0 <= k <= s.len(),
    ensures
        digits_value(s.take(k)) <= digits_value(s),
    decreases s.len() - k,
{
    if k == s.len() {
        assert(s.take(k) == s);
    } else {
        assert(s.take(k + 1).drop_last() == s.take(k));
        lemma_value_of_prefix(s, k + 1);
    }
}

/// The numeral written for `n` is a decimal numeral, and it denotes `n`.
pub proof fn lemma_decimal_denotes(n: nat)
    ensures
        is_decimal(decimal(n)),
        digits_value(decimal(n)) == n,
    decreases n,
{
    let s = decimal(n);
    assert(digit_of(digit_char(n % 10)) == Some(n % 10));
    if n < 10 {
        assert(s[0] == digit_char(n));
        assert(digits_value(s.drop_last()) == 0);
    } else {
        let front = decimal(n / 10);
        lemma_decimal_denotes(n / 10);
        assert(s.drop_last() == front);
        assert(digits_value(s) == 10 * (n / 10) + n % 10);
        assert forall|i: int| 0 <= i < s.len() implies digit_of(#[trigger] s[i]) is Some by {
            if i < front.len() {
                assert(s[i] == front[i]);
            }
        }
        assert(s[0] != '0') by {
            assert(s[0] == front[0]);
            if front.len() == 1 {
                // A single digit that denotes `n / 10`, which is not zero.
                assert(digits_value(front.drop_last()) == 0);
                assert(digit_of(front[0]) == Some(n / 10));
            }
        }
    }
}

/// A decimal numeral is the one written for the number it denotes.
pub proof fn lemma_numeral_is_written(s: Seq<char>)
    requires
        is_decimal(s),
    ensures
        decimal(digits_value(s)) == s,
    decreases s.len(),
{
    let last: nat = digit_of(s.last())->0;
    let front = s.drop_last();
    assert(digit_char(last) == s.last());
    if s.len() == 1 {
        assert(digits_value(front) == 0);
        assert(decimal(last) =~= s);
    } else {
        assert(front[0] == s[0]);
        lemma_value_positive(front);
        lemma_numeral_is_written(front);
        assert(digits_value(s) == 10 * digits_value(front) + last);
        assert(front.push(s.last()) =~= s);
    }
}

/// Reading the text of an identifier gives its number back.
pub proof fn lemma_key_id_of_task_key(id: nat)
    ensures
        key_id(task_key(id)) == Some(id),
{
    let key = task_key(id);
    lemma_decimal_denotes(id);
    assert(key.subrange(0, 5) =~= key_prefix());
    assert(key.subrange(5, key.len() as int) =~= decimal(id));
}

/// A text that reads as the number `id` is the text written for `id`, so no
/// other text names that task.
pub proof fn lemma_task_key_of_key_id(key: Seq<char>)
    requires
        key_id(key) is Some,
    ensures
        task_key(key_id(key)->0) == key,
{
    let numeral = key.subrange(5, key.len() as int);
    lemma_numeral_is_written(numeral);
    assert(key.subrange(0, 5) + numeral =~= key);
}

/// Two tasks with different numbers have different texts.
pub proof fn lemma_task_key_injective(a: nat, b: nat)
    requires
        task_key(a) == task_key(b),
    ensures
        a == b,
{
    lemma_key_id_of_task_key(a);
    lemma_key_id_of_task_key(b);
}

/// The one-character text of a digit.
fn digit_text(d: u64) -> (text: &'static str)
    requires
        d < 10,
    ensures
        text@ == seq![digit_char(d as nat)],
{
    proof {
        reveal_strlit("0");
        reveal_strlit("1");
        reveal_strlit("2");
        reveal_strlit("3");
        reveal_strlit("4");
        reveal_strlit("5");
        reveal_strlit("6");
        reveal_strlit("7");
        reveal_strlit("8");
        reveal_strlit("9");
    }
    if d == 0 {
        "0"
    } else if d == 1 {
        "1"
    } else if d == 2 {
        "2"
    } else if d == 3 {
        "3"
    } else if d == 4 {
        "4"
    } else if d == 5 {
        "5"
    } else if d == 6 {
        "6"
    } else if d == 7 {
        "7"
    } else if d == 8 {
        "8"
    } else {
        "9"
    }
}

/// The digit that a character stands for, if it is one.
fn digit_value(c: char) -> (digit: Option<u64>)
    ensures
        match digit {
            Some(d) => digit_of(c) == Some(d as nat),
            None => digit_of(c) is None,
        },
{
    if c == '0' {
        Some(0)
    } else if c == '1' {
        Some(1)
    } else if c == '2' {
        Some(2)
    } else if c == '3' {
        Some(3)
    } else if c == '4' {
        Some(4)
    } else if c == '5' {
        Some(5)
    } else if c == '6' {
        Some(6)
    } else if c == '7' {
        Some(7)
    } else if c == '8' {
        Some(8)
    } else if c == '9' {
        Some(9)
    } else {
        None
    }
}

/// Writes the decimal numeral of `n` at the end of `out`.
fn append_decimal(out: &mut String, n: u64)
    ensures
        final(out)@ == old(out)@ + decimal(n as nat),
    decreases n,
{
    if n >= 10 {
        append_decimal(out, n / 10);
    }
    out.append(digit_text(n % 10));
    proof {
        let front = decimal((n / 10) as nat);
        let digit = seq![digit_char((n % 10) as nat)];
        if n >= 10 {
            assert(decimal(n as nat) =~= front + digit);
            assert((old(out)@ + front) + digit =~= old(out)@ + (front + digit));
        }
    }
}

/// The text of the identifier with the number `id`.
pub fn task_key_text(id: u64) -> (key: String)
    ensures
        key@ == task_key(id as nat),
{
    let mut key: String = String::from_str("task_");
    proof {
        reveal_strlit("task_");
    }
    append_decimal(&mut key, id);
    key
}

/// Reads the text of an identifier.
///
/// Gives the number back exactly for the texts that [`task_key_text`] writes.
/// Any other text names no task, and neither does one whose number is too
/// large for a `u64`: the store never hands such a number out.
pub fn parse_task_key(key: &str) -> (id: Option<u64>)
    ensures
        match id {
            Some(n) => key_id(key@) == Some(n as nat),
            None => key_id(key@) matches Some(n) ==> n > u64::MAX,
        },
        id matches Some(n) ==> key@ == task_key(n as nat),
        forall|n: nat| key@ == #[trigger] task_key(n) && n <= u64::MAX ==> id == Some(n as u64),
        forall|n: nat| key@ == #[trigger] task_key(n) && n > u64::MAX ==> id is None,
{
    let id: Option<u64> = scan_task_key(key);
    proof {
        if key_id(key@) is Some {
            lemma_task_key_of_key_id(key@);
        }
        assert forall|n: nat| key@ == #[trigger] task_key(n) implies key_id(key@) == Some(n) by {
            lemma_key_id_of_task_key(n);
        }
    }
    id
}

/// Reads `key` against the grammar of identifiers: the prefix, then a
/// decimal numeral, whose value is accumulated digit by digit.
fn scan_task_key(key: &str) -> (id: Option<u64>)
    ensures
        match id {
            Some(n) => key_id(key@) == Some(n as nat),
            None => key_id(key@) matches Some(n) ==> n > u64::MAX,
        },
{
    let len: usize = key.unicode_len();
    if len <= 5 {
        return None;
    }
    if key.get_char(0) != 't' || key.get_char(1) != 'a' || key.get_char(2) != 's' || key.get_char(3)
        != 'k' || key.get_char(4) != '_' {
        return None;
    }
    assert(key@.subrange(0, 5) =~= key_prefix());
    let ghost numeral = key@.subrange(5, len as int);
    if len > 6 && key.get_char(5) == '0' {
        return None;
    }
    let mut value: u64 = 0;
    let mut at: usize = 5;
    while at < len
        invariant
            5 <= at <= len,
            len == key@.len(),
            numeral == key@.subrange(5, len as int),
            forall|i: int| 0 <= i < at - 5 ==> digit_of(#[trigger] numeral[i]) is Some,
            value == digits_value(numeral.take(at - 5)),
        decreases len - at,
    {
        let c: char = key.get_char(at);
        assert(c == numeral[at - 5]);
        let ghost longer = numeral.take(at - 5 + 1);
        assert(longer.drop_last() == numeral.take(at - 5));
        let digit: u64 = match digit_value(c) {
            Some(d) => d,
            None => {
                return None;
            },
        };
        let shifted: u64 = match value.checked_mul(10) {
            Some(v) => v,
            None => {
                proof {
                    lemma_value_of_prefix(numeral, at - 5 + 1);
                }
                return None;
            },
        };
        value = match shifted.checked_add(digit) {
            Some(v) => v,
            None => {
                proof {
                    lemma_value_of_prefix(numeral, at - 5 + 1);
                }
                return None;
            },
        };
        at = at + 1;
    }
    assert(numeral.take(at - 5) == numeral);
    Some(value)
}

} // verus!

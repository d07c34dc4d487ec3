//! Reading the text of an environment variable as a scalar.

use vstd::prelude::*;
use vstd::string::StringExecFns;
use crate::document::{
    datetime_value, float_value, read_datetime, read_float, tree_from_value, tree_of_value,
};
use crate::text::{all_digits, chars_of, digit_of, digits_value, lemma_digits_value_prefix};
use crate::tree::{Tree, TreeValue};

verus! {

/// The boolean that a text denotes: `true` or `false`, spelled exactly so.
pub open spec fn boolean_reading(text: Seq<char>) -> Option<bool> {
    if text == seq!['t', 'r', 'u', 'e'] {
        Some(true)
    } else if text == seq!['f', 'a', 'l', 's', 'e'] {
        Some(false)
    } else {
        None
    }
}

/// The integer that a text denotes: an optional sign, then decimal digits, at
/// least one, whose number with that sign fits 64 bits.
pub open spec fn integer_reading(text: Seq<char>) -> Option<i64> {
    let signed = text.len() > 0 && (text[0] == '+' || text[0] == '-');
    let digits = if signed {
        text.skip(1)
    } else {
        text
    };
    let value = if signed && text[0] == '-' {
        -(digits_value(digits) as int)
    } else {
        digits_value(digits) as int
    };
    if digits.len() > 0 && all_digits(digits) && i64::MIN <= value <= i64::MAX {
        Some(value as i64)
    } else {
        None
    }
}

/// The scalar that the text of an environment variable is read as. The
/// readings are tried in a fixed order and the first that succeeds decides:
/// boolean, float, integer, date and time. A text that is none of these is a
/// string. (So `1` is a float: it is tried as one before it is tried as an
/// integer.)
pub open spec fn scalar_reading(text: Seq<char>) -> Tree {
    if let Some(flag) = boolean_reading(text) {
        Tree::Boolean(flag)
    } else if let Some(number) = float_value(text) {
        tree_of_value(number)
    } else if let Some(number) = integer_reading(text) {
        Tree::Integer(number)
    } else if let Some(moment) = datetime_value(text) {
        Tree::Datetime(moment)
    } else {
        Tree::String(text)
    }
}

/// Reads `text` as a boolean.
pub fn read_boolean(text: &str) -> (flag: Option<bool>)
    ensures
        flag == boolean_reading(text@),
{
    proof {
        reveal_strlit("true");
        reveal_strlit("false");
        assert("true"@ =~= seq!['t', 'r', 'u', 'e']);
        assert("false"@ =~= seq!['f', 'a', 'l', 's', 'e']);
    }
    let owned = String::from_str(text);
    if owned == String::from_str("true") {
        assert(text@ =~= seq!['t', 'r', 'u', 'e']);
        Some(true)
    } else if owned == String::from_str("false") {
        assert(text@ =~= seq!['f', 'a', 'l', 's', 'e']);
        Some(false)
    } else {
        None
    }
}

/// Reads `text` as a signed decimal integer of 64 bits.
pub fn read_integer(text: &str) -> (number: Option<i64>)
    ensures
        number == integer_reading(text@),
{
    let chars = chars_of(text);
    let n = chars.len();
    let negative = n > 0 && chars[0] == '-';
    let signed = n > 0 && (chars[0] == '+' || chars[0] == '-');
    let first: usize = if signed {
        1
    } else {
        0
    };
    let ghost digits = text@.skip(first as int);
    assert(text@.skip(0) =~= text@);
    if first == n {
        return None;
    }
    let mut magnitude: u64 = 0;
    let mut i: usize = first;
    assert(digits.take(0) =~= Seq::<char>::empty());
    while i < n
        invariant
            first <= i <= n,
            n == chars.len(),
            chars@ == text@,
            digits == text@.skip(first as int),
            signed == (text@.len() > 0 && (text@[0] == '+' || text@[0] == '-')),
            first == if signed { 1usize } else { 0usize },
            signed ==> digits == text@.skip(1),
            !signed ==> digits == text@,
            all_digits(digits.take(i - first)),
            magnitude == digits_value(digits.take(i - first)),
            magnitude <= 0x8000_0000_0000_0000u64,
        decreases n - i,
    {
        let ghost done = digits.take(i - first);
        let ghost next = digits.take(i - first + 1);
        assert(next.drop_last() =~= done);
        assert(next.last() == chars@[i as int]);
        proof {
            lemma_digits_value_prefix(digits, i - first + 1);
        }
        let digit = match digit_of(chars[i]) {
            Some(digit) => digit,
            None => {
                assert(!crate::text::is_digit(digits[i - first]));
                return None;
            },
        };
        assert(all_digits(next)) by {
            assert forall|j: int| 0 <= j < next.len() implies crate::text::is_digit(
                #[trigger] next[j],
            ) by {
                if j < done.len() {
                    assert(crate::text::is_digit(done[j]));
                }
            }
        }
        if magnitude > 922337203685477580u64 {
            return None;
        }
        magnitude = magnitude * 10 + digit as u64;
        if magnitude > 0x8000_0000_0000_0000u64 {
            return None;
        }
        i = i + 1;
    }
    assert(digits.take(n - first) =~= digits);
    if negative {
        if magnitude == 0x8000_0000_0000_0000u64 {
            Some(i64::MIN)
        } else {
            Some(-(magnitude as i64))
        }
    } else if magnitude == 0x8000_0000_0000_0000u64 {
        None
    } else {
        Some(magnitude as i64)
    }
}

/// Reads the text of an environment variable as a scalar: a boolean, else a
/// float, else an integer, else a date and time, else the text itself.
pub fn parse_toml_value(value: String) -> (scalar: TreeValue)
    ensures
        scalar@ == scalar_reading(value@),
        scalar@.is_scalar(),
{
    if let Some(flag) = read_boolean(value.as_str()) {
        return TreeValue::Boolean(flag);
    }
    if let Some(number) = read_float(value.as_str()) {
        return tree_from_value(number);
    }
    if let Some(number) = read_integer(value.as_str()) {
        return TreeValue::Integer(number);
    }
    if let Some(moment) = read_datetime(value.as_str()) {
        return TreeValue::Datetime(moment);
    }
    TreeValue::String(value)
}

} // verus!

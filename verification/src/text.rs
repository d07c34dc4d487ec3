//! Small operations on text, stated over sequences of characters.

use vstd::prelude::*;
use vstd::string::{StrSliceExecFns, StringExecFns};

verus! {

/// The characters of `text`, in order.
pub fn chars_of(text: &str) -> (chars: Vec<char>)
    ensures
        chars@ == text@,
{
    let mut chars: Vec<char> = Vec::new();
    for c in it: text.chars()
        invariant
            chars@ == text@.take(it.index()),
            it.seq() == text@,
    {
        chars.push(c);
        assert(text@.take(it.index() + 1) =~= text@.take(it.index() as int).push(c));
    }
    assert(text@.take(text@.len() as int) =~= text@);
    chars
}

/// Whether `c` is one of the ten decimal digits.
pub open spec fn is_digit(c: char) -> bool {
    '0' <= c <= '9'
}

/// Whether `s` holds decimal digits only.
pub open spec fn all_digits(s: Seq<char>) -> bool {
    forall|i: int| 0 <= i < s.len() ==> is_digit(#[trigger] s[i])
}

/// The number that the digit `c` stands for.
pub open spec fn digit_value(c: char) -> nat {
    (c as u32 - '0' as u32) as nat
}

/// The digit that stands for `d`, a number below ten.
pub open spec fn digit_char(d: nat) -> char {
    if d == 0 {
        '0'
    } else if d == 1 {
        '1'
    } else if d == 2 {
        '2'
    } else if d == 3 {
        '3'
    } else if d == 4 {
        '4'
    } else if d == 5 {
        '5'
    } else if d == 6 {
        '6'
    } else if d == 7 {
        '7'
    } else if d == 8 {
        '8'
    } else {
        '9'
    }
}

/// The number that a run of digits denotes in base ten; the empty run
/// denotes zero.
pub open spec fn digits_value(s: Seq<char>) -> nat
    decreases s.len(),
{
    if s.len() == 0 {
        0
    } else {
        digits_value(s.drop_last()) * 10 + digit_value(s.last())
    }
}

/// The digits of `n` in base ten, without leading zeros.
pub open spec fn decimal(n: nat) -> Seq<char>
    decreases n,
{
    if n < 10 {
        seq![digit_char(n)]
    } else {
        decimal(n / 10).push(digit_char(n % 10))
    }
}

/// A digit and the number it stands for determine each other.
pub proof fn lemma_digit_round_trip(c: char)
    requires
        is_digit(c),
    ensures
        digit_value(c) < 10,
        digit_char(digit_value(c)) == c,
{
}

/// A longer run of digits denotes no smaller a number than its beginning.
pub proof fn lemma_digits_value_prefix(s: Seq<char>, k: int)
    requires
        0 <= k <= s.len(),
    ensures
        digits_value(s.take(k)) <= digits_value(s),
    decreases s.len() - k,
{
    if k < s.len() {
        lemma_digits_value_prefix(s, k + 1);
        assert(s.take(k + 1).drop_last() =~= s.take(k));
        assert(digits_value(s.take(k + 1)) >= digits_value(s.take(k)) * 10);
    } else {
        assert(s.take(k) =~= s);
    }
}

/// A run of digits that does not begin with a zero denotes a number above
/// zero.
pub proof fn lemma_digits_value_positive(s: Seq<char>)
    requires
        s.len() > 0,
        all_digits(s),
        s[0] != '0',
    ensures
        digits_value(s) >= 1,
    decreases s.len(),
{
    if s.len() == 1 {
        assert(s.drop_last().len() == 0);
        assert(digits_value(s.drop_last()) == 0);
        assert(is_digit(s[0]));
    } else {
        let front = s.drop_last();
        assert(all_digits(front)) by {
            assert forall|i: int| 0 <= i < front.len() implies is_digit(#[trigger] front[i]) by {
                assert(is_digit(s[i]));
            }
        }
        lemma_digits_value_positive(front);
    }
}

/// Writing out the number that a run of digits denotes gives the run back,
/// unless the run has more than one digit and begins with a zero.
pub proof fn lemma_decimal_of_digits(s: Seq<char>)
    requires
        s.len() > 0,
        all_digits(s),
        s.len() > 1 ==> s[0] != '0',
    ensures
        decimal(digits_value(s)) == s,
    decreases s.len(),
{
    let last = s.last();
    assert(is_digit(last));
    lemma_digit_round_trip(last);
    let front = s.drop_last();
    if s.len() == 1 {
        assert(digits_value(front) == 0);
        assert(decimal(digits_value(s)) =~= s);
    } else {
        assert(all_digits(front)) by {
            assert forall|i: int| 0 <= i < front.len() implies is_digit(#[trigger] front[i]) by {
                assert(is_digit(s[i]));
            }
        }
        lemma_digits_value_positive(front);
        lemma_decimal_of_digits(front);
        let v = digits_value(s);
        assert(v == digits_value(front) * 10 + digit_value(last));
        assert(v >= 10);
        assert(v / 10 == digits_value(front));
        assert(v % 10 == digit_value(last));
        assert(decimal(v) =~= s);
    }
}

/// The number that the digit `c` stands for, if `c` is a digit.
pub fn digit_of(c: char) -> (d: Option<u8>)
    ensures
        d is Some <==> is_digit(c),
        d matches Some(v) ==> v == digit_value(c),
{
    if '0' <= c && c <= '9' {
        Some((c as u32 - '0' as u32) as u8)
    } else {
        None
    }
}

/// The number that `chars[from..to]` denotes, if those are digits only and
/// the number fits the machine's word.
pub fn index_of_digits(chars: &Vec<char>, from: usize, to: usize) -> (index: Option<usize>)
    requires
        from <= to <= chars.len(),
    ensures
        index == (if all_digits(chars@.subrange(from as int, to as int)) && digits_value(
            chars@.subrange(from as int, to as int),
        ) <= usize::MAX {
            Some(digits_value(chars@.subrange(from as int, to as int)) as usize)
        } else {
            None
        }),
{
    let ghost piece = chars@.subrange(from as int, to as int);
    let mut value: usize = 0;
    let mut i: usize = from;
    assert(piece.take(0) =~= Seq::<char>::empty());
    while i < to
        invariant
            from <= i <= to <= chars.len(),
            piece == chars@.subrange(from as int, to as int),
            all_digits(piece.take(i - from)),
            value == digits_value(piece.take(i - from)),
        decreases to - i,
    {
        let ghost done = piece.take(i - from);
        let ghost next = piece.take(i - from + 1);
        assert(next.drop_last() =~= done);
        assert(next.last() == chars@[i as int]);
        let digit = match digit_of(chars[i]) {
            Some(digit) => digit,
            None => {
                assert(!is_digit(piece[i - from]));
                return None;
            },
        };
        assert(all_digits(next)) by {
            assert forall|j: int| 0 <= j < next.len() implies is_digit(#[trigger] next[j]) by {
                if j < done.len() {
                    assert(is_digit(done[j]));
                }
            }
        }
        proof {
            lemma_digits_value_prefix(piece, i - from + 1);
        }
        let tenfold = match value.checked_mul(10) {
            Some(tenfold) => tenfold,
            None => {
                return None;
            },
        };
        value = match tenfold.checked_add(digit as usize) {
            Some(sum) => sum,
            None => {
                return None;
            },
        };
        i = i + 1;
    }
    assert(piece.take(to - from) =~= piece);
    Some(value)
}

/// The one-character text of a digit.
fn digit_text(d: usize) -> (text: &'static str)
    requires
        d < 10,
    ensures
        text@ == seq![digit_char(d as nat)],
{
    proof {
        reveal_strlit("0");
        reveal_strlit("1");
        reveal_strlit("2");
        reveal_strlit("3");
        reveal_strlit("4");
        reveal_strlit("5");
        reveal_strlit("6");
        reveal_strlit("7");
        reveal_strlit("8");
        reveal_strlit("9");
    }
    let text = if d == 0 {
        "0"
    } else if d == 1 {
        "1"
    } else if d == 2 {
        "2"
    } else if d == 3 {
        "3"
    } else if d == 4 {
        "4"
    } else if d == 5 {
        "5"
    } else if d == 6 {
        "6"
    } else if d == 7 {
        "7"
    } else if d == 8 {
        "8"
    } else {
        "9"
    };
    assert(text@ =~= seq![digit_char(d as nat)]);
    text
}

/// Appends the digits of `n` in base ten to `out`.
pub fn push_decimal(out: &mut String, n: usize)
    ensures
        final(out)@ == old(out)@ + decimal(n as nat),
    decreases n,
{
    if n >= 10 {
        push_decimal(out, n / 10);
    }
    out.append(digit_text(n % 10));
    assert(out@ =~= old(out)@ + decimal(n as nat));
}

/// Whether `text` begins with `prefix`.
pub fn starts_with(text: &Vec<char>, prefix: &Vec<char>) -> (yes: bool)
    ensures
        yes == prefix@.is_prefix_of(text@),
{
    if prefix.len() > text.len() {
        return false;
    }
    let mut i: usize = 0;
    while i < prefix.len()
        invariant
            i <= prefix.len() <= text.len(),
            forall|j: int| 0 <= j < i ==> text@[j] == prefix@[j],
        decreases prefix.len() - i,
    {
        if text[i] != prefix[i] {
            assert(text@.subrange(0, prefix@.len() as int)[i as int] != prefix@[i as int]);
            return false;
        }
        i = i + 1;
    }
    assert(prefix@ =~= text@.subrange(0, prefix@.len() as int));
    true
}

/// Whether `pattern` stands in `text` at the place `at`.
pub fn matches_at(text: &Vec<char>, at: usize, pattern: &Vec<char>) -> (yes: bool)
    requires
        at <= text.len(),
    ensures
        yes == pattern@.is_prefix_of(text@.skip(at as int)),
{
    let ghost tail = text@.skip(at as int);
    if pattern.len() > text.len() - at {
        return false;
    }
    let mut i: usize = 0;
    while i < pattern.len()
        invariant
            at <= text.len(),
            i <= pattern.len() <= text.len() - at,
            tail == text@.skip(at as int),
            forall|j: int| 0 <= j < i ==> tail[j] == pattern@[j],
        decreases pattern.len() - i,
    {
        if text[at + i] != pattern[i] {
            assert(tail.subrange(0, pattern@.len() as int)[i as int] != pattern@[i as int]);
            return false;
        }
        i = i + 1;
    }
    assert(pattern@ =~= tail.subrange(0, pattern@.len() as int));
    true
}

/// `text` with a dot in place of each occurrence of `pattern`, the
/// occurrences taken from left to right and not overlapping. The empty
/// pattern occurs before each character and at the end.
pub open spec fn dotted(text: Seq<char>, pattern: Seq<char>) -> Seq<char>
    decreases text.len(),
{
    if pattern.len() == 0 {
        if text.len() == 0 {
            seq!['.']
        } else {
            seq!['.', text[0]] + dotted(text.drop_first(), pattern)
        }
    } else if text.len() == 0 {
        Seq::empty()
    } else if pattern.is_prefix_of(text) {
        seq!['.'] + dotted(text.skip(pattern.len() as int), pattern)
    } else {
        seq![text[0]] + dotted(text.drop_first(), pattern)
    }
}

/// Puts a dot in place of each occurrence of `pattern` in `text`.
pub fn replace_with_dots(text: &str, pattern: &str) -> (out: String)
    ensures
        out@ == dotted(text@, pattern@),
{
    let chars = chars_of(text);
    let wanted = chars_of(pattern);
    let mut out = String::new();
    let mut i: usize = 0;
    proof {
        reveal_strlit(".");
        assert(text@.skip(0) =~= text@);
    }
    while i < chars.len()
        invariant
            chars@ == text@,
            wanted@ == pattern@,
            i <= chars.len(),
            "."@ == seq!['.'],
            dotted(text@, pattern@) == out@ + dotted(text@.skip(i as int), pattern@),
        decreases chars.len() - i,
    {
        let ghost tail = text@.skip(i as int);
        let ghost before = out@;
        assert(tail.drop_first() =~= text@.skip(i + 1));
        assert(tail[0] == text@[i as int]);
        if wanted.len() == 0 {
            out.append(".");
            out.append(text.substring_char(i, i + 1));
            assert(text@.subrange(i as int, i + 1) =~= seq![text@[i as int]]);
            assert(out@ =~= before + seq!['.', text@[i as int]]);
            i = i + 1;
        } else if matches_at(&chars, i, &wanted) {
            out.append(".");
            assert(tail.skip(pattern@.len() as int) =~= text@.skip(i + pattern@.len()));
            i = i + wanted.len();
        } else {
            out.append(text.substring_char(i, i + 1));
            assert(text@.subrange(i as int, i + 1) =~= seq![text@[i as int]]);
            i = i + 1;
        }
    }
    assert(text@.skip(chars@.len() as int) =~= Seq::<char>::empty());
    if wanted.len() == 0 {
        out.append(".");
    }
    out
}

/// Whether `a` comes before `b` in the order of a dictionary whose letters
/// are ordered by their code points: the order of `str`.
pub open spec fn text_lt(a: Seq<char>, b: Seq<char>) -> bool
    decreases a.len(),
{
    if b.len() == 0 {
        false
    } else if a.len() == 0 {
        true
    } else if a[0] != b[0] {
        a[0] < b[0]
    } else {
        text_lt(a.drop_first(), b.drop_first())
    }
}

/// No text comes before itself.
pub proof fn lemma_text_lt_irreflexive(a: Seq<char>)
    ensures
        !text_lt(a, a),
    decreases a.len(),
{
    if a.len() > 0 {
        lemma_text_lt_irreflexive(a.drop_first());
    }
}

/// Of two different texts, one comes before the other.
pub proof fn lemma_text_lt_total(a: Seq<char>, b: Seq<char>)
    ensures
        a == b || text_lt(a, b) || text_lt(b, a),
    decreases a.len(),
{
    if a.len() == 0 || b.len() == 0 {
        if a.len() == 0 && b.len() == 0 {
            assert(a =~= b);
        }
    } else if a[0] == b[0] {
        lemma_text_lt_total(a.drop_first(), b.drop_first());
        if a.drop_first() == b.drop_first() {
            assert(a =~= seq![a[0]] + a.drop_first());
            assert(b =~= seq![b[0]] + b.drop_first());
        }
    }
}

/// Coming before is transitive.
pub proof fn lemma_text_lt_transitive(a: Seq<char>, b: Seq<char>, c: Seq<char>)
    requires
        text_lt(a, b),
        text_lt(b, c),
    ensures
        text_lt(a, c),
    decreases a.len(),
{
    if a.len() > 0 && a[0] == b[0] && b[0] == c[0] {
        lemma_text_lt_transitive(a.drop_first(), b.drop_first(), c.drop_first());
    }
}

/// Whether `a` comes before `b` in the order of `str`.
pub fn text_less(a: &str, b: &str) -> (yes: bool)
    ensures
        yes == text_lt(a@, b@),
{
    let left = chars_of(a);
    let right = chars_of(b);
    let mut i: usize = 0;
    assert(a@.skip(0) =~= a@);
    assert(b@.skip(0) =~= b@);
    while i < left.len() && i < right.len()
        invariant
            left@ == a@,
            right@ == b@,
            i <= left.len(),
            i <= right.len(),
            text_lt(a@, b@) == text_lt(a@.skip(i as int), b@.skip(i as int)),
        decreases left.len() - i,
    {
        let ghost x = a@.skip(i as int);
        let ghost y = b@.skip(i as int);
        assert(x.drop_first() =~= a@.skip(i + 1));
        assert(y.drop_first() =~= b@.skip(i + 1));
        if left[i] != right[i] {
            return left[i] < right[i];
        }
        i = i + 1;
    }
    i < right.len()
}

} // verus!

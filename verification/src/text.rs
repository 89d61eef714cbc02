//! Text as sequences of characters: comparing it, searching it, and writing
//! and reading decimal numbers.

use vstd::prelude::*;
use vstd::string::*;
use vstd::utf8::*;

verus! {

/// The decimal digit for a value below ten.
pub open spec fn digit(value: nat) -> char {
    (value + 48) as char
}

/// Whether a character is one of the ten ASCII decimal digits.
pub open spec fn is_digit(c: char) -> bool {
    '0' <= c <= '9'
}

/// What an ASCII decimal digit stands for.
pub open spec fn digit_value(c: char) -> nat {
    (c as nat - 48) as nat
}

/// A number written in decimal, with no leading zeros.
pub open spec fn decimal(n: nat) -> Seq<char>
    decreases n,
{
    if n < 10 {
        seq![digit(n)]
    } else {
        decimal(n / 10).push(digit(n % 10))
    }
}

/// Whether every character of a text is an ASCII decimal digit.
pub open spec fn all_digits(text: Seq<char>) -> bool {
    forall|i: int| 0 <= i < text.len() ==> is_digit(#[trigger] text[i])
}

/// The number a sequence of decimal digits stands for.
pub open spec fn digits_value(text: Seq<char>) -> nat
    decreases text.len(),
{
    if text.len() == 0 {
        0
    } else {
        digits_value(text.drop_last()) * 10 + digit_value(text.last())
    }
}

/// The text without one leading `+`.
pub open spec fn unsigned_part(text: Seq<char>) -> Seq<char> {
    if text.len() > 0 && text[0] == '+' {
        text.skip(1)
    } else {
        text
    }
}

/// The 64-bit number a text stands for: an optional `+`, then at least one
/// digit, then nothing else.
pub open spec fn number(text: Seq<char>) -> Option<u64> {
    let digits = unsigned_part(text);
    if digits.len() > 0 && all_digits(digits) && digits_value(digits) <= u64::MAX {
        Some(digits_value(digits) as u64)
    } else {
        None
    }
}

/// The position of the last `c` in a text, or -1.
pub open spec fn last_position(text: Seq<char>, c: char) -> int
    decreases text.len(),
{
    if text.len() == 0 {
        -1
    } else if text.last() == c {
        text.len() - 1
    } else {
        last_position(text.drop_last(), c)
    }
}

/// A text cut at its last `c`: what is before it and what is after it.
pub open spec fn cut_at_last(text: Seq<char>, c: char) -> Option<(Seq<char>, Seq<char>)> {
    let at = last_position(text, c);
    if at < 0 {
        None
    } else {
        Some((text.take(at), text.skip(at + 1)))
    }
}

/// Whether `part` stands in `text` at position `at`.
pub open spec fn occurs_at(text: Seq<char>, part: Seq<char>, at: int) -> bool {
    0 <= at && at + part.len() <= text.len() && text.subrange(at, at + part.len()) == part
}

/// Whether a text ends with another.
pub open spec fn ends_with(text: Seq<char>, end: Seq<char>) -> bool {
    occurs_at(text, end, text.len() - end.len())
}

/// Texts joined by a separator.
pub open spec fn joined(parts: Seq<Seq<char>>, separator: Seq<char>) -> Seq<char>
    decreases parts.len(),
{
    if parts.len() == 0 {
        Seq::empty()
    } else if parts.len() == 1 {
        parts[0]
    } else {
        joined(parts.drop_last(), separator) + separator + parts.last()
    }
}

/// The views of a list of strings.
pub open spec fn views(list: Seq<String>) -> Seq<Seq<char>> {
    list.map_values(|s: String| s@)
}

/// Whether `part` stands anywhere in `text`.
pub open spec fn contains_text(text: Seq<char>, part: Seq<char>) -> bool {
    exists|at: int| occurs_at(text, part, at)
}

/// Whether one sequence of bytes comes before another in lexicographic order.
pub open spec fn bytes_before(a: Seq<u8>, b: Seq<u8>) -> bool
    decreases a.len(),
{
    if b.len() == 0 {
        false
    } else if a.len() == 0 {
        true
    } else {
        a[0] < b[0] || (a[0] == b[0] && bytes_before(a.skip(1), b.skip(1)))
    }
}

/// Whether one text comes before another: texts are ordered by their UTF-8
/// bytes.
pub open spec fn text_before(a: Seq<char>, b: Seq<char>) -> bool {
    bytes_before(encode_utf8(a), encode_utf8(b))
}

/// Of two sequences of bytes one comes first, unless they are the same.
pub proof fn lemma_bytes_before_is_total(a: Seq<u8>, b: Seq<u8>)
    ensures
        bytes_before(a, b) ==> !bytes_before(b, a) && a != b,
        !bytes_before(a, b) && !bytes_before(b, a) ==> a == b,
    decreases a.len(),
{
    if a.len() > 0 && b.len() > 0 {
        lemma_bytes_before_is_total(a.skip(1), b.skip(1));
        if a[0] == b[0] && a.skip(1) == b.skip(1) {
            assert(a =~= seq![a[0]] + a.skip(1));
            assert(b =~= seq![b[0]] + b.skip(1));
        }
    } else if a.len() == 0 && b.len() == 0 {
        assert(a =~= b);
    }
}

/// What comes before something that comes before a third comes before it.
pub proof fn lemma_bytes_before_is_transitive(a: Seq<u8>, b: Seq<u8>, c: Seq<u8>)
    requires
        bytes_before(a, b),
        bytes_before(b, c),
    ensures
        bytes_before(a, c),
    decreases a.len(),
{
    if a.len() > 0 && a[0] == b[0] && b[0] == c[0] {
        lemma_bytes_before_is_transitive(a.skip(1), b.skip(1), c.skip(1));
    }
}

/// Texts are in a total order.
pub proof fn lemma_text_before_is_an_order(a: Seq<char>, b: Seq<char>, c: Seq<char>)
    ensures
        text_before(a, b) ==> !text_before(b, a) && a != b,
        !text_before(a, b) && !text_before(b, a) ==> a == b,
        text_before(a, b) && text_before(b, c) ==> text_before(a, c),
{
    lemma_bytes_before_is_total(encode_utf8(a), encode_utf8(b));
    lemma_same_bytes_same_text(a, b);
    if text_before(a, b) && text_before(b, c) {
        lemma_bytes_before_is_transitive(encode_utf8(a), encode_utf8(b), encode_utf8(c));
    }
}

/// Two texts with the same UTF-8 bytes are the same text.
pub proof fn lemma_same_bytes_same_text(a: Seq<char>, b: Seq<char>)
    ensures
        encode_utf8(a) == encode_utf8(b) <==> a == b,
{
    encode_utf8_decode_utf8(a);
    encode_utf8_decode_utf8(b);
}

/// A number survives being written in decimal and read back.
pub proof fn lemma_decimal(n: nat)
    ensures
        decimal(n).len() > 0,
        all_digits(decimal(n)),
        digits_value(decimal(n)) == n,
    decreases n,
{
    reveal_with_fuel(digits_value, 2);
    if n < 10 {
        assert(decimal(n).drop_last() =~= Seq::<char>::empty());
    } else {
        lemma_decimal(n / 10);
        assert(decimal(n).drop_last() =~= decimal(n / 10));
    }
}

/// Reading back a number written in decimal.
pub proof fn lemma_number_of_decimal(n: u64)
    ensures
        number(decimal(n as nat)) == Some(n),
{
    lemma_decimal(n as nat);
    let text = decimal(n as nat);
    assert(is_digit(text[0]));
    assert(unsigned_part(text) == text);
}

/// Where the last `c` of a text is.
pub proof fn lemma_last_position(text: Seq<char>, c: char)
    ensures
        -1 <= last_position(text, c) < text.len(),
        last_position(text, c) >= 0 ==> text[last_position(text, c)] == c,
        forall|i: int| last_position(text, c) < i < text.len() ==> text[i] != c,
    decreases text.len(),
{
    if text.len() > 0 && text.last() != c {
        lemma_last_position(text.drop_last(), c);
        let at = last_position(text, c);
        assert forall|i: int| at < i < text.len() implies text[i] != c by {
            if i < text.len() - 1 {
                assert(text.drop_last()[i] != c);
            }
        }
    }
}

/// Cutting `head + c + tail` at its last `c`, where `tail` holds none.
pub proof fn lemma_cut_at_last(head: Seq<char>, c: char, tail: Seq<char>)
    requires
        !tail.contains(c),
    ensures
        cut_at_last(head + seq![c] + tail, c) == Some((head, tail)),
{
    let text = head + seq![c] + tail;
    lemma_last_position(text, c);
    let at = last_position(text, c);
    assert(text[head.len() as int] == c);
    if at > head.len() {
        assert(text[at] == tail[at - head.len() - 1]);
        assert(tail.contains(c));
    }
    assert(text.take(at) =~= head);
    assert(text.skip(at + 1) =~= tail);
}

/// The characters of a string.
pub fn chars_of(text: &str) -> (chars: Vec<char>)
    ensures
        chars@ == text@,
{
    let mut chars: Vec<char> = Vec::new();
    for c in iter: text.chars()
        invariant
            iter.seq() == text@,
            chars@ == text@.take(iter.index() as int),
    {
        chars.push(c);
        assert(text@.take(iter.index() as int + 1) =~= text@.take(iter.index() as int).push(c));
    }
    assert(text@.take(text@.len() as int) =~= text@);
    chars
}

/// Whether two texts are the same.
pub fn same_text(a: &str, b: &str) -> (same: bool)
    ensures
        same == (a@ == b@),
{
    let left = a.as_bytes();
    let right = b.as_bytes();
    proof {
        lemma_same_bytes_same_text(a@, b@);
    }
    if left.len() != right.len() {
        return false;
    }
    let mut i: usize = 0;
    while i < left.len()
        invariant
            i <= left@.len(),
            left@.len() == right@.len(),
            left@ == encode_utf8(a@),
            right@ == encode_utf8(b@),
            encode_utf8(a@) == encode_utf8(b@) <==> a@ == b@,
            forall|j: int| 0 <= j < i ==> left@[j] == right@[j],
        decreases left@.len() - i,
    {
        if left[i] != right[i] {
            return false;
        }
        i += 1;
    }
    assert(left@ =~= right@);
    true
}

fn digit_text(value: u64) -> (text: &'static str)
    requires
        value < 10,
    ensures
        text@ == seq![digit(value as nat)],
{
    proof {
        reveal_strlit("0");
        reveal_strlit("1");
        reveal_strlit("2");
        reveal_strlit("3");
        reveal_strlit("4");
        reveal_strlit("5");
        reveal_strlit("6");
        reveal_strlit("7");
        reveal_strlit("8");
        reveal_strlit("9");
    }
    let text = match value {
        0 => "0",
        1 => "1",
        2 => "2",
        3 => "3",
        4 => "4",
        5 => "5",
        6 => "6",
        7 => "7",
        8 => "8",
        _ => "9",
    };
    assert(text@ =~= seq![digit(value as nat)]);
    text
}

/// A number written in decimal.
pub fn decimal_text(n: u64) -> (text: String)
    ensures
        text@ == decimal(n as nat),
    decreases n,
{
    if n < 10 {
        String::from_str(digit_text(n))
    } else {
        let mut text = decimal_text(n / 10);
        text.append(digit_text(n % 10));
        assert(text@ =~= decimal(n as nat / 10).push(digit(n as nat % 10)));
        text
    }
}

/// The number a text stands for, if it is one.
pub fn number_of(text: &str) -> (n: Option<u64>)
    ensures
        n == number(text@),
{
    let chars = chars_of(text);
    let start: usize = if chars.len() > 0 && chars[0] == '+' {
        1
    } else {
        0
    };
    let ghost digits = unsigned_part(text@);
    if start == chars.len() {
        return None;
    }
    let mut value: u64 = 0;
    let mut i: usize = start;
    while i < chars.len()
        invariant
            start <= i <= chars@.len(),
            start <= 1,
            digits == chars@.skip(start as int),
            digits == unsigned_part(text@),
            digits.len() > 0,
            all_digits(digits.take(i - start)),
            value == digits_value(digits.take(i - start)),
        decreases chars@.len() - i,
    {
        let c = chars[i];
        let ghost seen = digits.take(i - start);
        let ghost next = digits.take(i + 1 - start);
        assert(next.drop_last() =~= seen);
        assert(next.last() == c);
        assert(digits[i - start] == c);
        if c < '0' || c > '9' {
            assert(!is_digit(digits[i - start]));
            return None;
        }
        let d: u64 = (c as u32 - 48) as u64;
        assert(digits_value(next) == digits_value(seen) * 10 + d);
        proof {
            lemma_digits_value_grows(digits, i + 1 - start);
        }
        if value > (u64::MAX - d) / 10 {
            return None;
        }
        value = value * 10 + d;
        i += 1;
    }
    assert(digits.take(i - start) =~= digits);
    Some(value)
}

/// A sequence of digits stands for at least what any of its beginnings does.
proof fn lemma_digits_value_grows(digits: Seq<char>, n: int)
    requires
        0 <= n <= digits.len(),
    ensures
        digits_value(digits.take(n)) <= digits_value(digits),
    decreases digits.len(),
{
    if n < digits.len() {
        lemma_digits_value_grows(digits.drop_last(), n);
        assert(digits.drop_last().take(n) =~= digits.take(n));
    } else {
        assert(digits.take(n) =~= digits);
    }
}

/// How many bytes a text takes in UTF-8.
pub fn byte_length(text: &str) -> (length: usize)
    ensures
        length == encode_utf8(text@).len(),
{
    text.as_bytes().len()
}

/// Whether one text comes before another.
pub fn comes_before(a: &str, b: &str) -> (before: bool)
    ensures
        before == text_before(a@, b@),
{
    let left = a.as_bytes();
    let right = b.as_bytes();
    let mut i: usize = 0;
    assert(left@.skip(0) =~= left@);
    assert(right@.skip(0) =~= right@);
    while i < left.len() && i < right.len()
        invariant
            i <= left@.len(),
            i <= right@.len(),
            bytes_before(left@, right@) == bytes_before(
                left@.skip(i as int),
                right@.skip(i as int),
            ),
            left@ == encode_utf8(a@),
            right@ == encode_utf8(b@),
        decreases left@.len() - i,
    {
        assert(left@.skip(i as int).skip(1) =~= left@.skip(i + 1));
        assert(right@.skip(i as int).skip(1) =~= right@.skip(i + 1));
        if left[i] != right[i] {
            return left[i] < right[i];
        }
        i += 1;
    }
    i < right.len()
}

/// Whether a text holds a character.
pub fn has_char(text: &str, c: char) -> (has: bool)
    ensures
        has == text@.contains(c),
{
    let chars = chars_of(text);
    let mut i: usize = 0;
    while i < chars.len()
        invariant
            i <= chars@.len(),
            chars@ == text@,
            forall|j: int| 0 <= j < i ==> chars@[j] != c,
        decreases chars@.len() - i,
    {
        if chars[i] == c {
            assert(text@[i as int] == c);
            return true;
        }
        i += 1;
    }
    false
}

fn has_at(chars: &Vec<char>, part: &Vec<char>, at: usize) -> (has: bool)
    requires
        at + part@.len() <= chars@.len(),
    ensures
        has == occurs_at(chars@, part@, at as int),
{
    let ghost held = chars@.subrange(at as int, at + part@.len());
    let length: usize = chars.len();
    let mut i: usize = 0;
    while i < part.len()
        invariant
            i <= part@.len(),
            at + part@.len() <= length,
            length == chars@.len(),
            held == chars@.subrange(at as int, at + part@.len()),
            forall|j: int| 0 <= j < i ==> held[j] == part@[j],
        decreases part@.len() - i,
    {
        assert(held[i as int] == chars@[at + i]);
        if chars[at + i] != part[i] {
            return false;
        }
        i += 1;
    }
    assert(held =~= part@);
    true
}

/// Whether a text ends with another.
pub fn has_end(text: &str, end: &str) -> (has: bool)
    ensures
        has == ends_with(text@, end@),
{
    let chars = chars_of(text);
    let part = chars_of(end);
    part.len() <= chars.len() && has_at(&chars, &part, chars.len() - part.len())
}

/// Whether a text holds another.
pub fn has_text(text: &str, part: &str) -> (has: bool)
    ensures
        has == contains_text(text@, part@),
{
    let chars = chars_of(text);
    let wanted = chars_of(part);
    if wanted.len() > chars.len() {
        return false;
    }
    let last: usize = chars.len() - wanted.len();
    let mut at: usize = 0;
    while at < last
        invariant
            at <= last,
            last == chars@.len() - wanted@.len(),
            chars@ == text@,
            wanted@ == part@,
            forall|i: int| 0 <= i < at ==> !occurs_at(chars@, wanted@, i),
        decreases last - at,
    {
        if has_at(&chars, &wanted, at) {
            assert(occurs_at(text@, part@, at as int));
            return true;
        }
        at += 1;
    }
    let has = has_at(&chars, &wanted, last);
    assert(has == occurs_at(text@, part@, last as int));
    has
}

/// A text cut at its last `c`.
pub fn cut_last(text: &str, c: char) -> (cut: Option<(String, String)>)
    ensures
        cut is Some <==> cut_at_last(text@, c) is Some,
        cut matches Some((head, tail)) ==> cut_at_last(text@, c) == Some((head@, tail@)),
{
    let chars = chars_of(text);
    let mut i: usize = chars.len();
    while i > 0
        invariant
            i <= chars@.len(),
            chars@ == text@,
            forall|j: int| i <= j < chars@.len() ==> chars@[j] != c,
        decreases i,
    {
        if chars[i - 1] == c {
            proof {
                lemma_last_position(text@, c);
                assert(last_position(text@, c) == i - 1);
                assert(text@.subrange(0, i - 1) =~= text@.take(i - 1));
                assert(text@.subrange(i as int, text@.len() as int) =~= text@.skip(i as int));
            }
            let head = String::from_str(text.substring_char(0, i - 1));
            let tail = String::from_str(text.substring_char(i, chars.len()));
            return Some((head, tail));
        }
        i -= 1;
    }
    proof {
        lemma_last_position(text@, c);
    }
    None
}

/// Bytes come before others exactly where, after a common beginning, they end or
/// go on with a smaller byte.
pub proof fn bytes_are_ordered_by_their_first_difference(a: Seq<u8>, b: Seq<u8>)
    ensures
        bytes_before(a, b) <==> exists|at: int| #[trigger] differ_first_at(a, b, at),
    decreases a.len(),
{
    if a.len() == 0 || b.len() == 0 {
        if b.len() > 0 {
            assert(differ_first_at(a, b, 0));
        }
    } else {
        let x = a.skip(1);
        let y = b.skip(1);
        bytes_are_ordered_by_their_first_difference(x, y);
        if a[0] < b[0] {
            assert(differ_first_at(a, b, 0));
        } else if a[0] == b[0] && bytes_before(x, y) {
            let at = choose|at: int| #[trigger] differ_first_at(x, y, at);
            assert forall|i: int| 0 <= i < at + 1 implies a[i] == b[i] by {
                if i > 0 {
                    assert(x[i - 1] == y[i - 1]);
                }
            }
            assert(differ_first_at(a, b, at + 1));
        }
        if exists|at: int| #[trigger] differ_first_at(a, b, at) {
            let at = choose|at: int| #[trigger] differ_first_at(a, b, at);
            if at > 0 {
                assert(a[0] == b[0]);
                assert forall|i: int| 0 <= i < at - 1 implies x[i] == y[i] by {
                    assert(a[i + 1] == b[i + 1]);
                }
                assert(differ_first_at(x, y, at - 1));
            }
        }
    }
}

/// Whether two sequences of bytes agree up to `at`, and the first ends there or
/// goes on with a smaller byte.
pub open spec fn differ_first_at(a: Seq<u8>, b: Seq<u8>, at: int) -> bool {
    &&& 0 <= at <= a.len()
    &&& at < b.len()
    &&& forall|i: int| 0 <= i < at ==> a[i] == b[i]
    &&& at == a.len() || a[at] < b[at]
}

/// Ten to a power.
pub open spec fn ten_to(power: nat) -> nat
    decreases power,
{
    if power == 0 {
        1
    } else {
        10 * ten_to((power - 1) as nat)
    }
}

/// Digits stand for their value at their place: those in front count ten times
/// as much for each one behind them.
pub proof fn digits_count_by_their_place(a: Seq<char>, b: Seq<char>)
    ensures
        digits_value(a + b) == digits_value(a) * ten_to(b.len()) + digits_value(b),
    decreases b.len(),
{
    let x = digits_value(a);
    if b.len() == 0 {
        assert(a + b =~= a);
        assert(ten_to(b.len()) == 1);
        assert(x * 1 == x);
    } else {
        let front = b.drop_last();
        digits_count_by_their_place(a, front);
        assert((a + b).drop_last() =~= a + front);
        assert((a + b).last() == b.last());
        assert(ten_to(b.len()) == 10 * ten_to(front.len()));
        let y = ten_to(front.len());
        let z = digits_value(front);
        assert((x * y + z) * 10 == x * (10 * y) + z * 10) by (nonlinear_arith);
    }
}

/// A text is a number exactly where, behind at most one `+`, it is made of
/// digits that stand for no more than fits; zeros in front change nothing.
pub proof fn a_number_is_made_of_digits(text: Seq<char>)
    ensures
        number(text) matches Some(n) ==> all_digits(text) || text[0] == '+' && all_digits(
            text.skip(1),
        ),
        text.len() > 0 && all_digits(text) && digits_value(text) <= u64::MAX ==> number(text)
            == Some(digits_value(text) as u64) && number(seq!['0'] + text) == number(text)
            && number(seq!['+'] + text) == number(text),
        text.len() > 0 && all_digits(text) && digits_value(text) > u64::MAX ==> number(text)
            is None,
{
    if text.len() > 0 && all_digits(text) {
        assert(is_digit(text[0]));
        digits_count_by_their_place(seq!['0'], text);
        reveal_with_fuel(digits_value, 2);
        assert(seq!['0'].drop_last() =~= Seq::<char>::empty());
        assert(digits_value(seq!['0']) == 0);
        let zero = seq!['0'] + text;
        assert forall|i: int| 0 <= i < zero.len() implies is_digit(#[trigger] zero[i]) by {
            if i > 0 {
                assert(zero[i] == text[i - 1]);
            }
        }
        assert(digits_value(zero) == digits_value(text));
        let plus = seq!['+'] + text;
        assert(plus.skip(1) =~= text);
    }
}

} // verus!

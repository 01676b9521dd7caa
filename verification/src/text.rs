//! Decimal text: writing numbers into messages and reading them back.

use vstd::prelude::*;
use vstd::string::StringExecFns;

verus! {

/// The character of a decimal digit.
pub open spec fn digit_char(digit: nat) -> char {
    (48 + digit) as char
}

/// The shortest decimal spelling of a number.
pub open spec fn decimal(number: nat) -> Seq<char>
    decreases number,
{
    if number < 10 {
        seq![digit_char(number)]
    } else {
        decimal(number / 10).push(digit_char(number % 10))
    }
}

/// Whether a character is a decimal digit.
pub open spec fn is_digit(c: char) -> bool {
    48 <= c as u32 <= 57
}

/// The number that a sequence of digits spells.
pub open spec fn digits_value(digits: Seq<char>) -> nat
    decreases digits.len(),
{
    if digits.len() == 0 {
        0
    } else {
        10 * digits_value(digits.drop_last()) + ((digits.last() as u32 - 48) as nat)
    }
}

/// A number's spelling is digits only, not empty, and spells the number.
pub proof fn lemma_decimal_value(number: nat)
    ensures
        decimal(number).len() > 0,
        digits_value(decimal(number)) == number,
        forall|i: int| 0 <= i < decimal(number).len() ==> is_digit(#[trigger] decimal(number)[i]),
    decreases number,
{
    let text = decimal(number);
    if number < 10 {
        assert(text.drop_last() =~= Seq::<char>::empty());
        assert(digits_value(text.drop_last()) == 0);
    } else {
        lemma_decimal_value(number / 10);
        assert(text.drop_last() =~= decimal(number / 10));
    }
}

fn digit_text(digit: u8) -> (text: &'static str)
    requires
        digit < 10,
    ensures
        text@ == seq![digit_char(digit as nat)],
{
    proof {
        reveal_strlit("0");
        reveal_strlit("1");
        reveal_strlit("2");
        reveal_strlit("3");
        reveal_strlit("4");
        reveal_strlit("5");
        reveal_strlit("6");
        reveal_strlit("7");
        reveal_strlit("8");
        reveal_strlit("9");
    }
    if digit == 0 {
        "0"
    } else if digit == 1 {
        "1"
    } else if digit == 2 {
        "2"
    } else if digit == 3 {
        "3"
    } else if digit == 4 {
        "4"
    } else if digit == 5 {
        "5"
    } else if digit == 6 {
        "6"
    } else if digit == 7 {
        "7"
    } else if digit == 8 {
        "8"
    } else {
        "9"
    }
}

/// Appends the decimal spelling of `number`.
pub fn push_decimal(out: &mut String, number: u64)
    ensures
        final(out)@ == old(out)@ + decimal(number as nat),
    decreases number,
{
    if number >= 10 {
        push_decimal(out, number / 10);
    }
    let ghost before = out@;
    let last: &str = digit_text((number % 10) as u8);
    out.append(last);
    proof {
        if number >= 10 {
            assert(out@ =~= old(out)@ + decimal(number as nat));
        } else {
            assert(out@ =~= old(out)@ + decimal(number as nat));
        }
    }
}

/// `before`, the decimal spelling of `number`, `after`.
pub fn with_number(before: &str, number: u64, after: &str) -> (text: String)
    ensures
        text@ == before@ + decimal(number as nat) + after@,
{
    let mut text: String = before.to_owned();
    push_decimal(&mut text, number);
    text.append(after);
    text
}

/// `before`, a name, `after`.
pub fn with_name(before: &str, name: &str, after: &str) -> (text: String)
    ensures
        text@ == before@ + name@ + after@,
{
    let mut text: String = before.to_owned();
    text.append(name);
    text.append(after);
    text
}

/// A text, the decimal spelling of `number`, `after`.
pub fn and_number(text: String, number: u64, after: &str) -> (longer: String)
    ensures
        longer@ == text@ + decimal(number as nat) + after@,
{
    with_number(text.as_str(), number, after)
}

/// A text, a name, `after`.
pub fn and_name(text: String, name: &str, after: &str) -> (longer: String)
    ensures
        longer@ == text@ + name@ + after@,
{
    with_name(text.as_str(), name, after)
}

/// The decimal spelling of a number with its sign: a minus sign where it is
/// negative.
pub open spec fn signed_decimal(number: int) -> Seq<char> {
    if number < 0 {
        seq!['-'] + decimal((-number) as nat)
    } else {
        decimal(number as nat)
    }
}

/// The decimal spelling of a number with its sign.
pub fn signed_text(number: i64) -> (text: String)
    ensures
        text@ == signed_decimal(number as int),
{
    let sign: &str = if number < 0 {
        "-"
    } else {
        ""
    };
    let size: u64 = if number < 0 {
        (-(number as i128)) as u64
    } else {
        number as u64
    };
    let text: String = with_number(sign, size, "");
    proof {
        reveal_strlit("-");
        reveal_strlit("");
        assert(text@ =~= signed_decimal(number as int));
    }
    text
}

/// The lower-case hexadecimal digit of a number below sixteen.
pub open spec fn hex_digit(digit: nat) -> char {
    if digit < 10 {
        (48 + digit) as char
    } else {
        (87 + digit) as char
    }
}

/// The last `n` hexadecimal digits of a number.
pub open spec fn hex_digits(number: nat, n: nat) -> Seq<char>
    decreases n,
{
    if n == 0 {
        Seq::empty()
    } else {
        hex_digits(number / 16, (n - 1) as nat).push(hex_digit(number % 16))
    }
}

fn hex_text(digit: u32) -> (text: &'static str)
    requires
        digit < 16,
    ensures
        text@ == seq![hex_digit(digit as nat)],
{
    if digit < 10 {
        return digit_text(digit as u8);
    }
    proof {
        reveal_strlit("a");
        reveal_strlit("b");
        reveal_strlit("c");
        reveal_strlit("d");
        reveal_strlit("e");
        reveal_strlit("f");
    }
    if digit == 10 {
        "a"
    } else if digit == 11 {
        "b"
    } else if digit == 12 {
        "c"
    } else if digit == 13 {
        "d"
    } else if digit == 14 {
        "e"
    } else {
        "f"
    }
}

fn push_hex(out: &mut String, number: u32, n: u8)
    ensures
        final(out)@ == old(out)@ + hex_digits(number as nat, n as nat),
    decreases n,
{
    if n > 0 {
        push_hex(out, number / 16, n - 1);
        out.append(hex_text(number % 16));
    }
    assert(out@ =~= old(out)@ + hex_digits(number as nat, n as nat));
}

/// A checksum in messages: eight hexadecimal digits behind `0x`.
pub fn checksum_text(checksum: u32) -> (text: String)
    ensures
        text@ == "0x"@ + hex_digits(checksum as nat, 8),
{
    let mut text: String = "0x".to_owned();
    push_hex(&mut text, checksum, 8);
    text
}

/// `String::from_utf8` of the standard library: the text that `bytes` spells
/// in UTF-8, or what the library says of bytes that are not UTF-8. Claimed:
/// there is a text exactly where the bytes are valid UTF-8, and it is the
/// text that they decode to; nothing is claimed of what is said.
#[verifier::external_body]
pub(crate) fn text_from_utf8(bytes: &[u8]) -> (text: Result<String, String>)
    ensures
        text is Ok <==> vstd::utf8::valid_utf8(bytes@),
        text matches Ok(found) ==> found@ == vstd::utf8::decode_utf8(bytes@),
{
    String::from_utf8(bytes.to_vec()).map_err(|error| error.to_string())
}

/// The `Debug` spelling of `str`: the text in quotes, with escapes. Nothing
/// is claimed of it.
#[verifier::external_body]
pub(crate) fn quoted(text: &str) -> (spelled: String) {
    format!("{text:?}")
}

/// A character with an ASCII capital made small.
pub open spec fn lower(c: char) -> char {
    if 'A' <= c && c <= 'Z' {
        (c as u32 + 32) as char
    } else {
        c
    }
}

/// A text with its ASCII capitals made small: names that fold alike are the
/// same name.
pub open spec fn folded(text: Seq<char>) -> Seq<char> {
    text.map_values(|c: char| lower(c))
}

/// `str::to_ascii_lowercase`: a copy of the text in which `A` to `Z` are
/// replaced by `a` to `z`. Claimed: exactly that, character by character.
#[verifier::external_body]
pub(crate) fn fold(text: &str) -> (small: String)
    ensures
        small@ == folded(text@),
{
    text.to_ascii_lowercase()
}

/// Whether two names are the same.
pub fn same_name(a: &str, b: &str) -> (same: bool)
    ensures
        same == (folded(a@) == folded(b@)),
{
    fold(a) == fold(b)
}

/// Whether two texts are equal.
pub fn same_text(a: &String, b: &String) -> (same: bool)
    ensures
        same == (a@ == b@),
{
    *a == *b
}

/// Whether `pattern` stands in `text` at a place.
pub open spec fn occurs_at(text: Seq<char>, pattern: Seq<char>, at: int) -> bool {
    &&& 0 <= at
    &&& at + pattern.len() <= text.len()
    &&& text.subrange(at, at + pattern.len()) == pattern
}

/// The last place before `end` where `pattern` stands in `text`.
pub open spec fn last_place(text: Seq<char>, pattern: Seq<char>, end: nat) -> Option<nat>
    decreases end,
{
    if end == 0 {
        None
    } else if occurs_at(text, pattern, end - 1) {
        Some((end - 1) as nat)
    } else {
        last_place(text, pattern, (end - 1) as nat)
    }
}

/// The pattern stands at the place that is found, and at none behind it before the end.
pub proof fn law_last_place_is_the_last(text: Seq<char>, pattern: Seq<char>, end: nat)
    ensures
        match last_place(text, pattern, end) {
            Some(at) => {
                &&& at < end
                &&& at + pattern.len() <= text.len()
                &&& text.subrange(at as int, (at + pattern.len()) as int) == pattern
                &&& forall|i: int| at < i < end ==> !#[trigger] occurs_at(text, pattern, i)
            },
            None => forall|i: int| 0 <= i < end ==> !#[trigger] occurs_at(text, pattern, i),
        },
    decreases end,
{
    if end > 0 && !occurs_at(text, pattern, end - 1) {
        law_last_place_is_the_last(text, pattern, (end - 1) as nat);
    }
}

/// What stands before and behind the last `pattern` in `text`.
pub open spec fn split_last(text: Seq<char>, pattern: Seq<char>) -> Option<(Seq<char>, Seq<char>)> {
    match last_place(text, pattern, text.len()) {
        Some(at) => Some(
            (
                text.subrange(0, at as int),
                text.subrange((at + pattern.len()) as int, text.len() as int),
            ),
        ),
        None => None,
    }
}

/// The last place is an occurrence, and none follows it.
pub proof fn lemma_last_place(text: Seq<char>, pattern: Seq<char>, end: nat)
    ensures
        match last_place(text, pattern, end) {
            Some(at) => at < end && occurs_at(text, pattern, at as int) && forall|later: int|
                at < later < end ==> !#[trigger] occurs_at(text, pattern, later),
            None => forall|later: int| 0 <= later < end ==> !#[trigger] occurs_at(
                text,
                pattern,
                later,
            ),
        },
    decreases end,
{
    if end > 0 && !occurs_at(text, pattern, end - 1) {
        lemma_last_place(text, pattern, (end - 1) as nat);
    }
}

/// A text made of a head, a pattern that begins with its only blank, and a
/// tail without that pattern is split into the head and the tail.
pub proof fn lemma_split_last(head: Seq<char>, pattern: Seq<char>, tail: Seq<char>)
    requires
        pattern.len() > 0,
        pattern[0] == ' ',
        forall|i: int| 0 < i < pattern.len() ==> #[trigger] pattern[i] != ' ',
        forall|i: int| 0 <= i < tail.len() ==> !#[trigger] occurs_at(tail, pattern, i),
    ensures
        split_last(head + pattern + tail, pattern) == Some((head, tail)),
{
    let text = head + pattern + tail;
    let at = head.len() as int;
    assert(text.subrange(at, at + pattern.len()) =~= pattern);
    assert forall|later: int| at < later < text.len() implies !#[trigger] occurs_at(
        text,
        pattern,
        later,
    ) by {
        if occurs_at(text, pattern, later) {
            assert(text.subrange(later, later + pattern.len())[0] == ' ');
            assert(text[later] == ' ');
            if later < at + pattern.len() {
                assert(text[later] == pattern[later - at]);
            } else {
                let inside = later - at - pattern.len();
                assert(tail.subrange(inside, inside + pattern.len()) =~= text.subrange(
                    later,
                    later + pattern.len(),
                ));
                assert(occurs_at(tail, pattern, inside));
            }
        }
    }
    lemma_last_place(text, pattern, text.len());
    assert(occurs_at(text, pattern, at));
    assert(last_place(text, pattern, text.len()) == Some(head.len()));
    assert(text.subrange(0, at) =~= head);
    assert(text.subrange(at + pattern.len(), text.len() as int) =~= tail);
}

fn stands_at(text: &str, pattern: &str, at: usize) -> (yes: bool)
    requires
        at < text@.len(),
    ensures
        yes == occurs_at(text@, pattern@, at as int),
{
    let len: usize = text.unicode_len();
    let width: usize = pattern.unicode_len();
    if width > len - at {
        return false;
    }
    let mut i: usize = 0;
    while i < width
        invariant
            i <= width == pattern@.len(),
            at + width <= text@.len() <= usize::MAX,
            forall|j: int| 0 <= j < i ==> #[trigger] pattern@[j] == text@[at + j],
        decreases width - i,
    {
        if text.get_char(at + i) != pattern.get_char(i) {
            assert(text@.subrange(at as int, at + width)[i as int] != pattern@[i as int]);
            return false;
        }
        i += 1;
    }
    assert(text@.subrange(at as int, at + width) =~= pattern@);
    true
}

/// What stands before and behind the last `pattern` in `text`.
pub fn rsplit<'a>(text: &'a str, pattern: &str) -> (parts: Option<(&'a str, &'a str)>)
    ensures
        match parts {
            Some((head, tail)) => split_last(text@, pattern@) == Some((head@, tail@)),
            None => split_last(text@, pattern@) is None,
        },
{
    let len: usize = text.unicode_len();
    let width: usize = pattern.unicode_len();
    let mut end: usize = len;
    while end > 0
        invariant
            end <= len == text@.len(),
            width == pattern@.len(),
            last_place(text@, pattern@, text@.len()) == last_place(text@, pattern@, end as nat),
        decreases end,
    {
        let at: usize = end - 1;
        if stands_at(text, pattern, at) {
            return Some((text.substring_char(0, at), text.substring_char(at + width, len)));
        }
        end = at;
    }
    None
}

/// What follows a prefix.
pub open spec fn behind(text: Seq<char>, prefix: Seq<char>) -> Option<Seq<char>> {
    if occurs_at(text, prefix, 0) {
        Some(text.subrange(prefix.len() as int, text.len() as int))
    } else {
        None
    }
}

/// What follows a prefix.
pub fn strip<'a>(text: &'a str, prefix: &str) -> (rest: Option<&'a str>)
    requires
        prefix@.len() > 0,
    ensures
        match rest {
            Some(found) => behind(text@, prefix@) == Some(found@),
            None => behind(text@, prefix@) is None,
        },
{
    let len: usize = text.unicode_len();
    let width: usize = prefix.unicode_len();
    if len > 0 && stands_at(text, prefix, 0) {
        Some(text.substring_char(width, len))
    } else {
        None
    }
}

/// A text without the plus sign before it.
pub open spec fn unsigned(text: Seq<char>) -> Seq<char> {
    if text.len() > 1 && text[0] == '+' {
        text.subrange(1, text.len() as int)
    } else {
        text
    }
}

/// Whether a text is one digit or more.
pub open spec fn all_digits(text: Seq<char>) -> bool {
    text.len() > 0 && forall|i: int| 0 <= i < text.len() ==> is_digit(#[trigger] text[i])
}

/// The number that a text spells in decimal, with or without a plus sign,
/// where it is at most `most`.
pub open spec fn numeral(text: Seq<char>, most: nat) -> Option<nat> {
    let digits = unsigned(text);
    if all_digits(digits) && digits_value(digits) <= most {
        Some(digits_value(digits))
    } else {
        None
    }
}

/// A number's spelling is read back.
pub proof fn lemma_numeral(number: nat, most: nat)
    requires
        number <= most,
    ensures
        numeral(decimal(number), most) == Some(number),
{
    lemma_decimal_value(number);
    assert(is_digit(decimal(number)[0]));
}

fn digit_of(c: char) -> (digit: Option<u64>)
    ensures
        match digit {
            Some(digit) => is_digit(c) && digit == c as u32 - 48,
            None => !is_digit(c),
        },
{
    let code: u32 = c as u32;
    if 48 <= code && code <= 57 {
        Some((code - 48) as u64)
    } else {
        None
    }
}

/// The number that a text spells in decimal, where it is at most `most`.
pub fn parse_number(text: &str, most: u64) -> (number: Option<u64>)
    ensures
        match number {
            Some(found) => numeral(text@, most as nat) == Some(found as nat),
            None => numeral(text@, most as nat) is None,
        },
{
    let len: usize = text.unicode_len();
    let first: usize = if len > 1 && text.get_char(0) == '+' {
        1
    } else {
        0
    };
    let ghost digits = unsigned(text@);
    assert(digits =~= text@.subrange(first as int, len as int));
    if first == len {
        return None;
    }
    let mut value: u64 = 0;
    let mut i: usize = first;
    let mut fits: bool = true;
    assert(digits.subrange(0, 0) =~= Seq::<char>::empty());
    while i < len
        invariant
            first <= i <= len == text@.len(),
            digits == text@.subrange(first as int, len as int),
            digits == unsigned(text@),
            forall|j: int| 0 <= j < i - first ==> is_digit(#[trigger] digits[j]),
            fits ==> value == digits_value(digits.subrange(0, i - first)) && value <= most,
            !fits ==> digits_value(digits.subrange(0, i - first)) > most,
        decreases len - i,
    {
        let c: char = text.get_char(i);
        assert(digits[i - first] == c);
        match digit_of(c) {
            Some(digit) => {
                proof {
                    let longer = digits.subrange(0, i - first + 1);
                    assert(longer.drop_last() =~= digits.subrange(0, i - first));
                    assert(longer.last() == c);
                }
                if fits {
                    match value.checked_mul(10) {
                        Some(shifted) => match shifted.checked_add(digit) {
                            Some(next) => {
                                value = next;
                                fits = next <= most;
                            },
                            None => {
                                fits = false;
                            },
                        },
                        None => {
                            fits = false;
                        },
                    }
                }
            },
            None => {
                return None;
            },
        }
        i += 1;
    }
    assert(digits.subrange(0, len - first) =~= digits);
    if fits {
        Some(value)
    } else {
        None
    }
}

} // verus!

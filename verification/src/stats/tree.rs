//! JSON values as trees.
//!
//! A list or record may end in a comma, and a number is any run of the
//! characters that numbers are made of: what stands in the parts that nobody
//! looks at need not be more than skipped.

use vstd::prelude::*;

use crate::text::{text_from_utf8, with_name, with_number};

verus! {

/// A JSON value.
#[derive(Debug)]
pub enum Json {
    Text(String),
    Number(Vec<u8>),
    Word,
    List(Vec<Json>),
    Record(Vec<Member>),
}

/// A member of a record: its key, whether blanks stand before its value, and
/// the value.
#[derive(Debug)]
pub struct Member {
    pub key: String,
    pub spaced: bool,
    pub value: Json,
}

/// What a JSON value is.
pub enum JsonView {
    Text(Seq<char>),
    Number(Seq<u8>),
    Word,
    List(Seq<JsonView>),
    Record(Seq<MemberView>),
}

/// What a member is.
pub struct MemberView {
    pub key: Seq<char>,
    pub spaced: bool,
    pub value: JsonView,
}

impl Json {
    /// What this value is.
    pub open spec fn shown(self) -> JsonView
        decreases self,
    {
        match self {
            Json::Text(text) => JsonView::Text(text@),
            Json::Number(digits) => JsonView::Number(digits@),
            Json::Word => JsonView::Word,
            Json::List(items) => JsonView::List(list_shown(items@)),
            Json::Record(members) => JsonView::Record(record_shown(members@)),
        }
    }
}

impl Member {
    /// What this member is.
    pub open spec fn shown(self) -> MemberView
        decreases self,
    {
        MemberView { key: self.key@, spaced: self.spaced, value: self.value.shown() }
    }
}

/// What values are.
pub open spec fn list_shown(items: Seq<Json>) -> Seq<JsonView>
    decreases items,
{
    if items.len() == 0 {
        Seq::empty()
    } else {
        list_shown(items.drop_last()).push(items.last().shown())
    }
}

/// What members are.
pub open spec fn record_shown(members: Seq<Member>) -> Seq<MemberView>
    decreases members,
{
    if members.len() == 0 {
        Seq::empty()
    } else {
        record_shown(members.drop_last()).push(members.last().shown())
    }
}

/// What a value of a list is.
pub proof fn lemma_list_shown(items: Seq<Json>, i: int)
    ensures
        list_shown(items).len() == items.len(),
        0 <= i < items.len() ==> list_shown(items)[i] == items[i].shown(),
    decreases items.len(),
{
    if items.len() > 0 {
        lemma_list_shown(items.drop_last(), i);
    }
}

/// What a member of a record is.
pub proof fn lemma_record_shown(members: Seq<Member>, i: int)
    ensures
        record_shown(members).len() == members.len(),
        0 <= i < members.len() ==> record_shown(members)[i] == members[i].shown(),
    decreases members.len(),
{
    if members.len() > 0 {
        lemma_record_shown(members.drop_last(), i);
    }
}

/// Whether a byte is a blank.
pub open spec fn is_blank(byte: u8) -> bool {
    byte == 0x20 || byte == 0x09 || byte == 0x0a || byte == 0x0c || byte == 0x0d
}

/// The first place from one on that is not a blank.
pub open spec fn past_blanks(data: Seq<u8>, at: nat) -> nat
    decreases data.len() - at,
{
    if at < data.len() && is_blank(data[at as int]) {
        past_blanks(data, at + 1)
    } else {
        at
    }
}

/// Blanks end at or behind where they begin.
proof fn lemma_past_blanks(data: Seq<u8>, at: nat)
    ensures
        at <= past_blanks(data, at),
        at <= data.len() ==> past_blanks(data, at) <= data.len(),
    decreases data.len() - at,
{
    if at < data.len() && is_blank(data[at as int]) {
        lemma_past_blanks(data, at + 1);
    }
}

pub(crate) fn skip_blanks(data: &[u8], at: usize) -> (end: usize)
    requires
        at <= data@.len(),
    ensures
        end == past_blanks(data@, at as nat),
        at <= end <= data@.len(),
{
    let mut end: usize = at;
    while end < data.len() && (data[end] == 0x20 || data[end] == 0x09 || data[end] == 0x0a
        || data[end] == 0x0c || data[end] == 0x0d)
        invariant
            at <= end <= data@.len(),
            past_blanks(data@, at as nat) == past_blanks(data@, end as nat),
        decreases data@.len() - end,
    {
        end += 1;
    }
    end
}

/// Whether a byte stands at a place.
pub open spec fn is_at(data: Seq<u8>, at: nat, byte: u8) -> bool {
    at < data.len() && data[at as int] == byte
}

/// The number that a hexadecimal digit is.
pub open spec fn hex_digit(byte: u8) -> Option<nat> {
    if 0x30 <= byte <= 0x39 {
        Some((byte - 0x30) as nat)
    } else if 0x61 <= byte <= 0x66 {
        Some((byte - 0x61 + 10) as nat)
    } else if 0x41 <= byte <= 0x46 {
        Some((byte - 0x41 + 10) as nat)
    } else {
        None
    }
}

/// The number that four hexadecimal digits are.
pub open spec fn hex_quad(data: Seq<u8>, at: nat) -> Option<nat> {
    if at + 4 > data.len() {
        None
    } else {
        match (
            hex_digit(data[at as int]),
            hex_digit(data[at as int + 1]),
            hex_digit(data[at as int + 2]),
            hex_digit(data[at as int + 3]),
        ) {
            (Some(a), Some(b), Some(c), Some(d)) => Some(a * 4096 + b * 256 + c * 16 + d),
            _ => None,
        }
    }
}

fn read_digit(byte: u8) -> (digit: Option<u32>)
    ensures
        match (digit, hex_digit(byte)) {
            (Some(digit), Some(want)) => digit == want && digit < 16,
            (None, None) => true,
            _ => false,
        },
{
    if 0x30 <= byte && byte <= 0x39 {
        Some((byte - 0x30) as u32)
    } else if 0x61 <= byte && byte <= 0x66 {
        Some((byte - 0x61) as u32 + 10)
    } else if 0x41 <= byte && byte <= 0x46 {
        Some((byte - 0x41) as u32 + 10)
    } else {
        None
    }
}

fn read_quad(data: &[u8], at: usize) -> (quad: Option<u32>)
    requires
        at <= data@.len(),
    ensures
        match (quad, hex_quad(data@, at as nat)) {
            (Some(quad), Some(want)) => quad == want && quad < 0x1_0000,
            (None, None) => true,
            _ => false,
        },
{
    if data.len() - at < 4 {
        return None;
    }
    match (
        read_digit(data[at]),
        read_digit(data[at + 1]),
        read_digit(data[at + 2]),
        read_digit(data[at + 3]),
    ) {
        (Some(a), Some(b), Some(c), Some(d)) => Some(a * 4096 + b * 256 + c * 16 + d),
        _ => None,
    }
}

/// The bytes that a character is in UTF-8, by its number.
pub open spec fn scalar_bytes(scalar: nat) -> Seq<u8> {
    if scalar < 0x80 {
        seq![scalar as u8]
    } else if scalar < 0x800 {
        seq![(0xc0 + scalar / 0x40) as u8, (0x80 + scalar % 0x40) as u8]
    } else if scalar < 0x1_0000 {
        seq![
            (0xe0 + scalar / 0x1000) as u8,
            (0x80 + (scalar / 0x40) % 0x40) as u8,
            (0x80 + scalar % 0x40) as u8,
        ]
    } else {
        seq![
            (0xf0 + scalar / 0x4_0000) as u8,
            (0x80 + (scalar / 0x1000) % 0x40) as u8,
            (0x80 + (scalar / 0x40) % 0x40) as u8,
            (0x80 + scalar % 0x40) as u8,
        ]
    }
}

fn put_scalar(out: &mut Vec<u8>, scalar: u32)
    requires
        scalar < 0x11_0000,
    ensures
        final(out)@ == old(out)@ + scalar_bytes(scalar as nat),
{
    if scalar < 0x80 {
        out.push(scalar as u8);
    } else if scalar < 0x800 {
        out.push((0xc0 + scalar / 0x40) as u8);
        out.push((0x80 + scalar % 0x40) as u8);
    } else if scalar < 0x1_0000 {
        out.push((0xe0 + scalar / 0x1000) as u8);
        out.push((0x80 + (scalar / 0x40) % 0x40) as u8);
        out.push((0x80 + scalar % 0x40) as u8);
    } else {
        out.push((0xf0 + scalar / 0x4_0000) as u8);
        out.push((0x80 + (scalar / 0x1000) % 0x40) as u8);
        out.push((0x80 + (scalar / 0x40) % 0x40) as u8);
        out.push((0x80 + scalar % 0x40) as u8);
    }
    assert(out@ =~= old(out)@ + scalar_bytes(scalar as nat));
}

/// What stands for an escape, from behind its backslash, and where it ends.
pub open spec fn escape_at(data: Seq<u8>, at: nat) -> Option<(Seq<u8>, nat)> {
    if at >= data.len() {
        None
    } else {
        let byte = data[at as int];
        if byte == 0x22 || byte == 0x5c || byte == 0x2f {
            Some((seq![byte], at + 1))
        } else if byte == 0x62 {
            Some((seq![8u8], at + 1))
        } else if byte == 0x66 {
            Some((seq![12u8], at + 1))
        } else if byte == 0x6e {
            Some((seq![10u8], at + 1))
        } else if byte == 0x72 {
            Some((seq![13u8], at + 1))
        } else if byte == 0x74 {
            Some((seq![9u8], at + 1))
        } else if byte == 0x75 {
            match hex_quad(data, at + 1) {
                None => None,
                Some(first) => if 0xd800 <= first <= 0xdbff {
                    match hex_quad(data, at + 7) {
                        Some(second) => if is_at(data, at + 5, 0x5c) && is_at(data, at + 6, 0x75)
                            && 0xdc00 <= second <= 0xdfff {
                            Some(
                                (
                                    scalar_bytes(
                                        (0x1_0000 + (first - 0xd800) * 0x400 + (second
                                            - 0xdc00)) as nat,
                                    ),
                                    at + 11,
                                ),
                            )
                        } else {
                            None
                        },
                        None => None,
                    }
                } else if 0xdc00 <= first <= 0xdfff {
                    None
                } else {
                    Some((scalar_bytes(first), at + 5))
                },
            }
        } else {
            None
        }
    }
}

/// What is said where another byte stands than the one that must.
fn misses(data: &[u8], at: usize, expected: &str) -> String {
    let size: usize = data.len();
    let offset: usize = if at < size {
        at
    } else {
        size.saturating_sub(1)
    };
    let head: String = with_name("catalog JSON expected byte `", expected, "` at offset ");
    with_number(head.as_str(), offset as u64, "")
}

/// What is said where no second half follows the first of a pair.
fn unpaired(data: &[u8], at: usize) -> String
    requires
        at <= data@.len(),
{
    if at >= data.len() || data[at] != 0x5c {
        return misses(data, at, "\\");
    }
    if at + 1 >= data.len() || data[at + 1] != 0x75 {
        return misses(data, at + 1, "u");
    }
    "catalog JSON Unicode escape is incomplete".to_owned()
}

fn read_escape(data: &[u8], at: usize, out: &mut Vec<u8>) -> (end: Result<usize, String>)
    requires
        at <= data@.len(),
    ensures
        match (end, escape_at(data@, at as nat)) {
            (Ok(end), Some((added, want))) => end == want && at < end <= data@.len()
                && final(out)@ == old(out)@ + added,
            (Err(_), None) => true,
            _ => false,
        },
{
    if at >= data.len() {
        return Err("catalog JSON escape is incomplete".to_owned());
    }
    let ghost before = out@;
    let byte: u8 = data[at];
    let plain: u8 = if byte == 0x22 || byte == 0x5c || byte == 0x2f {
        byte
    } else if byte == 0x62 {
        8
    } else if byte == 0x66 {
        12
    } else if byte == 0x6e {
        10
    } else if byte == 0x72 {
        13
    } else if byte == 0x74 {
        9
    } else {
        0
    };
    if plain != 0 {
        out.push(plain);
        assert(out@ =~= before + seq![plain]);
        return Ok(at + 1);
    }
    if byte != 0x75 {
        return Err("catalog JSON escape is invalid".to_owned());
    }
    let first: u32 = match read_quad(data, at + 1) {
        Some(first) => first,
        None => {
            return Err("catalog JSON Unicode escape is incomplete".to_owned());
        },
    };
    if 0xd800 <= first && first <= 0xdbff {
        if data.len() - at < 11 || data[at + 5] != 0x5c || data[at + 6] != 0x75 {
            return Err(unpaired(data, at + 5));
        }
        let second: u32 = match read_quad(data, at + 7) {
            Some(second) => second,
            None => {
                return Err("catalog JSON Unicode escape is incomplete".to_owned());
            },
        };
        if second < 0xdc00 || second > 0xdfff {
            return Err("catalog JSON has an invalid surrogate pair".to_owned());
        }
        put_scalar(out, 0x1_0000 + (first - 0xd800) * 0x400 + (second - 0xdc00));
        Ok(at + 11)
    } else if 0xdc00 <= first && first <= 0xdfff {
        Err("catalog JSON has an unpaired low surrogate".to_owned())
    } else {
        put_scalar(out, first);
        Ok(at + 5)
    }
}

/// The bytes of a text from inside its quotes on, and where it ends.
pub open spec fn text_from(data: Seq<u8>, at: nat, done: Seq<u8>) -> Option<(Seq<u8>, nat)>
    decreases data.len() - at,
{
    if at >= data.len() {
        None
    } else {
        let byte = data[at as int];
        if byte == 0x22 {
            Some((done, at + 1))
        } else if byte == 0x5c {
            match escape_at(data, at + 1) {
                None => None,
                Some((added, end)) => if end <= at {
                    None
                } else {
                    text_from(data, end, done + added)
                },
            }
        } else if byte < 0x20 {
            None
        } else {
            text_from(data, at + 1, done.push(byte))
        }
    }
}

/// The text whose quotes open behind blanks, and where it ends.
pub open spec fn text_at(data: Seq<u8>, at: nat) -> Option<(Seq<char>, nat)> {
    let open = past_blanks(data, at);
    if !is_at(data, open, 0x22) {
        None
    } else {
        match text_from(data, open + 1, Seq::empty()) {
            None => None,
            Some((spelled, end)) => if vstd::utf8::valid_utf8(spelled) {
                Some((vstd::utf8::decode_utf8(spelled), end))
            } else {
                None
            },
        }
    }
}

fn read_text(data: &[u8], at: usize) -> (found: Result<(String, usize), String>)
    requires
        at <= data@.len(),
    ensures
        match (found, text_at(data@, at as nat)) {
            (Ok((text, end)), Some((want, place))) => text@ == want && end == place && at < end
                <= data@.len(),
            (Err(_), None) => true,
            _ => false,
        },
{
    let open: usize = skip_blanks(data, at);
    if open >= data.len() || data[open] != 0x22 {
        return Err(misses(data, open, "\""));
    }
    let ghost want = text_from(data@, (open + 1) as nat, Seq::empty());
    let mut spelled: Vec<u8> = Vec::new();
    let mut i: usize = open + 1;
    assert(spelled@ =~= Seq::empty());
    while i < data.len()
        invariant
            at <= open < i <= data@.len(),
            is_at(data@, open as nat, 0x22),
            open == past_blanks(data@, at as nat),
            want == text_from(data@, (open + 1) as nat, Seq::empty()),
            want == text_from(data@, i as nat, spelled@),
        decreases data@.len() - i,
    {
        let byte: u8 = data[i];
        if byte == 0x22 {
            return match text_from_utf8(spelled.as_slice()) {
                Ok(text) => Ok((text, i + 1)),
                Err(_) => Err("catalog JSON string is not UTF-8".to_owned()),
            };
        }
        if byte == 0x5c {
            match read_escape(data, i + 1, &mut spelled) {
                Ok(end) => {
                    i = end;
                },
                Err(fault) => {
                    return Err(fault);
                },
            }
        } else if byte < 0x20 {
            return Err("catalog JSON string contains a control byte".to_owned());
        } else {
            spelled.push(byte);
            i += 1;
        }
    }
    Err("catalog JSON string is unterminated".to_owned())
}

/// Whether a byte can stand in a number.
pub open spec fn in_number(byte: u8) -> bool {
    byte == 0x2d || byte == 0x2b || byte == 0x2e || byte == 0x65 || byte == 0x45 || (0x30 <= byte
        <= 0x39)
}

/// Where a number ends.
pub open spec fn number_end(data: Seq<u8>, at: nat) -> nat
    decreases data.len() - at,
{
    if at < data.len() && in_number(data[at as int]) {
        number_end(data, at + 1)
    } else {
        at
    }
}

/// Whether a word stands at a place.
pub open spec fn word_at(data: Seq<u8>, at: nat, word: Seq<u8>) -> bool {
    at + word.len() <= data.len() && data.subrange(at as int, (at + word.len()) as int) == word
}

/// The value that stands behind blanks, and where it ends. It may hold so
/// many levels of values.
pub open spec fn value_at(data: Seq<u8>, at: nat, levels: nat) -> Option<(JsonView, nat)>
    decreases levels, data.len() - at, 0int,
{
    let place = past_blanks(data, at);
    if levels == 0 || place >= data.len() {
        None
    } else {
        let byte = data[place as int];
        if byte == 0x7b {
            match members_at(data, place + 1, (levels - 1) as nat) {
                Some((members, end)) => Some((JsonView::Record(members), end)),
                None => None,
            }
        } else if byte == 0x5b {
            match items_at(data, place + 1, (levels - 1) as nat) {
                Some((items, end)) => Some((JsonView::List(items), end)),
                None => None,
            }
        } else if byte == 0x22 {
            match text_at(data, place) {
                Some((text, end)) => Some((JsonView::Text(text), end)),
                None => None,
            }
        } else if byte == 0x74 {
            if word_at(data, place, seq![0x74u8, 0x72, 0x75, 0x65]) {
                Some((JsonView::Word, place + 4))
            } else {
                None
            }
        } else if byte == 0x66 {
            if word_at(data, place, seq![0x66u8, 0x61, 0x6c, 0x73, 0x65]) {
                Some((JsonView::Word, place + 5))
            } else {
                None
            }
        } else if byte == 0x6e {
            if word_at(data, place, seq![0x6eu8, 0x75, 0x6c, 0x6c]) {
                Some((JsonView::Word, place + 4))
            } else {
                None
            }
        } else if byte == 0x2d || (0x30 <= byte <= 0x39) {
            let end = number_end(data, place);
            Some((JsonView::Number(data.subrange(place as int, end as int)), end))
        } else {
            None
        }
    }
}

/// The values of a list from inside its brackets on, and where it ends.
pub open spec fn items_at(data: Seq<u8>, at: nat, levels: nat) -> Option<(Seq<JsonView>, nat)>
    decreases levels, data.len() - at, 1int,
{
    let place = past_blanks(data, at);
    if is_at(data, place, 0x5d) {
        Some((Seq::empty(), place + 1))
    } else {
        match value_at(data, at, levels) {
            None => None,
            Some((value, end)) => {
                let next = past_blanks(data, end);
                if next < at || next >= data.len() {
                    None
                } else if data[next as int] == 0x2c {
                    match items_at(data, next + 1, levels) {
                        None => None,
                        Some((rest, last)) => Some((seq![value] + rest, last)),
                    }
                } else if data[next as int] == 0x5d {
                    Some((seq![value], next + 1))
                } else {
                    None
                }
            },
        }
    }
}

/// The members of a record from inside its braces on, and where it ends.
pub open spec fn members_at(data: Seq<u8>, at: nat, levels: nat) -> Option<
    (Seq<MemberView>, nat),
>
    decreases levels, data.len() - at, 1int,
{
    let place = past_blanks(data, at);
    if is_at(data, place, 0x7d) {
        Some((Seq::empty(), place + 1))
    } else {
        match text_at(data, at) {
            None => None,
            Some((key, key_end)) => {
                let colon = past_blanks(data, key_end);
                if colon < at || !is_at(data, colon, 0x3a) {
                    None
                } else {
                    match value_at(data, colon + 1, levels) {
                        None => None,
                        Some((value, end)) => {
                            let member = MemberView {
                                key,
                                spaced: past_blanks(data, colon + 1) != colon + 1,
                                value,
                            };
                            let next = past_blanks(data, end);
                            if next < at || next >= data.len() {
                                None
                            } else if data[next as int] == 0x2c {
                                match members_at(data, next + 1, levels) {
                                    None => None,
                                    Some((rest, last)) => Some((seq![member] + rest, last)),
                                }
                            } else if data[next as int] == 0x7d {
                                Some((seq![member], next + 1))
                            } else {
                                None
                            }
                        },
                    }
                }
            },
        }
    }
}

fn has_word(data: &[u8], at: usize, word: &[u8]) -> (yes: bool)
    requires
        at <= data@.len(),
    ensures
        yes == word_at(data@, at as nat, word@),
{
    if data.len() - at < word.len() {
        return false;
    }
    let mut i: usize = 0;
    while i < word.len()
        invariant
            i <= word@.len(),
            at + word@.len() <= data@.len(),
            forall|k: int| 0 <= k < i ==> data@[at + k] == #[trigger] word@[k],
        decreases word@.len() - i,
    {
        let total: usize = data.len();
        assert(at + i < total);
        if data[at + i] != word[i] {
            proof {
                let part = data@.subrange(at as int, at + word@.len());
                assert(part[i as int] == data@[at + i]);
            }
            return false;
        }
        i += 1;
    }
    assert(data@.subrange(at as int, at + word@.len()) =~= word@);
    true
}

fn read_number(data: &[u8], at: usize) -> (found: (Vec<u8>, usize))
    requires
        at <= data@.len(),
    ensures
        found.1 == number_end(data@, at as nat),
        at <= found.1 <= data@.len(),
        found.0@ == data@.subrange(at as int, found.1 as int),
{
    let mut digits: Vec<u8> = Vec::new();
    let mut i: usize = at;
    while i < data.len() && (data[i] == 0x2d || data[i] == 0x2b || data[i] == 0x2e || data[i]
        == 0x65 || data[i] == 0x45 || (0x30 <= data[i] && data[i] <= 0x39))
        invariant
            at <= i <= data@.len(),
            number_end(data@, at as nat) == number_end(data@, i as nat),
            digits@ == data@.subrange(at as int, i as int),
        decreases data@.len() - i,
    {
        digits.push(data[i]);
        assert(digits@ =~= data@.subrange(at as int, i + 1));
        i += 1;
    }
    (digits, i)
}

/// Reads the value that stands behind blanks.
pub fn read_value(data: &[u8], at: usize, levels: usize) -> (found: Result<(Json, usize), String>)
    requires
        at <= data@.len(),
    ensures
        match (found, value_at(data@, at as nat, levels as nat)) {
            (Ok((value, end)), Some((want, place))) => value.shown() == want && end == place && at
                < end <= data@.len(),
            (Err(_), None) => true,
            _ => false,
        },
    decreases levels, 1int,
{
    let place: usize = skip_blanks(data, at);
    if levels == 0 {
        return Err("catalog JSON nesting exceeds 256 levels".to_owned());
    }
    if place >= data.len() {
        return Err("catalog JSON contains an invalid value".to_owned());
    }
    let byte: u8 = data[place];
    proof {
        let open = past_blanks(data@, place as nat);
        assert(!is_blank(data@[place as int])) by {
            lemma_past_blanks_stop(data@, at as nat);
        }
        assert(open == place);
    }
    if byte == 0x7b {
        match read_members(data, place + 1, levels - 1) {
            Ok((members, end)) => Ok((Json::Record(members), end)),
            Err(fault) => Err(fault),
        }
    } else if byte == 0x5b {
        match read_items(data, place + 1, levels - 1) {
            Ok((items, end)) => Ok((Json::List(items), end)),
            Err(fault) => Err(fault),
        }
    } else if byte == 0x22 {
        match read_text(data, place) {
            Ok((text, end)) => Ok((Json::Text(text), end)),
            Err(fault) => Err(fault),
        }
    } else if byte == 0x74 {
        let word: [u8; 4] = [0x74u8, 0x72, 0x75, 0x65];
        assert(word@ =~= seq![0x74u8, 0x72, 0x75, 0x65]);
        if has_word(data, place, word.as_slice()) {
            Ok((Json::Word, place + 4))
        } else {
            Err("catalog JSON literal is invalid".to_owned())
        }
    } else if byte == 0x66 {
        let word: [u8; 5] = [0x66u8, 0x61, 0x6c, 0x73, 0x65];
        assert(word@ =~= seq![0x66u8, 0x61, 0x6c, 0x73, 0x65]);
        if has_word(data, place, word.as_slice()) {
            Ok((Json::Word, place + 5))
        } else {
            Err("catalog JSON literal is invalid".to_owned())
        }
    } else if byte == 0x6e {
        let word: [u8; 4] = [0x6eu8, 0x75, 0x6c, 0x6c];
        assert(word@ =~= seq![0x6eu8, 0x75, 0x6c, 0x6c]);
        if has_word(data, place, word.as_slice()) {
            Ok((Json::Word, place + 4))
        } else {
            Err("catalog JSON literal is invalid".to_owned())
        }
    } else if byte == 0x2d || (0x30 <= byte && byte <= 0x39) {
        let (digits, end): (Vec<u8>, usize) = read_number(data, place);
        proof {
            lemma_number_end(data@, (place + 1) as nat);
        }
        Ok((Json::Number(digits), end))
    } else {
        Err("catalog JSON contains an invalid value".to_owned())
    }
}

/// Behind blanks there is no blank.
proof fn lemma_past_blanks_stop(data: Seq<u8>, at: nat)
    ensures
        past_blanks(data, at) < data.len() ==> !is_blank(data[past_blanks(data, at) as int]),
    decreases data.len() - at,
{
    if at < data.len() && is_blank(data[at as int]) {
        lemma_past_blanks_stop(data, at + 1);
    }
}

/// A number ends at or behind where it begins.
proof fn lemma_number_end(data: Seq<u8>, at: nat)
    ensures
        at <= number_end(data, at),
    decreases data.len() - at,
{
    if at < data.len() && in_number(data[at as int]) {
        lemma_number_end(data, at + 1);
    }
}

fn read_items(data: &[u8], at: usize, levels: usize) -> (found: Result<(Vec<Json>, usize), String>)
    requires
        at <= data@.len(),
    ensures
        match (found, items_at(data@, at as nat, levels as nat)) {
            (Ok((items, end)), Some((want, place))) => list_shown(items@) == want && end == place
                && at < end <= data@.len(),
            (Err(_), None) => true,
            _ => false,
        },
    decreases levels, 2int,
{
    let ghost want = items_at(data@, at as nat, levels as nat);
    let mut items: Vec<Json> = Vec::new();
    let mut i: usize = at;
    proof {
        match want {
            Some((rest, end)) => {
                assert(list_shown(items@) + rest =~= rest);
            },
            None => {},
        }
    }
    loop
        invariant
            at <= i <= data@.len(),
            match items_at(data@, i as nat, levels as nat) {
                Some((rest, end)) => want == Some((list_shown(items@) + rest, end)),
                None => want is None,
            },
            want == items_at(data@, at as nat, levels as nat),
        decreases data@.len() - i,
    {
        let place: usize = skip_blanks(data, i);
        if place < data.len() && data[place] == 0x5d {
            assert(list_shown(items@) + Seq::<JsonView>::empty() =~= list_shown(items@));
            return Ok((items, place + 1));
        }
        let (value, end): (Json, usize) = match read_value(data, i, levels) {
            Ok(found) => found,
            Err(fault) => {
                return Err(fault);
            },
        };
        let next: usize = skip_blanks(data, end);
        if next >= data.len() {
            return Err(misses(data, next, "]"));
        }
        let ghost held = items@;
        let ghost before = list_shown(items@);
        let ghost added = value.shown();
        items.push(value);
        proof {
            assert(items@.drop_last() =~= held);
            lemma_list_push(items@);
            assert(list_shown(items@) == before.push(added));
            match items_at(data@, (next + 1) as nat, levels as nat) {
                Some((rest, last)) => {
                    assert(before + (seq![added] + rest) =~= list_shown(items@) + rest);
                },
                None => {},
            }
            assert(before + seq![added] =~= list_shown(items@));
        }
        if data[next] == 0x2c {
            i = next + 1;
        } else if data[next] == 0x5d {
            return Ok((items, next + 1));
        } else {
            return Err(misses(data, next, "]"));
        }
    }
}

proof fn lemma_list_push(items: Seq<Json>)
    requires
        items.len() > 0,
    ensures
        list_shown(items) == list_shown(items.drop_last()).push(items.last().shown()),
{
}

proof fn lemma_record_push(members: Seq<Member>)
    requires
        members.len() > 0,
    ensures
        record_shown(members) == record_shown(members.drop_last()).push(members.last().shown()),
{
}

fn read_members(data: &[u8], at: usize, levels: usize) -> (found: Result<(Vec<Member>, usize), String>)
    requires
        at <= data@.len(),
    ensures
        match (found, members_at(data@, at as nat, levels as nat)) {
            (Ok((members, end)), Some((want, place))) => record_shown(members@) == want && end
                == place && at < end <= data@.len(),
            (Err(_), None) => true,
            _ => false,
        },
    decreases levels, 2int,
{
    let ghost want = members_at(data@, at as nat, levels as nat);
    let mut members: Vec<Member> = Vec::new();
    let mut i: usize = at;
    proof {
        match want {
            Some((rest, end)) => {
                assert(record_shown(members@) + rest =~= rest);
            },
            None => {},
        }
    }
    loop
        invariant
            at <= i <= data@.len(),
            match members_at(data@, i as nat, levels as nat) {
                Some((rest, end)) => want == Some((record_shown(members@) + rest, end)),
                None => want is None,
            },
            want == members_at(data@, at as nat, levels as nat),
        decreases data@.len() - i,
    {
        let place: usize = skip_blanks(data, i);
        if place < data.len() && data[place] == 0x7d {
            assert(record_shown(members@) + Seq::<MemberView>::empty() =~= record_shown(members@));
            return Ok((members, place + 1));
        }
        let (key, key_end): (String, usize) = match read_text(data, i) {
            Ok(found) => found,
            Err(fault) => {
                return Err(fault);
            },
        };
        let colon: usize = skip_blanks(data, key_end);
        if colon >= data.len() || data[colon] != 0x3a {
            return Err(misses(data, colon, ":"));
        }
        let start: usize = skip_blanks(data, colon + 1);
        let (value, end): (Json, usize) = match read_value(data, colon + 1, levels) {
            Ok(found) => found,
            Err(fault) => {
                return Err(fault);
            },
        };
        let next: usize = skip_blanks(data, end);
        if next >= data.len() {
            return Err(misses(data, next, "}"));
        }
        let ghost held = members@;
        let ghost before = record_shown(members@);
        let member = Member { key, spaced: start != colon + 1, value };
        let ghost added = member.shown();
        members.push(member);
        proof {
            assert(members@.drop_last() =~= held);
            lemma_record_push(members@);
            assert(record_shown(members@) == before.push(added));
            match members_at(data@, (next + 1) as nat, levels as nat) {
                Some((rest, last)) => {
                    assert(before + (seq![added] + rest) =~= record_shown(members@) + rest);
                },
                None => {},
            }
            assert(before + seq![added] =~= record_shown(members@));
        }
        if data[next] == 0x2c {
            i = next + 1;
        } else if data[next] == 0x7d {
            return Ok((members, next + 1));
        } else {
            return Err(misses(data, next, "}"));
        }
    }
}

/// Whether a value holds at most so many levels of values.
pub open spec fn within(value: JsonView, levels: nat) -> bool
    decreases levels, 0int,
{
    levels > 0 && match value {
        JsonView::List(items) => items_within(items, (levels - 1) as nat),
        JsonView::Record(members) => members_within(members, (levels - 1) as nat),
        _ => true,
    }
}

/// Whether each value holds at most so many levels of values.
pub open spec fn items_within(items: Seq<JsonView>, levels: nat) -> bool
    decreases levels, 1int,
{
    forall|i: int| 0 <= i < items.len() ==> within(#[trigger] items[i], levels)
}

/// Whether each member's value holds at most so many levels of values.
pub open spec fn members_within(members: Seq<MemberView>, levels: nat) -> bool
    decreases levels, 1int,
{
    forall|i: int| 0 <= i < members.len() ==> within((#[trigger] members[i]).value, levels)
}

/// Whether a value holds at most so many levels of values.
pub fn is_within(value: &Json, levels: usize) -> (yes: bool)
    ensures
        yes == within(value.shown(), levels as nat),
    decreases levels,
{
    if levels == 0 {
        return false;
    }
    match value {
        Json::List(items) => {
            let ghost shown = list_shown(items@);
            proof {
                lemma_list_shown(items@, 0);
            }
            let mut i: usize = 0;
            while i < items.len()
                invariant
                    i <= items@.len() == shown.len(),
                    shown == list_shown(items@),
                    levels > 0,
                    value.shown() == JsonView::List(shown),
                    forall|k: int|
                        0 <= k < i ==> within(#[trigger] shown[k], (levels - 1) as nat),
                decreases items@.len() - i,
            {
                proof {
                    lemma_list_shown(items@, i as int);
                }
                if !is_within(&items[i], levels - 1) {
                    assert(!items_within(shown, (levels - 1) as nat));
                    return false;
                }
                i += 1;
            }
            true
        },
        Json::Record(members) => {
            let ghost shown = record_shown(members@);
            proof {
                lemma_record_shown(members@, 0);
            }
            let mut i: usize = 0;
            while i < members.len()
                invariant
                    i <= members@.len() == shown.len(),
                    shown == record_shown(members@),
                    levels > 0,
                    value.shown() == JsonView::Record(shown),
                    forall|k: int|
                        0 <= k < i ==> within(
                            (#[trigger] shown[k]).value,
                            (levels - 1) as nat,
                        ),
                decreases members@.len() - i,
            {
                proof {
                    lemma_record_shown(members@, i as int);
                }
                if !is_within(&members[i].value, levels - 1) {
                    assert(!members_within(shown, (levels - 1) as nat));
                    return false;
                }
                i += 1;
            }
            true
        },
        _ => true,
    }
}

} // verus!

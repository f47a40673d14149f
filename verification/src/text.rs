//! Text: comparison, Unicode normal forms, splitting at slashes, hexadecimal.

use unicode_casefold::UnicodeCaseFold;
use unicode_normalization::UnicodeNormalization;
use vstd::prelude::*;
use vstd::string::{StrSliceExecFns, StringExecFns};
use vstd::utf8::{encode_utf8, encode_utf8_decode_utf8, valid_utf8};

use crate::order::{before, before_after_prefix};

verus! {

/// The canonical composition of a text, as `UnicodeNormalization::nfc` yields it.
pub uninterp spec fn nfc_of(chars: Seq<char>) -> Seq<char>;

/// The full case folding of a text, as `UnicodeCaseFold::case_fold` yields it.
pub uninterp spec fn case_fold_of(chars: Seq<char>) -> Seq<char>;

/// The canonical composition (normal form C) of `text`.
///
/// Trusted: `unicode_normalization::UnicodeNormalization::nfc` hands out, in
/// order, the characters of a text that depends on the argument alone.
#[verifier::external_body]
fn nfc(text: &str) -> (result: String)
    ensures
        result@ == nfc_of(text@),
{
    text.nfc().collect()
}

/// The full, locale independent case folding of `text`.
///
/// Trusted: `unicode_casefold::UnicodeCaseFold::case_fold` hands out, in order,
/// the characters of a text that depends on the argument alone.
#[verifier::external_body]
fn case_fold(text: &str) -> (result: String)
    ensures
        result@ == case_fold_of(text@),
{
    text.case_fold().collect()
}

/// The text whose encoding is `bytes`, if they are valid UTF-8.
///
/// Trusted: `std::str::from_utf8` succeeds on valid UTF-8 alone and keeps the bytes.
#[verifier::external_body]
fn utf8_text(bytes: &[u8]) -> (result: Option<String>)
    ensures
        match result {
            Some(text) => encode_utf8(text@) == bytes@,
            None => !valid_utf8(bytes@),
        },
{
    std::str::from_utf8(bytes).ok().map(str::to_owned)
}

/// The text whose encoding is `bytes`, if there is one.
pub fn decode_text(bytes: &[u8]) -> (result: Option<String>)
    ensures
        match result {
            Some(text) => encode_utf8(text@) == bytes@,
            None => forall|chars: Seq<char>| #[trigger] encode_utf8(chars) != bytes@,
        },
{
    let result = utf8_text(bytes);
    proof {
        if result is None {
            assert forall|chars: Seq<char>| #[trigger] encode_utf8(chars) != bytes@ by {
                vstd::utf8::encode_utf8_valid_utf8(chars);
            }
        }
    }
    result
}

/// Two texts with the same encoding are the same.
pub proof fn encoding_is_injective(a: Seq<char>, b: Seq<char>)
    ensures
        encode_utf8(a) == encode_utf8(b) <==> a == b,
{
    encode_utf8_decode_utf8(a);
    encode_utf8_decode_utf8(b);
}

/// The form in which two names of one directory may not agree: case folded, then composed.
pub open spec fn folded_of(chars: Seq<char>) -> Seq<char> {
    nfc_of(case_fold_of(chars))
}

/// The case folded and composed form of `text`.
pub fn folded(text: &str) -> (result: String)
    ensures
        result@ == folded_of(text@),
{
    let lower = case_fold(text);
    nfc(lower.as_str())
}

/// The composed form of `text`.
pub fn composed(text: &str) -> (result: String)
    ensures
        result@ == nfc_of(text@),
{
    nfc(text)
}

/// The characters of `text`.
pub fn chars_of(text: &str) -> (result: Vec<char>)
    ensures
        result@ == text@,
{
    let mut result: Vec<char> = Vec::new();
    for c in it: text.chars()
        invariant
            result@ == it.seq().take(it.index() as int),
            it.seq() == text@,
    {
        result.push(c);
    }
    result
}

/// Whether two byte strings are equal.
pub fn same_bytes(left: &[u8], right: &[u8]) -> (result: bool)
    ensures
        result == (left@ == right@),
{
    if left.len() != right.len() {
        return false;
    }
    let mut index: usize = 0;
    while index < left.len()
        invariant
            left@.len() == right@.len(),
            index <= left@.len(),
            forall|k: int| 0 <= k < index ==> left@[k] == right@[k],
        decreases left@.len() - index,
    {
        if left[index] != right[index] {
            return false;
        }
        index += 1;
    }
    assert(left@ =~= right@);
    true
}

/// Whether two texts are equal.
pub fn same_text(left: &str, right: &str) -> (result: bool)
    ensures
        result == (left@ == right@),
{
    proof {
        encoding_is_injective(left@, right@);
    }
    same_bytes(left.as_bytes(), right.as_bytes())
}

/// The numbers of a byte string, as an ordering key.
pub open spec fn bytes_rank(bytes: Seq<u8>) -> Seq<int> {
    Seq::new(bytes.len(), |i: int| bytes[i] as int)
}

/// The ordering key of a text: the numbers of its encoding.
pub open spec fn text_rank(chars: Seq<char>) -> Seq<int> {
    bytes_rank(encode_utf8(chars))
}

/// Byte strings with the same ordering key are equal.
pub proof fn bytes_rank_is_injective(a: Seq<u8>, b: Seq<u8>)
    ensures
        bytes_rank(a) == bytes_rank(b) <==> a == b,
{
    if bytes_rank(a) == bytes_rank(b) {
        assert(a.len() == bytes_rank(a).len());
        assert(b.len() == bytes_rank(b).len());
        assert forall|i: int| 0 <= i < a.len() implies a[i] == b[i] by {
            assert(bytes_rank(a)[i] == a[i] as int);
            assert(bytes_rank(b)[i] == b[i] as int);
        }
        assert(a =~= b);
    }
}

/// Texts with the same ordering key are equal.
pub proof fn text_rank_is_injective(a: Seq<char>, b: Seq<char>)
    ensures
        text_rank(a) == text_rank(b) <==> a == b,
{
    bytes_rank_is_injective(encode_utf8(a), encode_utf8(b));
    encoding_is_injective(a, b);
}

/// Whether `left` comes before `right` byte by byte.
pub fn bytes_precede(left: &[u8], right: &[u8]) -> (result: bool)
    ensures
        result == before(bytes_rank(left@), bytes_rank(right@)),
{
    let ghost a = bytes_rank(left@);
    let ghost b = bytes_rank(right@);
    let mut index: usize = 0;
    while index < left.len() && index < right.len()
        invariant
            a == bytes_rank(left@),
            b == bytes_rank(right@),
            index <= left@.len(),
            index <= right@.len(),
            forall|k: int| 0 <= k < index ==> left@[k] == right@[k],
        decreases left@.len() - index,
    {
        if left[index] != right[index] {
            proof {
                before_after_prefix(a, b, index as nat);
                assert(a.skip(index as int)[0] == left@[index as int]);
                assert(b.skip(index as int)[0] == right@[index as int]);
            }
            return left[index] < right[index];
        }
        index += 1;
    }
    proof {
        before_after_prefix(a, b, index as nat);
    }
    left.len() < right.len()
}

/// Whether `left` comes before `right` in the byte order of their encodings.
pub fn text_precedes(left: &str, right: &str) -> (result: bool)
    ensures
        result == before(text_rank(left@), text_rank(right@)),
{
    bytes_precede(left.as_bytes(), right.as_bytes())
}

/// The digit for a value below sixteen.
pub open spec fn hex_digit(value: int) -> char {
    if value < 10 {
        (value + 48) as char
    } else {
        (value + 87) as char
    }
}

/// Two lowercase hexadecimal digits per byte.
pub open spec fn hex_of(bytes: Seq<u8>) -> Seq<char> {
    Seq::new(
        2 * bytes.len(),
        |i: int|
            if i % 2 == 0 {
                hex_digit(bytes[i / 2] as int / 16)
            } else {
                hex_digit(bytes[i / 2] as int % 16)
            },
    )
}

fn digit_text(value: u8) -> (result: &'static str)
    requires
        value < 16,
    ensures
        result@ == seq![hex_digit(value as int)],
{
    proof {
        reveal_strlit("0");
        reveal_strlit("1");
        reveal_strlit("2");
        reveal_strlit("3");
        reveal_strlit("4");
        reveal_strlit("5");
        reveal_strlit("6");
        reveal_strlit("7");
        reveal_strlit("8");
        reveal_strlit("9");
        reveal_strlit("a");
        reveal_strlit("b");
        reveal_strlit("c");
        reveal_strlit("d");
        reveal_strlit("e");
        reveal_strlit("f");
    }
    let result: &'static str = match value {
        0 => "0",
        1 => "1",
        2 => "2",
        3 => "3",
        4 => "4",
        5 => "5",
        6 => "6",
        7 => "7",
        8 => "8",
        9 => "9",
        10 => "a",
        11 => "b",
        12 => "c",
        13 => "d",
        14 => "e",
        _ => "f",
    };
    assert(result@ =~= seq![hex_digit(value as int)]);
    result
}

/// The bytes in lowercase hexadecimal.
pub fn to_hex(bytes: &[u8]) -> (result: String)
    ensures
        result@ == hex_of(bytes@),
{
    let mut result = String::new();
    let mut index: usize = 0;
    assert(result@ =~= hex_of(bytes@.take(0)));
    while index < bytes.len()
        invariant
            index <= bytes@.len(),
            result@ == hex_of(bytes@.take(index as int)),
        decreases bytes@.len() - index,
    {
        let ghost done = bytes@.take(index as int);
        result.append(digit_text(bytes[index] / 16));
        result.append(digit_text(bytes[index] % 16));
        index += 1;
        proof {
            let now = bytes@.take(index as int);
            assert forall|i: int| 0 <= i < 2 * now.len() implies result@[i] == hex_of(now)[i] by {
                if i < 2 * done.len() {
                    assert(done[i / 2] == now[i / 2]);
                }
            }
            assert(result@ =~= hex_of(now));
        }
    }
    assert(bytes@.take(index as int) =~= bytes@);
    result
}

/// The place of the last slash, or -1.
pub open spec fn last_slash(chars: Seq<char>) -> int
    decreases chars.len(),
{
    if chars.len() == 0 {
        -1
    } else if chars.last() == '/' {
        chars.len() - 1
    } else {
        last_slash(chars.drop_last())
    }
}

/// What stands before the last slash; nothing where there is none.
pub open spec fn parent_of(chars: Seq<char>) -> Seq<char> {
    if last_slash(chars) < 0 {
        Seq::empty()
    } else {
        chars.take(last_slash(chars))
    }
}

/// What stands behind the last slash; everything where there is none.
pub open spec fn name_of(chars: Seq<char>) -> Seq<char> {
    chars.skip(last_slash(chars) + 1)
}

/// What last_slash means: there is a slash there and none behind it.
pub proof fn last_slash_is_last(chars: Seq<char>)
    ensures
        -1 <= last_slash(chars) < chars.len(),
        last_slash(chars) >= 0 ==> chars[last_slash(chars)] == '/',
        forall|i: int| last_slash(chars) < i < chars.len() ==> chars[i] != '/',
    decreases chars.len(),
{
    if chars.len() > 0 && chars.last() != '/' {
        last_slash_is_last(chars.drop_last());
        assert forall|i: int| last_slash(chars) < i < chars.len() implies chars[i] != '/' by {
            if i < chars.len() - 1 {
                assert(chars.drop_last()[i] == chars[i]);
            }
        }
    }
}

/// A place with a slash and none behind it is the place of the last slash.
pub proof fn last_slash_unique(chars: Seq<char>, place: int)
    requires
        -1 <= place < chars.len(),
        place >= 0 ==> chars[place] == '/',
        forall|i: int| place < i < chars.len() ==> chars[i] != '/',
    ensures
        last_slash(chars) == place,
{
    last_slash_is_last(chars);
}

/// The place behind the last slash among the first `end` characters.
pub(crate) fn name_start(chars: &Vec<char>, end: usize) -> (start: usize)
    requires
        end <= chars@.len(),
    ensures
        start == last_slash(chars@.take(end as int)) + 1,
        start <= end,
{
    let mut start: usize = end;
    while start > 0 && chars[start - 1] != '/'
        invariant
            start <= end <= chars@.len(),
            forall|i: int| start <= i < end ==> chars@[i] != '/',
        decreases start,
    {
        start -= 1;
    }
    proof {
        last_slash_unique(chars@.take(end as int), start - 1);
    }
    start
}

} // verus!

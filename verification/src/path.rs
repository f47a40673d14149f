//! Canonical, portable filesystem paths.

use vstd::prelude::*;
use vstd::string::StrSliceExecFns;
use vstd::utf8::encode_utf8;

use crate::error::{invalid, Error, Fault};
use crate::order::Ranked;
use crate::text::{
    chars_of, composed, folded, folded_of, last_slash, last_slash_is_last, name_of, name_start,
    nfc_of, parent_of, same_text, text_precedes, text_rank,
};

verus! {

pub const MAX_COMPONENT_BYTES: usize = 255;

pub const MAX_PATH_BYTES: usize = 4096;

/// A control character: category Cc.
pub open spec fn is_control(c: char) -> bool {
    (c as u32) < 0x20 || 0x7f <= (c as u32) < 0xa0
}

/// A character that some platform does not allow in a file name.
pub open spec fn is_forbidden(c: char) -> bool {
    ||| is_control(c)
    ||| c == '<'
    ||| c == '>'
    ||| c == ':'
    ||| c == '"'
    ||| c == '\\'
    ||| c == '|'
    ||| c == '?'
    ||| c == '*'
}

/// What stands before the first dot.
pub open spec fn stem_of(chars: Seq<char>) -> Seq<char>
    decreases chars.len(),
{
    if chars.len() == 0 || chars[0] == '.' {
        Seq::empty()
    } else {
        seq![chars[0]] + stem_of(chars.skip(1))
    }
}

/// The device names that one platform keeps for itself, in lower case.
pub open spec fn is_device(stem: Seq<char>) -> bool {
    ||| stem == seq!['c', 'o', 'n']
    ||| stem == seq!['p', 'r', 'n']
    ||| stem == seq!['a', 'u', 'x']
    ||| stem == seq!['n', 'u', 'l']
    ||| {
        &&& stem.len() == 4
        &&& stem.take(3) == seq!['c', 'o', 'm'] || stem.take(3) == seq!['l', 'p', 't']
        &&& '1' <= stem[3] <= '9' || stem[3] == '\u{b9}' || stem[3] == '\u{b2}' || stem[3]
            == '\u{b3}'
    }
}

pub open spec fn not_canonical() -> Fault {
    invalid("construct YinYang path", "path is not canonical and portable")
}

pub open spec fn component_not_canonical() -> Fault {
    invalid("construct YinYang path", "path component is not canonical and portable")
}

pub open spec fn component_reserved() -> Fault {
    invalid("construct YinYang path", "path component is reserved")
}

/// What is wrong with a path component, given its composed and its folded form.
pub open spec fn component_fault_with(
    chars: Seq<char>,
    composed: Seq<char>,
    folded: Seq<char>,
) -> Option<Fault> {
    if {
        ||| encode_utf8(chars).len() > MAX_COMPONENT_BYTES
        ||| chars == seq!['.']
        ||| chars == seq!['.', '.']
        ||| chars.len() > 0 && (chars.last() == ' ' || chars.last() == '.')
        ||| exists|i: int| 0 <= i < chars.len() && is_forbidden(#[trigger] chars[i])
        ||| composed != chars
    } {
        Some(component_not_canonical())
    } else if is_device(stem_of(folded)) {
        Some(component_reserved())
    } else {
        None
    }
}

/// What is wrong with a path component.
pub open spec fn component_fault(chars: Seq<char>) -> Option<Fault> {
    component_fault_with(chars, nfc_of(chars), folded_of(chars))
}

/// The parts of a path between its slashes.
pub open spec fn components(chars: Seq<char>) -> Seq<Seq<char>>
    decreases chars.len(),
    via components_decreases
{
    if last_slash(chars) < 0 {
        seq![chars]
    } else {
        components(parent_of(chars)).push(name_of(chars))
    }
}

#[via_fn]
proof fn components_decreases(chars: Seq<char>) {
    last_slash_is_last(chars);
}

/// What is wrong with the first of the components that has something wrong.
pub open spec fn components_fault(parts: Seq<Seq<char>>) -> Option<Fault>
    decreases parts.len(),
{
    if parts.len() == 0 {
        None
    } else if components_fault(parts.drop_last()) is Some {
        components_fault(parts.drop_last())
    } else {
        component_fault(parts.last())
    }
}

/// Two slashes stand next to each other somewhere.
pub open spec fn has_double_slash(chars: Seq<char>) -> bool {
    exists|i: int| 0 <= i < chars.len() - 1 && #[trigger] chars[i] == '/' && chars[i + 1] == '/'
}

/// What is wrong with a path. The empty path is the root and has nothing wrong.
pub open spec fn path_fault(chars: Seq<char>) -> Option<Fault> {
    if chars.len() == 0 {
        None
    } else if {
        ||| encode_utf8(chars).len() > MAX_PATH_BYTES
        ||| chars[0] == '/'
        ||| chars.last() == '/'
        ||| has_double_slash(chars)
    } {
        Some(not_canonical())
    } else {
        components_fault(components(chars))
    }
}

/// Nothing is wrong with the path.
pub open spec fn portable(chars: Seq<char>) -> bool {
    path_fault(chars) is None
}

fn forbidden(c: char) -> (result: bool)
    ensures
        result == is_forbidden(c),
{
    let code: u32 = c as u32;
    code < 0x20 || (0x7f <= code && code < 0xa0) || c == '<' || c == '>' || c == ':' || c == '"'
        || c == '\\' || c == '|' || c == '?' || c == '*'
}

fn device(stem: &Vec<char>) -> (result: bool)
    ensures
        result == is_device(stem@),
{
    let ghost s = stem@;
    if stem.len() == 3 {
        proof {
            assert(s.len() == 3 ==> (s == seq!['c', 'o', 'n'] <==> s[0] == 'c' && s[1] == 'o' && s[2] == 'n')) by {
                if s.len() == 3 && s[0] == 'c' && s[1] == 'o' && s[2] == 'n' { assert(s =~= seq!['c', 'o', 'n']); }
            }
            assert(s == seq!['p', 'r', 'n'] <==> s[0] == 'p' && s[1] == 'r' && s[2] == 'n') by {
                if s[0] == 'p' && s[1] == 'r' && s[2] == 'n' { assert(s =~= seq!['p', 'r', 'n']); }
            }
            assert(s == seq!['a', 'u', 'x'] <==> s[0] == 'a' && s[1] == 'u' && s[2] == 'x') by {
                if s[0] == 'a' && s[1] == 'u' && s[2] == 'x' { assert(s =~= seq!['a', 'u', 'x']); }
            }
            assert(s == seq!['n', 'u', 'l'] <==> s[0] == 'n' && s[1] == 'u' && s[2] == 'l') by {
                if s[0] == 'n' && s[1] == 'u' && s[2] == 'l' { assert(s =~= seq!['n', 'u', 'l']); }
            }
        }
        return (stem[0] == 'c' && stem[1] == 'o' && stem[2] == 'n') || (stem[0] == 'p' && stem[1]
            == 'r' && stem[2] == 'n') || (stem[0] == 'a' && stem[1] == 'u' && stem[2] == 'x') || (
        stem[0] == 'n' && stem[1] == 'u' && stem[2] == 'l');
    }
    if stem.len() != 4 {
        return false;
    }
    proof {
        let t = s.take(3);
        assert(t == seq!['c', 'o', 'm'] <==> s[0] == 'c' && s[1] == 'o' && s[2] == 'm') by {
            assert(t[0] == s[0] && t[1] == s[1] && t[2] == s[2]);
            if s[0] == 'c' && s[1] == 'o' && s[2] == 'm' { assert(t =~= seq!['c', 'o', 'm']); }
        }
        assert(t == seq!['l', 'p', 't'] <==> s[0] == 'l' && s[1] == 'p' && s[2] == 't') by {
            assert(t[0] == s[0] && t[1] == s[1] && t[2] == s[2]);
            if s[0] == 'l' && s[1] == 'p' && s[2] == 't' { assert(t =~= seq!['l', 'p', 't']); }
        }
    }
    ((stem[0] == 'c' && stem[1] == 'o' && stem[2] == 'm') || (stem[0] == 'l' && stem[1] == 'p'
        && stem[2] == 't')) && (('1' <= stem[3] && stem[3] <= '9') || stem[3] == '\u{b9}' || stem[3]
        == '\u{b2}' || stem[3] == '\u{b3}')
}

fn stem(chars: &Vec<char>) -> (result: Vec<char>)
    ensures
        result@ == stem_of(chars@),
{
    let mut result: Vec<char> = Vec::new();
    let mut index: usize = 0;
    assert(chars@.skip(0) =~= chars@);
    while index < chars.len() && chars[index] != '.'
        invariant
            index <= chars@.len(),
            stem_of(chars@) == result@ + stem_of(chars@.skip(index as int)),
        decreases chars@.len() - index,
    {
        proof {
            let rest = chars@.skip(index as int);
            assert(rest[0] == chars@[index as int]);
            assert(rest.skip(1) =~= chars@.skip(index + 1));
            assert(result@ + (seq![rest[0]] + stem_of(rest.skip(1))) =~= result@.push(rest[0])
                + stem_of(rest.skip(1)));
        }
        result.push(chars[index]);
        index += 1;
    }
    assert(stem_of(chars@.skip(index as int)) =~= Seq::empty()) by {
        if index < chars@.len() {
            assert(chars@.skip(index as int)[0] == chars@[index as int]);
        }
    }
    assert(result@ =~= stem_of(chars@));
    result
}

/// Check a path component, given its composed and its folded form.
pub fn check_component(component: &str, composed: &str, folded: &str) -> (result: Result<(), Error>)
    ensures
        match result {
            Ok(()) => component_fault_with(component@, composed@, folded@) is None,
            Err(error) => component_fault_with(component@, composed@, folded@) == Some(
                error.fault(),
            ),
        },
{
    let chars = chars_of(component);
    let length: usize = chars.len();
    let mut bad = component.as_bytes().len() > MAX_COMPONENT_BYTES || !same_text(
        component,
        composed,
    );
    if length > 0 && (chars[length - 1] == ' ' || chars[length - 1] == '.') {
        bad = true;
    }
    let mut index: usize = 0;
    let ghost mut found = false;
    while index < length
        invariant
            length == chars@.len(),
            index <= length,
            found == exists|i: int| 0 <= i < index && is_forbidden(#[trigger] chars@[i]),
            bad == (encode_utf8(component@).len() > MAX_COMPONENT_BYTES || component@ != composed@
                || chars@.len() > 0 && (chars@.last() == ' ' || chars@.last() == '.') || found),
        decreases length - index,
    {
        if forbidden(chars[index]) {
            bad = true;
            proof {
                assert(is_forbidden(chars@[index as int]));
                found = true;
            }
        }
        index += 1;
    }
    proof {
        // A component of dots alone ends in a dot.
        if chars@ == seq!['.'] || chars@ == seq!['.', '.'] {
            assert(chars@.last() == '.');
        }
    }
    if bad {
        return Err(
            Error::invalid(
                "construct YinYang path",
                "path component is not canonical and portable",
            ),
        );
    }
    let folded = chars_of(folded);
    let stem = stem(&folded);
    if device(&stem) {
        return Err(Error::invalid("construct YinYang path", "path component is reserved"));
    }
    Ok(())
}

/// Check one component of a path.
pub fn validate_portable_component(component: &str) -> (result: Result<(), Error>)
    ensures
        match result {
            Ok(()) => component_fault(component@) is None,
            Err(error) => component_fault(component@) == Some(error.fault()),
        },
{
    let composed = composed(component);
    let folded = folded(component);
    check_component(component, composed.as_str(), folded.as_str())
}

/// The components of the first `end` characters, checked from the first on.
fn validate_components(path: &str, chars: &Vec<char>, end: usize) -> (result: Result<(), Error>)
    requires
        chars@ == path@,
        end <= chars@.len(),
    ensures
        match result {
            Ok(()) => components_fault(components(chars@.take(end as int))) is None,
            Err(error) => components_fault(components(chars@.take(end as int))) == Some(
                error.fault(),
            ),
        },
    decreases end,
{
    let ghost whole = chars@.take(end as int);
    let start: usize = name_start(chars, end);
    let ghost parts = components(whole);
    if start > 0 {
        proof {
            assert(whole.take(start - 1) =~= chars@.take(start - 1));
            assert(parts.drop_last() =~= components(parent_of(whole)));
        }
        match validate_components(path, chars, start - 1) {
            Ok(()) => {},
            Err(error) => {
                return Err(error);
            },
        }
    } else {
        assert(parts.drop_last() =~= Seq::empty());
        assert(whole.skip(0) =~= whole);
    }
    assert(path@.subrange(start as int, end as int) =~= parts.last()) by {
        assert(whole.skip(start as int) =~= path@.subrange(start as int, end as int));
    }
    let component = path.substring_char(start, end);
    validate_portable_component(component)
}

/// Check a path.
pub fn validate_portable_path(path: &str) -> (result: Result<(), Error>)
    ensures
        match result {
            Ok(()) => path_fault(path@) is None,
            Err(error) => path_fault(path@) == Some(error.fault()),
        },
{
    let chars = chars_of(path);
    let length: usize = chars.len();
    if length == 0 {
        return Ok(());
    }
    let mut bad = path.as_bytes().len() > MAX_PATH_BYTES || chars[0] == '/' || chars[length - 1]
        == '/';
    let mut index: usize = 0;
    let ghost mut found = false;
    while index + 1 < length
        invariant
            length == chars@.len(),
            0 < length,
            index < length,
            found == exists|i: int|
                0 <= i < index && i < chars@.len() - 1 && #[trigger] chars@[i] == '/' && chars@[i
                    + 1] == '/',
            bad == (encode_utf8(path@).len() > MAX_PATH_BYTES || chars@[0] == '/' || chars@.last()
                == '/' || found),
        decreases length - index,
    {
        if chars[index] == '/' && chars[index + 1] == '/' {
            bad = true;
            proof {
                assert(chars@[index as int] == '/' && chars@[index + 1] == '/');
                found = true;
            }
        }
        index += 1;
    }
    assert(found == has_double_slash(chars@));
    if bad {
        return Err(Error::invalid("construct YinYang path", "path is not canonical and portable"));
    }
    assert(chars@.take(length as int) =~= chars@);
    validate_components(path, &chars, length)
}

/// Encoding a joined text joins the encodings.
pub proof fn encoding_of_joined(left: Seq<char>, right: Seq<char>)
    ensures
        encode_utf8(left + right) == encode_utf8(left) + encode_utf8(right),
    decreases left.len(),
{
    if left.len() == 0 {
        assert(left + right =~= right);
        assert(encode_utf8(left) + encode_utf8(right) =~= encode_utf8(right));
    } else {
        encoding_of_joined(left.drop_first(), right);
        assert((left + right).drop_first() =~= left.drop_first() + right);
        assert(encode_utf8(left + right) =~= encode_utf8(left) + encode_utf8(right));
    }
}

/// The parent of a portable path is portable.
pub proof fn parent_is_portable(chars: Seq<char>)
    requires
        portable(chars),
    ensures
        portable(parent_of(chars)),
{
    last_slash_is_last(chars);
    let place = last_slash(chars);
    let parent = parent_of(chars);
    if place > 0 {
        encoding_of_joined(parent, chars.skip(place));
        assert(parent + chars.skip(place) =~= chars);
        assert(parent[0] == chars[0]);
        if parent.last() == '/' {
            assert(chars[place - 1] == '/' && chars[place] == '/');
        }
        if has_double_slash(parent) {
            let i = choose|i: int|
                0 <= i < parent.len() - 1 && #[trigger] parent[i] == '/' && parent[i + 1] == '/';
            assert(chars[i] == '/' && chars[i + 1] == '/');
        }
        assert(components(chars).drop_last() =~= components(parent));
    }
}

proof fn last_component_is_sound(parts: Seq<Seq<char>>)
    requires
        parts.len() > 0,
        components_fault(parts) is None,
    ensures
        component_fault(parts.last()) is None,
{
}

/// The name of a portable path other than the root is not empty and holds no slash.
#[verifier::rlimit(40)]
pub proof fn name_is_a_component(chars: Seq<char>)
    requires
        portable(chars),
        chars.len() > 0,
    ensures
        name_of(chars).len() > 0,
        forall|i: int| 0 <= i < name_of(chars).len() ==> name_of(chars)[i] != '/',
        component_fault(name_of(chars)) is None,
{
    last_slash_is_last(chars);
    let place = last_slash(chars);
    if place == chars.len() - 1 {
        assert(chars.last() == '/');
    }
    let parts = components(chars);
    assert(parts.last() == name_of(chars)) by {
        if place < 0 {
            assert(name_of(chars) =~= chars);
        }
    }
    last_component_is_sound(parts);
}

/// A path is its parent, a slash and its name.
pub proof fn path_is_parent_and_name(chars: Seq<char>)
    ensures
        chars == (if last_slash(chars) < 0 {
            name_of(chars)
        } else {
            parent_of(chars) + seq!['/'] + name_of(chars)
        }),
{
    last_slash_is_last(chars);
    let place = last_slash(chars);
    if place < 0 {
        assert(name_of(chars) =~= chars);
    } else {
        assert(chars =~= parent_of(chars) + seq!['/'] + name_of(chars));
    }
}

/// A canonical relative filesystem path. The empty path is the root.
#[derive(Debug)]
pub struct Path {
    text: String,
}

impl Path {
    /// The characters of the path.
    pub closed spec fn view(&self) -> Seq<char> {
        self.text@
    }

    /// A path is always portable.
    #[verifier::type_invariant]
    spec fn is_portable(self) -> bool {
        portable(self.text@)
    }

    pub fn root() -> (path: Self)
        ensures
            path@ == Seq::<char>::empty(),
    {
        let text = String::new();
        Path { text }
    }

    /// The path with the given text, if it is portable.
    pub fn new(value: String) -> (result: Result<Self, Error>)
        ensures
            match result {
                Ok(path) => path@ == value@ && portable(value@),
                Err(error) => path_fault(value@) == Some(error.fault()),
            },
    {
        match validate_portable_path(value.as_str()) {
            Ok(()) => Ok(Path { text: value }),
            Err(error) => Err(error),
        }
    }

    pub fn as_str(&self) -> (text: &str)
        ensures
            text@ == self@,
            portable(self@),
    {
        proof {
            use_type_invariant(self);
        }
        self.text.as_str()
    }

    pub fn is_root(&self) -> (result: bool)
        ensures
            result == (self@.len() == 0),
    {
        self.text.as_str().is_empty()
    }

    /// The directory that holds the path; the root has none.
    pub fn parent(&self) -> (result: Option<Self>)
        ensures
            match result {
                Some(parent) => self@.len() > 0 && parent@ == parent_of(self@),
                None => self@.len() == 0,
            },
    {
        proof {
            use_type_invariant(self);
        }
        let chars = chars_of(self.text.as_str());
        if chars.len() == 0 {
            return None;
        }
        assert(chars@.take(chars@.len() as int) =~= chars@);
        let start: usize = name_start(&chars, chars.len());
        if start == 0 {
            return Some(Self::root());
        }
        proof {
            parent_is_portable(self@);
            assert(self@.subrange(0, start - 1) =~= parent_of(self@));
        }
        let text = self.text.as_str().substring_char(0, start - 1).to_owned();
        Some(Path { text })
    }

    /// The last component of the path; the root has none.
    pub fn name(&self) -> (result: Option<&str>)
        ensures
            match result {
                Some(name) => self@.len() > 0 && name@ == name_of(self@),
                None => self@.len() == 0,
            },
    {
        let chars = chars_of(self.text.as_str());
        if chars.len() == 0 {
            return None;
        }
        assert(chars@.take(chars@.len() as int) =~= chars@);
        let start: usize = name_start(&chars, chars.len());
        assert(self@.subrange(start as int, self@.len() as int) =~= name_of(self@));
        Some(self.text.as_str().substring_char(start, chars.len()))
    }

    /// Whether two paths are the same.
    pub fn same(&self, other: &Self) -> (result: bool)
        ensures
            result == (self@ == other@),
    {
        same_text(self.text.as_str(), other.text.as_str())
    }
}

impl Clone for Path {
    fn clone(&self) -> (result: Self)
        ensures
            result@ == self@,
    {
        proof {
            use_type_invariant(self);
        }
        Path { text: self.text.clone() }
    }
}

impl PartialEq for Path {
    fn eq(&self, other: &Self) -> (result: bool) {
        self.same(other)
    }
}

impl vstd::std_specs::cmp::PartialEqSpecImpl for Path {
    open spec fn obeys_eq_spec() -> bool {
        true
    }

    open spec fn eq_spec(&self, other: &Self) -> bool {
        self@ == other@
    }
}

impl Eq for Path {

}

impl Ranked for Path {
    open spec fn rank(&self) -> Seq<int> {
        text_rank(self@)
    }

    fn precedes(&self, other: &Self) -> (result: bool) {
        text_precedes(self.text.as_str(), other.text.as_str())
    }
}

// What portable paths are made of.

/// The name is a word, or the word and something behind a dot.
pub open spec fn is_word_with_ending(name: Seq<char>, word: Seq<char>) -> bool {
    name == word || exists|rest: Seq<char>| #[trigger] (word + seq!['.'] + rest) == name
}

/// The name that some platform gives a device: `con`, `prn`, `aux` or `nul`, or `com` or `lpt`
/// and a digit other than zero, which may be raised.
pub open spec fn names_device(name: Seq<char>) -> bool {
    ||| is_word_with_ending(name, seq!['c', 'o', 'n'])
    ||| is_word_with_ending(name, seq!['p', 'r', 'n'])
    ||| is_word_with_ending(name, seq!['a', 'u', 'x'])
    ||| is_word_with_ending(name, seq!['n', 'u', 'l'])
    ||| exists|digit: char|
        #[trigger] is_port_digit(digit) && (is_word_with_ending(name, seq!['c', 'o', 'm', digit])
            || is_word_with_ending(name, seq!['l', 'p', 't', digit]))
}

pub open spec fn is_port_digit(digit: char) -> bool {
    ||| digit == '1' || digit == '2' || digit == '3' || digit == '4' || digit == '5'
    ||| digit == '6' || digit == '7' || digit == '8' || digit == '9'
    ||| digit == '\u{b9}' || digit == '\u{b2}' || digit == '\u{b3}'
}

proof fn stem_is_in_front(chars: Seq<char>)
    ensures
        ({
            let stem = stem_of(chars);
            &&& stem.len() <= chars.len()
            &&& forall|i: int| 0 <= i < stem.len() ==> stem[i] == #[trigger] chars[i] && chars[i]
                != '.'
            &&& stem.len() < chars.len() ==> chars[stem.len() as int] == '.'
        }),
    decreases chars.len(),
{
    if chars.len() > 0 && chars[0] != '.' {
        let rest = chars.skip(1);
        stem_is_in_front(rest);
        let stem = stem_of(chars);
        assert forall|i: int| 0 <= i < stem.len() implies stem[i] == #[trigger] chars[i]
            && chars[i] != '.' by {
            if i > 0 {
                assert(rest[i - 1] == chars[i]);
            }
        }
        if stem.len() < chars.len() {
            assert(rest[stem.len() - 1] == chars[stem.len() as int]);
        }
    }
}

proof fn stem_tells_the_word(name: Seq<char>, word: Seq<char>)
    requires
        forall|i: int| 0 <= i < word.len() ==> #[trigger] word[i] != '.',
    ensures
        stem_of(name) == word <==> is_word_with_ending(name, word),
{
    stem_is_in_front(name);
    let stem = stem_of(name);
    let count = word.len() as int;
    if stem == word {
        if stem.len() == name.len() {
            assert(name =~= word);
        } else {
            let rest = name.skip(count + 1);
            assert(word + seq!['.'] + rest =~= name);
        }
    }
    if is_word_with_ending(name, word) {
        if name != word {
            let rest = choose|rest: Seq<char>| #[trigger] (word + seq!['.'] + rest) == name;
            assert(forall|i: int| 0 <= i < count ==> word[i] == #[trigger] name[i]);
            assert(name[count] == '.');
        }
        assert(forall|i: int| 0 <= i < count ==> word[i] == #[trigger] name[i]);
        if stem.len() < count {
            assert(name[stem.len() as int] == '.');
            assert(word[stem.len() as int] != '.');
        }
        if stem.len() > count {
            assert(name[count] == '.');
            assert(stem[count] == name[count]);
        }
        assert forall|i: int| 0 <= i < count implies stem[i] == word[i] by {
            assert(stem[i] == name[i]);
            assert(word[i] == name[i]);
        }
        assert(stem =~= word);
    }
}

proof fn device_stems_are_device_names(name: Seq<char>)
    ensures
        is_device(stem_of(name)) <==> names_device(name),
{
    let stem = stem_of(name);
    stem_tells_the_word(name, seq!['c', 'o', 'n']);
    stem_tells_the_word(name, seq!['p', 'r', 'n']);
    stem_tells_the_word(name, seq!['a', 'u', 'x']);
    stem_tells_the_word(name, seq!['n', 'u', 'l']);
    assert forall|digit: char| #[trigger] is_port_digit(digit) implies (stem == seq!['c', 'o', 'm', digit]
        <==> is_word_with_ending(name, seq!['c', 'o', 'm', digit])) && (stem == seq![
        'l',
        'p',
        't',
        digit,
    ] <==> is_word_with_ending(name, seq!['l', 'p', 't', digit])) by {
        stem_tells_the_word(name, seq!['c', 'o', 'm', digit]);
        stem_tells_the_word(name, seq!['l', 'p', 't', digit]);
    }
    if stem.len() == 4 && is_device(stem) {
        let digit = stem[3];
        assert(is_port_digit(digit));
        if stem.take(3) == seq!['c', 'o', 'm'] {
            assert(stem[0] == stem.take(3)[0] && stem[1] == stem.take(3)[1] && stem[2]
                == stem.take(3)[2]);
            assert(stem =~= seq!['c', 'o', 'm', digit]);
        } else {
            assert(stem[0] == stem.take(3)[0] && stem[1] == stem.take(3)[1] && stem[2]
                == stem.take(3)[2]);
            assert(stem =~= seq!['l', 'p', 't', digit]);
        }
        assert(is_word_with_ending(name, seq!['c', 'o', 'm', digit]) || is_word_with_ending(
            name,
            seq!['l', 'p', 't', digit],
        ));
    }
    if exists|digit: char|
        #[trigger] is_port_digit(digit) && (is_word_with_ending(name, seq!['c', 'o', 'm', digit])
            || is_word_with_ending(name, seq!['l', 'p', 't', digit])) {
        let digit = choose|digit: char|
            #[trigger] is_port_digit(digit) && (is_word_with_ending(
                name,
                seq!['c', 'o', 'm', digit],
            ) || is_word_with_ending(name, seq!['l', 'p', 't', digit]));
        assert(stem.take(3) =~= seq!['c', 'o', 'm'] || stem.take(3) =~= seq!['l', 'p', 't']);
        assert(stem[3] == digit);
    }
}

/// A name is portable exactly if it takes up to 255 bytes, is not `.` or `..`, does not end in a
/// space or a dot, has no control character and none of `< > : " \ | ? *`, is composed, and
/// folds to no name of a device.
pub proof fn portable_names_suit_every_platform(
    component: &str,
    composed: &str,
    folded: &str,
    result: Result<(), Error>,
)
    requires
        call_ensures(check_component, (component, composed, folded), result),
    ensures
        ({
            let name = component@;
            result is Ok <==> {
                &&& encode_utf8(name).len() <= 255
                &&& name != seq!['.']
                &&& name != seq!['.', '.']
                &&& name.len() > 0 ==> name[name.len() - 1] != ' ' && name[name.len() - 1] != '.'
                &&& forall|i: int|
                    0 <= i < name.len() ==> {
                        let c = #[trigger] name[i];
                        &&& c as u32 >= 32
                        &&& !(127 <= c as u32 <= 159)
                        &&& c != '<' && c != '>' && c != ':' && c != '"'
                        &&& c != '\\' && c != '|' && c != '?' && c != '*'
                    }
                &&& composed@ == name
                &&& !names_device(folded@)
            }
        }),
{
    let name = component@;
    device_stems_are_device_names(folded@);
    assert forall|i: int| 0 <= i < name.len() implies (is_forbidden(#[trigger] name[i]) <==> {
        let c = name[i];
        ||| (c as u32) < 32
        ||| 127 <= c as u32 <= 159
        ||| c == '<' || c == '>' || c == ':' || c == '"' || c == '\\' || c == '|' || c == '?'
        ||| c == '*'
    }) by {}
}

/// A stretch of a path between slashes, or between a slash and an end of the path.
pub open spec fn is_piece(chars: Seq<char>, start: int, end: int) -> bool {
    &&& 0 <= start <= end <= chars.len()
    &&& start == 0 || chars[start - 1] == '/'
    &&& end == chars.len() || chars[end] == '/'
    &&& forall|i: int| start <= i < end ==> #[trigger] chars[i] != '/'
}

proof fn pieces_are_components(chars: Seq<char>)
    ensures
        components_fault(components(chars)) is None <==> forall|start: int, end: int| #[trigger]
            is_piece(chars, start, end) ==> component_fault(chars.subrange(start, end)) is None,
    decreases chars.len(),
{
    last_slash_is_last(chars);
    let place = last_slash(chars);
    reveal_with_fuel(components_fault, 2);
    if place < 0 {
        assert(components(chars) =~= seq![chars]);
        assert(seq![chars].drop_last() =~= Seq::<Seq<char>>::empty());
        assert(components_fault(components(chars)) == component_fault(chars));
        assert(is_piece(chars, 0, chars.len() as int));
        assert(chars.subrange(0, chars.len() as int) =~= chars);
        assert forall|start: int, end: int| #[trigger] is_piece(chars, start, end) implies start
            == 0 && end == chars.len() by {
            if start > 0 {
                assert(chars[start - 1] != '/');
            }
            if end < chars.len() {
                assert(chars[end] != '/');
            }
        }
    } else {
        let parent = parent_of(chars);
        let name = name_of(chars);
        pieces_are_components(parent);
        let parts = components(parent).push(name);
        assert(components(chars) == parts);
        assert(parts.drop_last() =~= components(parent));
        assert(parts.last() == name);
        let count = chars.len() as int;
        assert(name =~= chars.subrange(place + 1, count));
        assert(is_piece(chars, place + 1, count));
        assert forall|start: int, end: int| #[trigger] is_piece(parent, start, end) implies is_piece(
            chars,
            start,
            end,
        ) && parent.subrange(start, end) == chars.subrange(start, end) by {
            assert(parent.subrange(start, end) =~= chars.subrange(start, end));
            if start > 0 {
                assert(parent[start - 1] == chars[start - 1]);
            }
            assert forall|i: int| start <= i < end implies #[trigger] chars[i] != '/' by {
                assert(parent[i] == chars[i]);
            }
        }
        assert forall|start: int, end: int| #[trigger] is_piece(chars, start, end) implies (start
            == place + 1 && end == count) || is_piece(parent, start, end) by {
            if start > place {
                if start > place + 1 {
                    assert(chars[start - 1] != '/');
                }
                if end < count {
                    assert(chars[end] != '/');
                }
            } else {
                if end > place {
                    assert(chars[place] != '/');
                }
                if start > 0 {
                    assert(parent[start - 1] == chars[start - 1]);
                }
                if end < parent.len() {
                    assert(parent[end] == chars[end]);
                }
                assert forall|i: int| start <= i < end implies #[trigger] parent[i] != '/' by {
                    assert(parent[i] == chars[i]);
                }
            }
        }
        if components_fault(parts) is None {
            assert forall|start: int, end: int| #[trigger]
                is_piece(chars, start, end) implies component_fault(
                chars.subrange(start, end),
            ) is None by {
                if !(start == place + 1 && end == count) {
                    assert(is_piece(parent, start, end));
                    assert(parent.subrange(start, end) == chars.subrange(start, end));
                }
            }
        }
        if forall|start: int, end: int| #[trigger]
            is_piece(chars, start, end) ==> component_fault(chars.subrange(start, end)) is None {
            assert forall|start: int, end: int| #[trigger]
                is_piece(parent, start, end) implies component_fault(
                parent.subrange(start, end),
            ) is None by {
                assert(is_piece(chars, start, end));
            }
        }
    }
}

/// A path is portable exactly if it is the root, or takes up to 4096 bytes and each stretch
/// between its slashes is a portable name and not empty.
pub proof fn portable_paths_are_made_of_portable_names(path: &str, result: Result<(), Error>)
    requires
        call_ensures(validate_portable_path, (path,), result),
    ensures
        result is Ok <==> path@.len() == 0 || {
            &&& encode_utf8(path@).len() <= 4096
            &&& forall|start: int, end: int| #[trigger]
                is_piece(path@, start, end) ==> start < end && component_fault(
                    path@.subrange(start, end),
                ) is None
        },
{
    let chars = path@;
    let count = chars.len() as int;
    if count > 0 {
        pieces_are_components(chars);
        if chars[0] == '/' {
            assert(is_piece(chars, 0, 0));
        }
        if chars[count - 1] == '/' {
            assert(is_piece(chars, count, count));
        }
        if has_double_slash(chars) {
            let i = choose|i: int|
                0 <= i < chars.len() - 1 && #[trigger] chars[i] == '/' && chars[i + 1] == '/';
            assert(is_piece(chars, i + 1, i + 1));
        }
        if chars[0] != '/' && chars[count - 1] != '/' && !has_double_slash(chars) {
            assert forall|start: int, end: int| #[trigger]
                is_piece(chars, start, end) implies start < end by {
                if start == end {
                    if 0 < start < count {
                        assert(chars[start - 1] == '/' && chars[start - 1 + 1] == '/');
                    }
                }
            }
        }
    }
}

/// A name that a path ends in and the path that it stands in give the path back.
pub proof fn parent_and_name_give_the_path(path: &Path, parent: Option<Path>, name: Option<&str>)
    requires
        call_ensures(Path::parent, (path,), parent),
        call_ensures(Path::name, (path,), name),
    ensures
        parent is Some <==> path@.len() > 0,
        name is Some <==> path@.len() > 0,
        path@.len() > 0 ==> {
            &&& path@ == if parent->0@.len() == 0 && path@[0] != '/' {
                name->0@
            } else {
                parent->0@ + seq!['/'] + name->0@
            }
            &&& forall|i: int| 0 <= i < name->0@.len() ==> #[trigger] name->0@[i] != '/'
        },
{
    if path@.len() > 0 {
        let chars = path@;
        last_slash_is_last(chars);
        let place = last_slash(chars);
        if place < 0 {
            assert(name->0@ =~= chars);
        } else {
            assert(parent->0@ + seq!['/'] + name->0@ =~= chars);
            if parent->0@.len() == 0 {
                assert(place == 0);
            }
        }
    }
}

} // verus!

//! A fixed-width little-endian encoding, read from the front of a byte string.

use vstd::bytes::{
    lemma_auto_spec_u32_to_from_le_bytes, lemma_auto_spec_u64_to_from_le_bytes,
    spec_u32_from_le_bytes, spec_u32_to_le_bytes, spec_u64_from_le_bytes, spec_u64_to_le_bytes,
    u32_from_le_bytes, u32_to_le_bytes, u64_from_le_bytes, u64_to_le_bytes,
};
use vstd::prelude::*;
use vstd::slice::slice_subrange;
use vstd::utf8::{decode_utf8, encode_utf8, encode_utf8_decode_utf8, encode_utf8_valid_utf8, valid_utf8};

use crate::text::decode_text;

verus! {

/// The first `count` bytes and the rest.
pub open spec fn parse_fixed(bytes: Seq<u8>, count: nat) -> Option<(Seq<u8>, Seq<u8>)> {
    if count <= bytes.len() {
        Some((bytes.take(count as int), bytes.skip(count as int)))
    } else {
        None
    }
}

/// A number of eight bytes.
pub open spec fn parse_u64(bytes: Seq<u8>) -> Option<(u64, Seq<u8>)> {
    match parse_fixed(bytes, 8) {
        Some((head, rest)) => Some((spec_u64_from_le_bytes(head), rest)),
        None => None,
    }
}

/// A number of four bytes.
pub open spec fn parse_u32(bytes: Seq<u8>) -> Option<(u32, Seq<u8>)> {
    match parse_fixed(bytes, 4) {
        Some((head, rest)) => Some((spec_u32_from_le_bytes(head), rest)),
        None => None,
    }
}

/// A byte that is zero or one.
pub open spec fn parse_bool(bytes: Seq<u8>) -> Option<(bool, Seq<u8>)> {
    if bytes.len() > 0 && bytes[0] <= 1 {
        Some((bytes[0] == 1, bytes.skip(1)))
    } else {
        None
    }
}

/// Bytes behind their number.
pub open spec fn parse_bytes(bytes: Seq<u8>) -> Option<(Seq<u8>, Seq<u8>)> {
    match parse_u64(bytes) {
        Some((count, rest)) => parse_fixed(rest, count as nat),
        None => None,
    }
}

/// A text behind the number of bytes of its encoding.
pub open spec fn parse_text(bytes: Seq<u8>) -> Option<(Seq<char>, Seq<u8>)> {
    match parse_bytes(bytes) {
        Some((head, rest)) => if valid_utf8(head) {
            Some((decode_utf8(head), rest))
        } else {
            None
        },
        None => None,
    }
}

/// `count` items one after the other.
pub open spec fn parse_many<T>(
    bytes: Seq<u8>,
    count: nat,
    item: spec_fn(Seq<u8>) -> Option<(T, Seq<u8>)>,
) -> Option<(Seq<T>, Seq<u8>)>
    decreases count,
{
    if count == 0 {
        Some((Seq::empty(), bytes))
    } else {
        match parse_many(bytes, (count - 1) as nat, item) {
            Some((items, rest)) => match item(rest) {
                Some((last, rest)) => Some((items.push(last), rest)),
                None => None,
            },
            None => None,
        }
    }
}

/// Items behind their number.
pub open spec fn parse_list<T>(
    bytes: Seq<u8>,
    item: spec_fn(Seq<u8>) -> Option<(T, Seq<u8>)>,
) -> Option<(Seq<T>, Seq<u8>)> {
    match parse_u64(bytes) {
        Some((count, rest)) => parse_many(rest, count as nat, item),
        None => None,
    }
}

/// Once an item is missing, all that follow are.
pub proof fn parse_many_stops<T>(
    bytes: Seq<u8>,
    count: nat,
    more: nat,
    item: spec_fn(Seq<u8>) -> Option<(T, Seq<u8>)>,
)
    requires
        count <= more,
        parse_many(bytes, count, item) is None,
    ensures
        parse_many(bytes, more, item) is None,
    decreases more,
{
    if count < more {
        parse_many_stops(bytes, count, (more - 1) as nat, item);
    }
}

/// The encoding of a list: the number of items, then the items.
pub open spec fn list_bytes<T>(items: Seq<T>, encode: spec_fn(T) -> Seq<u8>) -> Seq<u8> {
    spec_u64_to_le_bytes(items.len() as u64) + many_bytes(items, encode)
}

pub open spec fn many_bytes<T>(items: Seq<T>, encode: spec_fn(T) -> Seq<u8>) -> Seq<u8>
    decreases items.len(),
{
    if items.len() == 0 {
        Seq::empty()
    } else {
        many_bytes(items.drop_last(), encode) + encode(items.last())
    }
}

/// The encoding of bytes: their number, then the bytes.
pub open spec fn counted_bytes(bytes: Seq<u8>) -> Seq<u8> {
    spec_u64_to_le_bytes(bytes.len() as u64) + bytes
}

pub open spec fn bool_bytes(value: bool) -> Seq<u8> {
    seq![if value {
        1u8
    } else {
        0u8
    }]
}

/// A fixed number of bytes is read back.
pub proof fn fixed_reads_back(bytes: Seq<u8>, rest: Seq<u8>)
    ensures
        parse_fixed(bytes + rest, bytes.len()) == Some((bytes, rest)),
{
    assert((bytes + rest).take(bytes.len() as int) =~= bytes);
    assert((bytes + rest).skip(bytes.len() as int) =~= rest);
}

/// A number is read back.
pub proof fn u64_reads_back(value: u64, rest: Seq<u8>)
    ensures
        parse_u64(spec_u64_to_le_bytes(value) + rest) == Some((value, rest)),
        spec_u64_to_le_bytes(value).len() == 8,
{
    lemma_auto_spec_u64_to_from_le_bytes();
    fixed_reads_back(spec_u64_to_le_bytes(value), rest);
}

/// A short number is read back.
pub proof fn u32_reads_back(value: u32, rest: Seq<u8>)
    ensures
        parse_u32(spec_u32_to_le_bytes(value) + rest) == Some((value, rest)),
        spec_u32_to_le_bytes(value).len() == 4,
{
    lemma_auto_spec_u32_to_from_le_bytes();
    fixed_reads_back(spec_u32_to_le_bytes(value), rest);
}

/// A flag is read back.
pub proof fn bool_reads_back(value: bool, rest: Seq<u8>)
    ensures
        parse_bool(bool_bytes(value) + rest) == Some((value, rest)),
{
    let bytes = bool_bytes(value) + rest;
    assert(bytes[0] == bool_bytes(value)[0]);
    assert(bytes.skip(1) =~= rest);
}

/// Bytes are read back.
pub proof fn bytes_read_back(bytes: Seq<u8>, rest: Seq<u8>)
    requires
        bytes.len() <= u64::MAX,
    ensures
        parse_bytes(counted_bytes(bytes) + rest) == Some((bytes, rest)),
{
    assert(counted_bytes(bytes) + rest =~= spec_u64_to_le_bytes(bytes.len() as u64) + (bytes
        + rest));
    u64_reads_back(bytes.len() as u64, bytes + rest);
    fixed_reads_back(bytes, rest);
}

/// A text is read back.
pub proof fn text_reads_back(chars: Seq<char>, rest: Seq<u8>)
    requires
        encode_utf8(chars).len() <= u64::MAX,
    ensures
        parse_text(counted_bytes(encode_utf8(chars)) + rest) == Some((chars, rest)),
{
    bytes_read_back(encode_utf8(chars), rest);
    encode_utf8_valid_utf8(chars);
    encode_utf8_decode_utf8(chars);
}

/// The encoding of an item is read back as the item.
pub open spec fn reads_back<T>(
    encode: spec_fn(T) -> Seq<u8>,
    item: spec_fn(Seq<u8>) -> Option<(T, Seq<u8>)>,
    value: T,
) -> bool {
    forall|rest: Seq<u8>| #[trigger] item(encode(value) + rest) == Some((value, rest))
}

/// Items that are read back one by one are read back together.
pub proof fn many_read_back<T>(
    items: Seq<T>,
    encode: spec_fn(T) -> Seq<u8>,
    item: spec_fn(Seq<u8>) -> Option<(T, Seq<u8>)>,
    rest: Seq<u8>,
)
    requires
        forall|i: int| 0 <= i < items.len() ==> reads_back(encode, item, #[trigger] items[i]),
    ensures
        parse_many(many_bytes(items, encode) + rest, items.len(), item) == Some((items, rest)),
    decreases items.len(),
{
    if items.len() > 0 {
        let front = items.drop_last();
        let last = items.last();
        many_read_back(front, encode, item, encode(last) + rest);
        assert(many_bytes(items, encode) + rest =~= many_bytes(front, encode) + (encode(last)
            + rest));
        assert(reads_back(encode, item, items[items.len() - 1]));
        assert(front.push(last) =~= items);
    } else {
        assert(many_bytes(items, encode) + rest =~= rest);
        assert(items =~= Seq::empty());
    }
}

/// A list of items that are read back is read back.
pub proof fn list_reads_back<T>(
    items: Seq<T>,
    encode: spec_fn(T) -> Seq<u8>,
    item: spec_fn(Seq<u8>) -> Option<(T, Seq<u8>)>,
    rest: Seq<u8>,
)
    requires
        items.len() <= u64::MAX,
        forall|i: int| 0 <= i < items.len() ==> reads_back(encode, item, #[trigger] items[i]),
    ensures
        parse_list(list_bytes(items, encode) + rest, item) == Some((items, rest)),
{
    let body = many_bytes(items, encode);
    assert(list_bytes(items, encode) + rest =~= spec_u64_to_le_bytes(items.len() as u64) + (body
        + rest));
    u64_reads_back(items.len() as u64, body + rest);
    many_read_back(items, encode, item, rest);
}

/// What is left of a byte string that is read from the front.
pub struct Reader<'a> {
    bytes: &'a [u8],
    place: usize,
}

impl<'a> Reader<'a> {
    /// The bytes that were not read yet.
    pub closed spec fn view(&self) -> Seq<u8> {
        self.bytes@.skip(self.place as int)
    }

    #[verifier::type_invariant]
    spec fn is_within(self) -> bool {
        self.place <= self.bytes@.len()
    }

    pub fn new(bytes: &'a [u8]) -> (reader: Self)
        ensures
            reader@ == bytes@,
    {
        assert(bytes@.skip(0) =~= bytes@);
        Reader { bytes, place: 0 }
    }

    pub fn remaining(&self) -> (count: usize)
        ensures
            count == self@.len(),
    {
        proof {
            use_type_invariant(self);
        }
        self.bytes.len() - self.place
    }

    pub fn read_fixed(&mut self, count: usize) -> (result: Option<&'a [u8]>)
        ensures
            match result {
                Some(head) => parse_fixed(old(self)@, count as nat) == Some((head@, final(self)@)),
                None => parse_fixed(old(self)@, count as nat) is None,
            },
    {
        proof {
            use_type_invariant(&*self);
        }
        if count > self.bytes.len() - self.place {
            return None;
        }
        let ghost before_read = self@;
        let end: usize = self.place + count;
        let head = slice_subrange(self.bytes, self.place, end);
        self.place = end;
        assert(head@ =~= before_read.take(count as int));
        assert(self@ =~= before_read.skip(count as int));
        Some(head)
    }

    pub fn read_u64(&mut self) -> (result: Option<u64>)
        ensures
            match result {
                Some(value) => parse_u64(old(self)@) == Some((value, final(self)@)),
                None => parse_u64(old(self)@) is None,
            },
    {
        match self.read_fixed(8) {
            Some(head) => Some(u64_from_le_bytes(head)),
            None => None,
        }
    }

    pub fn read_u32(&mut self) -> (result: Option<u32>)
        ensures
            match result {
                Some(value) => parse_u32(old(self)@) == Some((value, final(self)@)),
                None => parse_u32(old(self)@) is None,
            },
    {
        match self.read_fixed(4) {
            Some(head) => Some(u32_from_le_bytes(head)),
            None => None,
        }
    }

    pub fn read_bool(&mut self) -> (result: Option<bool>)
        ensures
            match result {
                Some(value) => parse_bool(old(self)@) == Some((value, final(self)@)),
                None => parse_bool(old(self)@) is None,
            },
    {
        match self.read_fixed(1) {
            Some(head) => {
                assert(head@[0] == old(self)@[0]);
                if head[0] <= 1 {
                    Some(head[0] == 1)
                } else {
                    None
                }
            },
            None => None,
        }
    }

    pub fn read_bytes(&mut self) -> (result: Option<&'a [u8]>)
        ensures
            match result {
                Some(bytes) => parse_bytes(old(self)@) == Some((bytes@, final(self)@)),
                None => parse_bytes(old(self)@) is None,
            },
    {
        match self.read_u64() {
            Some(count) => {
                if count > self.remaining() as u64 {
                    return None;
                }
                self.read_fixed(count as usize)
            },
            None => None,
        }
    }

    pub fn read_text(&mut self) -> (result: Option<String>)
        ensures
            match result {
                Some(text) => parse_text(old(self)@) == Some((text@, final(self)@)),
                None => parse_text(old(self)@) is None,
            },
    {
        match self.read_bytes() {
            Some(bytes) => {
                let text = decode_text(bytes);
                proof {
                    if text is Some {
                        encode_utf8_valid_utf8(text->0@);
                        encode_utf8_decode_utf8(text->0@);
                    } else if valid_utf8(bytes@) {
                        vstd::utf8::decode_utf8_encode_utf8(bytes@);
                        assert(encode_utf8(decode_utf8(bytes@)) == bytes@);
                    }
                }
                text
            },
            None => None,
        }
    }

    pub fn read_id(&mut self) -> (result: Option<[u8; 16]>)
        ensures
            match result {
                Some(bytes) => parse_fixed(old(self)@, 16) == Some((bytes@, final(self)@)),
                None => parse_fixed(old(self)@, 16) is None,
            },
    {
        match self.read_fixed(16) {
            Some(head) => {
                let mut bytes: [u8; 16] = [0;16];
                let mut index: usize = 0;
                while index < 16
                    invariant
                        index <= 16,
                        head@.len() == 16,
                        forall|k: int| 0 <= k < index ==> bytes@[k] == head@[k],
                    decreases 16 - index,
                {
                    bytes[index] = head[index];
                    index += 1;
                }
                assert(bytes@ =~= head@);
                Some(bytes)
            },
            None => None,
        }
    }

    pub fn read_digest(&mut self) -> (result: Option<[u8; 32]>)
        ensures
            match result {
                Some(bytes) => parse_fixed(old(self)@, 32) == Some((bytes@, final(self)@)),
                None => parse_fixed(old(self)@, 32) is None,
            },
    {
        match self.read_fixed(32) {
            Some(head) => {
                let mut bytes: [u8; 32] = [0;32];
                let mut index: usize = 0;
                while index < 32
                    invariant
                        index <= 32,
                        head@.len() == 32,
                        forall|k: int| 0 <= k < index ==> bytes@[k] == head@[k],
                    decreases 32 - index,
                {
                    bytes[index] = head[index];
                    index += 1;
                }
                assert(bytes@ =~= head@);
                Some(bytes)
            },
            None => None,
        }
    }
}

/// Append the bytes.
pub fn put_fixed(output: &mut Vec<u8>, bytes: &[u8])
    ensures
        final(output)@ == old(output)@ + bytes@,
{
    let mut index: usize = 0;
    let ghost start = output@;
    while index < bytes.len()
        invariant
            index <= bytes@.len(),
            output@ == start + bytes@.take(index as int),
        decreases bytes@.len() - index,
    {
        output.push(bytes[index]);
        index += 1;
        assert(output@ =~= start + bytes@.take(index as int));
    }
    assert(bytes@.take(index as int) =~= bytes@);
}

pub fn put_u64(output: &mut Vec<u8>, value: u64)
    ensures
        final(output)@ == old(output)@ + spec_u64_to_le_bytes(value),
{
    let bytes = u64_to_le_bytes(value);
    put_fixed(output, bytes.as_slice());
}

pub fn put_u32(output: &mut Vec<u8>, value: u32)
    ensures
        final(output)@ == old(output)@ + spec_u32_to_le_bytes(value),
{
    let bytes = u32_to_le_bytes(value);
    put_fixed(output, bytes.as_slice());
}

pub fn put_bool(output: &mut Vec<u8>, value: bool)
    ensures
        final(output)@ == old(output)@ + bool_bytes(value),
{
    output.push(
        if value {
            1
        } else {
            0
        },
    );
    assert(output@ =~= old(output)@ + bool_bytes(value));
}

pub fn put_bytes(output: &mut Vec<u8>, bytes: &[u8])
    ensures
        final(output)@ == old(output)@ + counted_bytes(bytes@),
{
    put_u64(output, bytes.len() as u64);
    put_fixed(output, bytes);
    assert(output@ =~= old(output)@ + counted_bytes(bytes@));
}

} // verus!

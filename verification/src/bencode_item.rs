//! The tree of items that the decoder builds: every node borrows from the
//! input and holds the bytes of its own token.

use crate::bencode_spec::{
    bytes_token, dict_get, int_text_ok, natural_of, wire, DecodingErrorKind, Value,
};
use crate::byte_order::bytes_eq;
use crate::decimal::{decimal_value, is_digit, is_digit_byte};
use vstd::prelude::*;

verus! {

/// A failure of the decoder.
#[derive(Debug, Clone, Copy, PartialEq, Eq)]
pub struct DecodingError {
    pub kind: DecodingErrorKind,
}

/// What a failure of the decoder is called.
pub open spec fn error_message(kind: DecodingErrorKind) -> Seq<char> {
    match kind {
        DecodingErrorKind::UnexpectedEof => "unexpected end of input"@,
        DecodingErrorKind::InvalidHeader(_) => "unknown field header"@,
        DecodingErrorKind::InvalidLength => "invalid length of a byte string"@,
        DecodingErrorKind::InvalidInteger => "invalid integer"@,
        DecodingErrorKind::NonByteStringKey => "can't decode key for dict"@,
        DecodingErrorKind::InvalidDuplicateKey => "a key occurs twice in a dict"@,
    }
}

impl DecodingError {
    /// The error of the given kind.
    pub fn new(kind: DecodingErrorKind) -> (out: DecodingError)
        ensures
            out.kind == kind,
    {
        DecodingError { kind }
    }

    /// What the failure is called.
    pub fn message(&self) -> (out: &'static str)
        ensures
            out@ == error_message(self.kind),
    {
        match self.kind {
            DecodingErrorKind::UnexpectedEof => "unexpected end of input",
            DecodingErrorKind::InvalidHeader(_) => "unknown field header",
            DecodingErrorKind::InvalidLength => "invalid length of a byte string",
            DecodingErrorKind::InvalidInteger => "invalid integer",
            DecodingErrorKind::NonByteStringKey => "can't decode key for dict",
            DecodingErrorKind::InvalidDuplicateKey => "a key occurs twice in a dict",
        }
    }
}

/// What the decoder read, beside the bytes of the token that it read it from.
pub struct Field<'a, T> {
    pub raw: &'a [u8],
    pub payload: T,
}

impl<'a, T> Field<'a, T> {
    /// What was read, beside the bytes it was read from.
    pub fn new(raw: &'a [u8], payload: T) -> (out: Self)
        ensures
            out.raw == raw,
            out.payload == payload,
    {
        Self { raw, payload }
    }
}

/// One entry of a dictionary: the key, which is a byte string, and the value.
pub struct Entry<'a> {
    pub key: Field<'a, &'a [u8]>,
    pub value: Item<'a>,
}

/// A decoded value. A dictionary keeps its entries in the order of the
/// input; of a key that occurs twice, the first entry is the one that counts.
pub enum Item<'a> {
    Bytes(Field<'a, &'a [u8]>),
    Number(Field<'a, &'a [u8]>),
    List(Field<'a, Vec<Item<'a>>>),
    Dict(Field<'a, Vec<Entry<'a>>>),
}

/// The value that an item holds, without the bytes it was read from.
pub open spec fn item_value(item: Item) -> Value
    decreases item,
{
    match item {
        Item::Bytes(f) => Value::Bytes(f.payload@),
        Item::Number(f) => Value::Number(f.payload@),
        Item::List(f) => Value::List(
            Seq::new(
                f.payload@.len(),
                |i: int|
                    if 0 <= i < f.payload@.len() {
                        item_value(f.payload@[i])
                    } else {
                        Value::Bytes(seq![])
                    },
            ),
        ),
        Item::Dict(f) => Value::Dict(
            Seq::new(
                f.payload@.len(),
                |i: int|
                    if 0 <= i < f.payload@.len() {
                        (f.payload@[i].key.payload@, item_value(f.payload@[i].value))
                    } else {
                        (seq![], Value::Bytes(seq![]))
                    },
            ),
        ),
    }
}

impl<'a> View for Item<'a> {
    type V = Value;

    open spec fn view(&self) -> Value {
        item_value(*self)
    }
}

/// The values of a sequence of items.
pub open spec fn item_views(items: Seq<Item>) -> Seq<Value> {
    Seq::new(items.len(), |i: int| items[i]@)
}

/// The keys and values of a sequence of entries.
pub open spec fn entry_views(entries: Seq<Entry>) -> Seq<(Seq<u8>, Value)> {
    Seq::new(entries.len(), |i: int| (entries[i].key.payload@, entries[i].value@))
}

impl<'a> Item<'a> {
    /// The bytes of the token that this item was read from.
    pub open spec fn raw(&self) -> Seq<u8> {
        match self {
            Item::Bytes(f) => f.raw@,
            Item::Number(f) => f.raw@,
            Item::List(f) => f.raw@,
            Item::Dict(f) => f.raw@,
        }
    }

    /// Whether every node of the tree holds the bytes of its own token: the
    /// bytes of a list are `l`, the bytes of its items in order, and `e`;
    /// those of a dictionary `d`, each key and value in order, and `e`.
    pub open spec fn wf(&self) -> bool
        decreases self,
    {
        &&& self.raw() == wire(self@)
        &&& match self {
            Item::Bytes(_) => true,
            Item::Number(f) => int_text_ok(f.payload@),
            Item::List(f) => forall|i: int|
                0 <= i < f.payload@.len() ==> (#[trigger] f.payload@[i]).wf(),
            Item::Dict(f) => forall|i: int|
                0 <= i < f.payload@.len() ==> {
                    &&& (#[trigger] f.payload@[i]).key.raw@ == bytes_token(
                        f.payload@[i].key.payload@,
                    )
                    &&& f.payload@[i].value.wf()
                },
        }
    }

    /// The number of bytes of the token that this item was read from.
    pub fn raw_length(&self) -> (n: usize)
        ensures
            n == self.raw().len(),
    {
        match self {
            Item::Bytes(f) => f.raw.len(),
            Item::Number(f) => f.raw.len(),
            Item::List(f) => f.raw.len(),
            Item::Dict(f) => f.raw.len(),
        }
    }

    /// The bytes of the token that this item was read from.
    pub fn raw_bytes(&self) -> (out: &'a [u8])
        ensures
            out@ == self.raw(),
    {
        match self {
            Item::Bytes(f) => f.raw,
            Item::Number(f) => f.raw,
            Item::List(f) => f.raw,
            Item::Dict(f) => f.raw,
        }
    }
}

impl<'a> Item<'a> {
    /// The payload of a byte string.
    pub fn as_bytes(&self) -> (out: Option<&'a [u8]>)
        ensures
            match out {
                Some(payload) => self@ == Value::Bytes(payload@),
                None => !(self@ is Bytes),
            },
    {
        match self {
            Item::Bytes(f) => Some(f.payload),
            _ => None,
        }
    }

    /// The number that a non-negative integer spells, where it fits in 64 bits.
    pub fn as_u64(&self) -> (out: Option<u64>)
        ensures
            match out {
                Some(n) => natural_of(self@) == Some(n as nat),
                None => match natural_of(self@) {
                    Some(n) => n > u64::MAX,
                    None => true,
                },
            },
    {
        match self {
            Item::Number(f) => {
                let text: &[u8] = f.payload;
                let len: usize = text.len();
                assert(text@.subrange(0, len as int) =~= text@);
                if len == 0 {
                    return None;
                }
                let mut i: usize = 0;
                while i < len
                    invariant
                        i <= len,
                        len == text@.len(),
                        self@ == Value::Number(text@),
                        forall|j: int| 0 <= j < i ==> is_digit(#[trigger] text@[j]),
                    decreases len - i,
                {
                    if !is_digit_byte(text[i]) {
                        return None;
                    }
                    i += 1;
                }
                if len > 1 && text[0] == 48 {
                    return None;
                }
                decimal_value(text, 0, len, u64::MAX)
            },
            _ => None,
        }
    }

    /// The items of a list.
    pub fn as_list(&self) -> (out: Option<&Vec<Item<'a>>>)
        ensures
            match out {
                Some(items) => {
                    &&& self@ == Value::List(item_views(items@))
                    &&& *self is List
                    &&& self->List_0.payload == *items
                },
                None => !(self@ is List),
            },
    {
        match self {
            Item::List(f) => {
                assert(self@->List_0 =~= item_views(f.payload@));
                Some(&f.payload)
            },
            _ => None,
        }
    }

    /// The entries of a dictionary.
    pub fn as_dict(&self) -> (out: Option<&Vec<Entry<'a>>>)
        ensures
            match out {
                Some(entries) => {
                    &&& self@ == Value::Dict(entry_views(entries@))
                    &&& *self is Dict
                    &&& self->Dict_0.payload == *entries
                },
                None => !(self@ is Dict),
            },
    {
        match self {
            Item::Dict(f) => {
                assert(self@->Dict_0 =~= entry_views(f.payload@));
                Some(&f.payload)
            },
            _ => None,
        }
    }
}

/// The value of the first entry with the key `key`, if there is one.
pub fn find_entry<'a, 'b>(entries: &'b Vec<Entry<'a>>, key: &[u8]) -> (out: Option<&'b Item<'a>>)
    ensures
        match out {
            Some(item) => dict_get(entry_views(entries@), key@) == Some(item@) && exists|i: int|
                0 <= i < entries@.len() && (#[trigger] entries@[i]).value == *item,
            None => dict_get(entry_views(entries@), key@) is None,
        },
{
    let ghost views = entry_views(entries@);
    let mut i: usize = 0;
    assert(views.skip(0) =~= views);
    while i < entries.len()
        invariant
            i <= entries@.len(),
            views == entry_views(entries@),
            dict_get(views, key@) == dict_get(views.skip(i as int), key@),
        decreases entries@.len() - i,
    {
        let ghost rest = views.skip(i as int);
        assert(rest[0] == views[i as int]);
        assert(rest.skip(1) =~= views.skip(i + 1));
        if bytes_eq(entries[i].key.payload, key) {
            return Some(&entries[i].value);
        }
        i += 1;
    }
    None
}

} // verus!

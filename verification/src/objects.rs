//! The object graph of a parsed PDF file, read through `pdf_lib_rs`.
//!
//! The types of that crate are opaque here. What they hold is named by the
//! spec functions without a body below, and the functions around them are the
//! only ones of this library that look inside.

use vstd::prelude::*;

use crate::model::{lists_by_name, Dictionary, Obj, ObjectRef, Objects};

verus! {

/// The indirect objects of a document.
pub type Context = pdf_lib_rs::core::context::PdfContext;

/// A PDF object of any kind.
pub type Object = pdf_lib_rs::core::objects::PdfObject;

/// A PDF dictionary.
pub type Dict = pdf_lib_rs::core::objects::PdfDict;

/// A PDF array.
pub type Array = pdf_lib_rs::core::objects::PdfArray;

#[verifier::external_type_specification]
#[verifier::external_body]
pub struct ExPdfContext(pdf_lib_rs::core::context::PdfContext);

#[verifier::external_type_specification]
#[verifier::external_body]
pub struct ExPdfObject(pdf_lib_rs::core::objects::PdfObject);

#[verifier::external_type_specification]
#[verifier::external_body]
pub struct ExPdfDict(pdf_lib_rs::core::objects::PdfDict);

#[verifier::external_type_specification]
#[verifier::external_body]
pub struct ExPdfArray(pdf_lib_rs::core::objects::PdfArray);

/// The objects that a context holds, by number.
pub uninterp spec fn context_objects(ctx: Context) -> Objects;

/// The value that an object holds.
pub uninterp spec fn object_value(obj: Object) -> Obj;

/// The entries that a dictionary holds, by encoded name.
pub uninterp spec fn dict_entries(dict: Dict) -> Dictionary;

/// The values that an array holds.
pub uninterp spec fn array_items(array: Array) -> Seq<Obj>;

/// The two parts of a stream object.
pub struct RawStream<'a> {
    pub dict: &'a Dict,
    pub contents: &'a Vec<u8>,
}

/// One object, told apart by its kind.
pub enum Shape<'a> {
    Name(&'a str),
    Ref(ObjectRef),
    Number(u32),
    LiteralString,
    HexString(&'a str),
    Array(&'a Array),
    Dict(&'a Dict),
    Stream(RawStream<'a>),
    Other,
}

/// Whether the digits of a hexadecimal string can be cut into pairs of bytes
/// without cutting a character in two.
pub open spec fn splits_into_pairs(digits: Seq<char>) -> bool {
    let bytes = vstd::utf8::encode_utf8(digits);
    forall|i: int|
        #![trigger vstd::utf8::is_char_boundary(bytes, i)]
        0 <= i <= bytes.len() && i % 2 == 0 ==> vstd::utf8::is_char_boundary(bytes, i)
}

impl<'a> Shape<'a> {
    /// Whether this is the shape of an object that holds `value`.
    pub open spec fn is_shape_of(self, value: Obj) -> bool {
        match self {
            Shape::Name(name) => value == Obj::Name(name@),
            Shape::Ref(r) => value == Obj::Ref(r),
            Shape::Number(n) => value == Obj::Number(n),
            Shape::LiteralString => value is Text,
            Shape::HexString(digits) => if splits_into_pairs(digits@) {
                value is Text
            } else {
                value is BrokenText
            },
            Shape::Array(a) => value == Obj::Array(array_items(*a)),
            Shape::Dict(d) => value == Obj::Dict(dict_entries(*d)),
            Shape::Stream(s) => value == Obj::Stream(dict_entries(*s.dict), s.contents@),
            Shape::Other => value is Other,
        }
    }
}

/// The value of an optional object.
pub open spec fn opt_value(obj: Option<&Object>) -> Option<Obj> {
    match obj {
        Some(o) => Some(object_value(*o)),
        None => None,
    }
}

/// The entries of an optional dictionary.
pub open spec fn opt_entries(dict: Option<&Dict>) -> Option<Dictionary> {
    match dict {
        Some(d) => Some(dict_entries(*d)),
        None => None,
    }
}

/// Tells apart the variants of the enum `PdfObject`.
///
/// A name is read by `PdfName::as_string`, which gives it in encoded form with
/// its slash. A number is read by `PdfNumber::as_number` and cast to `u32`,
/// which truncates it and clamps it. A literal string can always be decoded; a
/// hexadecimal one is read by `PdfHexString::as_string` and can be decoded when
/// its digits split into pairs, since `PdfHexString` slices them two bytes at a
/// time. What the text of a string object is, is left to the functions that
/// hand it out.
#[verifier::external_body]
pub(crate) fn inspect<'a>(obj: &'a Object) -> (shape: Shape<'a>)
    ensures
        shape.is_shape_of(object_value(*obj)),
{
    match obj {
        Object::Name(n) => Shape::Name(n.as_string()),
        Object::Ref(r) => Shape::Ref(
            ObjectRef { object_number: r.object_number, generation_number: r.generation_number },
        ),
        Object::Number(n) => Shape::Number(n.as_number() as u32),
        Object::String(_) => Shape::LiteralString,
        Object::HexString(h) => Shape::HexString(h.as_string()),
        Object::Array(a) => Shape::Array(a),
        Object::Dict(d) => Shape::Dict(d),
        Object::Stream(s) => Shape::Stream(RawStream { dict: &s.dict, contents: &s.contents }),
        Object::Bool(_) | Object::Null => Shape::Other,
    }
}

/// Calls `PdfContext::lookup`, which gives the object stored under a number.
#[verifier::external_body]
pub(crate) fn lookup<'a>(ctx: &'a Context, r: ObjectRef) -> (found: Option<&'a Object>)
    ensures
        opt_value(found) == context_objects(*ctx).get(r),
{
    ctx.lookup(&pdf_lib_rs::core::objects::PdfRef::of(r.object_number, r.generation_number))
}

/// Whether there are finitely many objects, and how many.
pub open spec fn has_size(objects: Objects, size: nat) -> bool {
    objects.dom().finite() && objects.dom().len() == size
}

/// Calls `PdfContext::object_count`, which counts the objects. They are stored in
/// a `HashMap`, so there are finitely many.
#[verifier::external_body]
pub(crate) fn object_count(ctx: &Context) -> (count: usize)
    ensures
        has_size(context_objects(*ctx), count as nat),
{
    ctx.object_count()
}

/// Whether a key is made of ASCII letters alone.
pub open spec fn is_plain_key(key: Seq<char>) -> bool {
    forall|i: int|
        0 <= i < key.len() ==> ('a' <= #[trigger] key[i] <= 'z' || 'A' <= key[i] <= 'Z')
}

/// Calls `PdfDict::get` with the name that `PdfName::of` makes of `key`.
///
/// Of ASCII letters `PdfName::of` encodes none, so the name is the key behind a
/// slash; `PdfDict::get` gives the value stored under it.
#[verifier::external_body]
pub(crate) fn dict_get<'a>(dict: &'a Dict, key: &str) -> (found: Option<&'a Object>)
    requires
        is_plain_key(key@),
    ensures
        opt_value(found) == dict_entries(*dict).get(seq!['/'] + key@),
{
    dict.get(&pdf_lib_rs::core::objects::PdfName::of(key))
}

/// The names and values in a list of entries.
pub open spec fn entry_values(entries: Seq<(&str, &Object)>) -> Seq<(Seq<char>, Obj)> {
    entries.map_values(|entry: (&str, &Object)| (entry.0@, object_value(*entry.1)))
}

/// Calls `PdfDict::entries`, which walks a `BTreeMap` keyed by the encoded
/// name: each entry comes once, by ascending name.
#[verifier::external_body]
pub(crate) fn dict_list<'a>(dict: &'a Dict) -> (entries: Vec<(&'a str, &'a Object)>)
    ensures
        lists_by_name(dict_entries(*dict), entry_values(entries@)),
{
    dict.entries().into_iter().map(|entry| (entry.0.as_string(), entry.1)).collect()
}

/// Calls `PdfArray::size`, which counts the items.
#[verifier::external_body]
pub(crate) fn array_size(array: &Array) -> (size: usize)
    ensures
        size == array_items(*array).len(),
{
    array.size()
}

/// Calls `PdfArray::get`, which gives the item at an index.
#[verifier::external_body]
pub(crate) fn array_get<'a>(array: &'a Array, index: usize) -> (found: Option<&'a Object>)
    ensures
        opt_value(found) == if index < array_items(*array).len() {
            Some(array_items(*array)[index as int])
        } else {
            None
        },
{
    array.get(index)
}

/// The digits of a hexadecimal string can be cut into pairs exactly if no pair
/// starts inside a character, at a byte that continues one. ASCII digits always can.
pub proof fn lemma_pairs(digits: Seq<char>)
    ensures
        ({
            let bytes = vstd::utf8::encode_utf8(digits);
            splits_into_pairs(digits) <==> forall|i: int|
                #![trigger bytes[i]]
                0 <= i < bytes.len() && i % 2 == 0 ==> !(0x80 <= bytes[i] <= 0xbf)
        }),
        vstd::utf8::is_ascii_chars(digits) ==> splits_into_pairs(digits),
{
    let bytes = vstd::utf8::encode_utf8(digits);
    vstd::utf8::encode_utf8_valid_utf8(digits);
    vstd::utf8::is_char_boundary_start_end_of_seq(bytes);
    assert forall|i: int| 0 <= i < bytes.len() implies #[trigger] vstd::utf8::is_char_boundary(
        bytes,
        i,
    ) == !(0x80 <= bytes[i] <= 0xbf) by {
        vstd::utf8::is_char_boundary_iff_not_is_continuation_byte(bytes, i);
    }
    if splits_into_pairs(digits) {
        assert forall|i: int|
            #![trigger bytes[i]]
            0 <= i < bytes.len() && i % 2 == 0 implies !(0x80 <= bytes[i] <= 0xbf) by {
            assert(vstd::utf8::is_char_boundary(bytes, i));
        }
    }
    if vstd::utf8::is_ascii_chars(digits) {
        vstd::utf8::is_ascii_chars_encode_utf8(digits);
        assert forall|i: int| #![trigger bytes[i]] 0 <= i < bytes.len() implies bytes[i] < 0x80 by {
            assert(digits[i] <= '\u{7f}');
        }
    }
}

} // verus!

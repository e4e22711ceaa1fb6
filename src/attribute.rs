//! The typed attribute model and its mapping onto wire records.
use vstd::prelude::*;
use crate::wire::{Rec, MAX_FIELD_LEN};

verus! {

pub const TAG_INTEGER: u8 = 0x21;
pub const TAG_BOOLEAN: u8 = 0x22;
pub const TAG_ENUM: u8 = 0x23;
pub const TAG_BEGIN_COLLECTION: u8 = 0x34;
pub const TAG_END_COLLECTION: u8 = 0x37;
pub const TAG_TEXT: u8 = 0x41;
pub const TAG_NAME: u8 = 0x42;
pub const TAG_KEYWORD: u8 = 0x44;
pub const TAG_URI: u8 = 0x45;
pub const TAG_CHARSET: u8 = 0x47;
pub const TAG_NATURAL_LANGUAGE: u8 = 0x48;
pub const TAG_MIME_MEDIA_TYPE: u8 = 0x49;
pub const TAG_MEMBER_NAME: u8 = 0x4A;
/// Out-of-band tags (unsupported, unknown, no-value, ...) lie in this range.
pub const OUT_OF_BAND_FIRST: u8 = 0x10;
pub const OUT_OF_BAND_LAST: u8 = 0x1F;

/// An attribute value; its wire tag follows from its variant.
#[derive(Debug)]
pub enum AttributeValue {
    Integer(i32),
    Boolean(bool),
    Enum(i32),
    Text(Vec<u8>),
    Name(Vec<u8>),
    Keyword(Vec<u8>),
    Uri(Vec<u8>),
    Charset(Vec<u8>),
    NaturalLanguage(Vec<u8>),
    MimeMediaType(Vec<u8>),
    /// A value of another octet-string syntax (octetString, dateTime,
    /// resolution, rangeOfInteger, textWithLanguage, nameWithLanguage,
    /// uriScheme, reserved strings), kept as its tag and raw bytes.
    Other(u8, Vec<u8>),
    Collection(Vec<IppAttribute>),
    Array(Vec<AttributeValue>),
    OutOfBand(u8),
}

/// A named attribute.
#[derive(Debug)]
pub struct IppAttribute {
    pub name: Vec<u8>,
    pub value: AttributeValue,
}

/// The mathematical form of an attribute value.
pub enum ValueModel {
    Integer(i32),
    Boolean(bool),
    Enum(i32),
    /// A string-like value: its wire tag and its bytes.
    Str(u8, Seq<u8>),
    Collection(Seq<(Seq<u8>, ValueModel)>),
    Array(Seq<ValueModel>),
    OutOfBand(u8),
}

/// Tags of the octet-string syntaxes carried as `Other`.
pub open spec fn is_other_tag(t: u8) -> bool {
    t == 0x30 || t == 0x31 || t == 0x32 || t == 0x33 || t == 0x35 || t == 0x36 || t == 0x40
        || t == 0x43 || t == 0x46
}

/// Whether `t` is one of the tags carried as `Other`.
pub fn other_tag(t: u8) -> (r: bool)
    ensures
        r == is_other_tag(t),
{
    t == 0x30 || t == 0x31 || t == 0x32 || t == 0x33 || t == 0x35 || t == 0x36 || t == 0x40
        || t == 0x43 || t == 0x46
}

/// Tags whose value is a run of bytes, kept as they are.
pub open spec fn is_str_tag(t: u8) -> bool {
    is_other_tag(t) || t == TAG_TEXT || t == TAG_NAME || t == TAG_KEYWORD || t == TAG_URI || t == TAG_CHARSET
        || t == TAG_NATURAL_LANGUAGE || t == TAG_MIME_MEDIA_TYPE
}

pub open spec fn value_view(v: AttributeValue) -> ValueModel
    decreases v,
{
    match v {
        AttributeValue::Integer(n) => ValueModel::Integer(n),
        AttributeValue::Boolean(b) => ValueModel::Boolean(b),
        AttributeValue::Enum(n) => ValueModel::Enum(n),
        AttributeValue::Text(s) => ValueModel::Str(TAG_TEXT, s@),
        AttributeValue::Name(s) => ValueModel::Str(TAG_NAME, s@),
        AttributeValue::Keyword(s) => ValueModel::Str(TAG_KEYWORD, s@),
        AttributeValue::Uri(s) => ValueModel::Str(TAG_URI, s@),
        AttributeValue::Charset(s) => ValueModel::Str(TAG_CHARSET, s@),
        AttributeValue::NaturalLanguage(s) => ValueModel::Str(TAG_NATURAL_LANGUAGE, s@),
        AttributeValue::MimeMediaType(s) => ValueModel::Str(TAG_MIME_MEDIA_TYPE, s@),
        AttributeValue::Other(t, s) => ValueModel::Str(t, s@),
        AttributeValue::Collection(ms) => ValueModel::Collection(members_view(ms@)),
        AttributeValue::Array(vs) => ValueModel::Array(values_view(vs@)),
        AttributeValue::OutOfBand(t) => ValueModel::OutOfBand(t),
    }
}

pub open spec fn members_view(ms: Seq<IppAttribute>) -> Seq<(Seq<u8>, ValueModel)>
    decreases ms,
{
    if ms.len() == 0 {
        seq![]
    } else {
        members_view(ms.subrange(0, ms.len() - 1)).push(
            (ms[ms.len() - 1].name@, value_view(ms[ms.len() - 1].value)),
        )
    }
}

pub open spec fn values_view(vs: Seq<AttributeValue>) -> Seq<ValueModel>
    decreases vs,
{
    if vs.len() == 0 {
        seq![]
    } else {
        values_view(vs.subrange(0, vs.len() - 1)).push(value_view(vs[vs.len() - 1]))
    }
}

impl View for AttributeValue {
    type V = ValueModel;

    open spec fn view(&self) -> ValueModel {
        value_view(*self)
    }
}

impl View for IppAttribute {
    type V = (Seq<u8>, ValueModel);

    open spec fn view(&self) -> (Seq<u8>, ValueModel) {
        (self.name@, value_view(self.value))
    }
}

} // verus!

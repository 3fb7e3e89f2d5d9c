//! The value model shared by both directions of the conversion.
//!
//! All text is held as UTF-8 bytes, and the model of a piece of text is the
//! sequence of those bytes.

use vstd::prelude::*;
use vstd::slice::slice_to_vec;
use vstd::string::StringSliceAdditionalSpecFns;

verus! {

/// A decoded tag or field value.
///
/// A float is held as its decimal text: the shortest digits that read back as
/// the same 64-bit float, in the form the CSV writer gives a float cell.
#[derive(Debug, PartialEq, Eq)]
pub enum Value {
    Int64(i64),
    UInt64(u64),
    Float64(Vec<u8>),
    String(Vec<u8>),
    Boolean(bool),
}

/// The model of a [`Value`].
pub ghost enum ValueModel {
    Int64(i64),
    UInt64(u64),
    Float64(Seq<u8>),
    String(Seq<u8>),
    Boolean(bool),
}

impl View for Value {
    type V = ValueModel;

    open spec fn view(&self) -> ValueModel {
        match *self {
            Value::Int64(v) => ValueModel::Int64(v),
            Value::UInt64(v) => ValueModel::UInt64(v),
            Value::Float64(text) => ValueModel::Float64(text@),
            Value::String(text) => ValueModel::String(text@),
            Value::Boolean(v) => ValueModel::Boolean(v),
        }
    }
}

impl Value {
    /// The string whose text is `text`.
    pub fn string(text: &str) -> (value: Value)
        ensures
            value@ == ValueModel::String(text.spec_bytes()),
    {
        Value::String(slice_to_vec(text.as_bytes()))
    }

    /// The float whose decimal text is `digits`.
    pub fn float(digits: &str) -> (value: Value)
        ensures
            value@ == ValueModel::Float64(digits.spec_bytes()),
    {
        Value::Float64(slice_to_vec(digits.as_bytes()))
    }
}

/// One `key=value` pair of a point's tag set.
#[derive(Debug, PartialEq, Eq)]
pub struct Tag {
    pub key: Vec<u8>,
    pub value: Vec<u8>,
}

/// The model of a [`Tag`].
pub ghost struct TagModel {
    pub key: Seq<u8>,
    pub value: Seq<u8>,
}

impl View for Tag {
    type V = TagModel;

    open spec fn view(&self) -> TagModel {
        TagModel { key: self.key@, value: self.value@ }
    }
}

impl Tag {
    /// The tag `key=value`.
    pub fn new(key: &str, value: &str) -> (tag: Tag)
        ensures
            tag@ == (TagModel { key: key.spec_bytes(), value: value.spec_bytes() }),
    {
        Tag { key: slice_to_vec(key.as_bytes()), value: slice_to_vec(value.as_bytes()) }
    }
}

/// One `key=value` pair of a point's field set.
#[derive(Debug, PartialEq, Eq)]
pub struct Field {
    pub key: Vec<u8>,
    pub value: Value,
}

/// The model of a [`Field`].
pub ghost struct FieldModel {
    pub key: Seq<u8>,
    pub value: ValueModel,
}

impl View for Field {
    type V = FieldModel;

    open spec fn view(&self) -> FieldModel {
        FieldModel { key: self.key@, value: self.value@ }
    }
}

impl Field {
    /// The field `key=value`.
    pub fn new(key: &str, value: Value) -> (field: Field)
        ensures
            field@ == (FieldModel { key: key.spec_bytes(), value: value@ }),
    {
        Field { key: slice_to_vec(key.as_bytes()), value }
    }
}

/// One record of line protocol: a measurement, its tags and fields in the
/// order in which the line declares them, and the timestamp in nanoseconds
/// since the epoch where the line gives one.
#[derive(Debug, PartialEq, Eq)]
pub struct Point {
    pub measurement: Vec<u8>,
    pub tags: Vec<Tag>,
    pub fields: Vec<Field>,
    pub timestamp: Option<i64>,
}

/// The model of a [`Point`].
pub ghost struct PointModel {
    pub measurement: Seq<u8>,
    pub tags: Seq<TagModel>,
    pub fields: Seq<FieldModel>,
    pub timestamp: Option<i64>,
}

impl View for Point {
    type V = PointModel;

    open spec fn view(&self) -> PointModel {
        PointModel {
            measurement: self.measurement@,
            tags: self.tags@.map_values(|t: Tag| t@),
            fields: self.fields@.map_values(|f: Field| f@),
            timestamp: self.timestamp,
        }
    }
}

impl Point {
    /// The point of `measurement` with the tags `tags` and the fields
    /// `fields`, at `timestamp` where there is one.
    pub fn new(
        measurement: &str,
        tags: Vec<Tag>,
        fields: Vec<Field>,
        timestamp: Option<i64>,
    ) -> (point: Point)
        ensures
            point.measurement@ == measurement.spec_bytes(),
            point.tags == tags,
            point.fields == fields,
            point.timestamp == timestamp,
    {
        Point { measurement: slice_to_vec(measurement.as_bytes()), tags, fields, timestamp }
    }
}

} // verus!

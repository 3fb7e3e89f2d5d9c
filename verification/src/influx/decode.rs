//! The line-protocol decoder, which is the `influxdb_line_protocol` crate's.

use super::error::ConvertError;
use super::point::{Field, Point, PointModel, Tag, Value};
use influxdb_line_protocol::{parse_lines, FieldValue};
use vstd::prelude::*;
use vstd::string::StringSliceAdditionalSpecFns;
use vstd::utf8::valid_utf8;

verus! {

/// The decoder's error, of which nothing is read.
#[verifier::external_type_specification]
#[verifier::external_body]
pub struct ExLineError(influxdb_line_protocol::Error);

/// What the decoder makes of a piece of text: the points of its lines in
/// order, blank lines and comments left out, or `None` where one of the lines
/// is malformed.
pub uninterp spec fn decoded_points(text: Seq<u8>) -> Option<Seq<PointModel>>;

/// The models of `points`, in order.
pub open spec fn point_models(points: Seq<Point>) -> Seq<PointModel> {
    points.map_values(|p: Point| p@)
}

/// Reads `bytes` as UTF-8 text with `std::str::from_utf8`, which gives the
/// text made of just these bytes where they are well-formed UTF-8, and
/// nothing where they are not.
#[verifier::external_body]
pub(crate) fn as_text(bytes: &[u8]) -> (text: Option<&str>)
    ensures
        text is Some <==> valid_utf8(bytes@),
        text matches Some(t) ==> t.spec_bytes() == bytes@,
{
    std::str::from_utf8(bytes).ok()
}

/// Calls `influxdb_line_protocol::parse_lines` on `text` and copies each
/// parsed line into a [`Point`]: the measurement, the tags and the fields in
/// their order, each field value in the variant of its own, and the
/// timestamp. A float is copied as the text that `ryu::Buffer::format` gives
/// it, which is the text that the `csv` crate writes for a float. The result
/// is the decoder's first error where it reports one. Nothing is claimed of
/// what the decoder accepts: the contract only gives its result a name.
#[verifier::external_body]
fn parse_points(text: &str) -> (parsed: Result<Vec<Point>, influxdb_line_protocol::Error>)
    ensures
        match parsed {
            Ok(points) => decoded_points(text.spec_bytes()) == Some(point_models(points@)),
            Err(_) => decoded_points(text.spec_bytes()) is None,
        },
{
    parse_lines(text).map(|parsed| parsed.map(|line| Point::new(
        &line.series.measurement,
        line.series.tag_set.iter().flatten().map(|(k, v)| Tag::new(k, v)).collect(),
        line.field_set.iter().map(|(k, v)| Field::new(k, match v {
            FieldValue::I64(n) => Value::Int64(*n),
            FieldValue::U64(n) => Value::UInt64(*n),
            FieldValue::F64(x) => Value::float(ryu::Buffer::new().format(*x)),
            FieldValue::String(s) => Value::string(s),
            FieldValue::Boolean(b) => Value::Boolean(*b),
        })).collect(),
        line.timestamp,
    ))).collect()
}

/// The points that line `number` of an input holds, or the failure that the
/// line ends the conversion with.
pub open spec fn line_points(line: Seq<u8>, number: usize) -> Result<Seq<PointModel>, ConvertError> {
    if !valid_utf8(line) {
        Err(ConvertError::Encoding { line: number })
    } else {
        match decoded_points(line) {
            Some(points) => Ok(points),
            None => Err(ConvertError::Parse { line: number }),
        }
    }
}

/// Decodes one line of line protocol, which is line `number` of its input.
///
/// A blank line or a comment holds no point. A line that is not UTF-8 or that
/// the decoder refuses is an error, which names the line.
pub fn decode_line(line: &[u8], number: usize) -> (decoded: Result<Vec<Point>, ConvertError>)
    ensures
        match decoded {
            Ok(points) => line_points(line@, number) == Ok::<Seq<PointModel>, ConvertError>(
                point_models(points@),
            ),
            Err(e) => line_points(line@, number) == Err::<Seq<PointModel>, ConvertError>(e),
        },
{
    match as_text(line) {
        None => Err(ConvertError::Encoding { line: number }),
        Some(text) => match parse_points(text) {
            Ok(points) => Ok(points),
            Err(_) => Err(ConvertError::Parse { line: number }),
        },
    }
}

} // verus!

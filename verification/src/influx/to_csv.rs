//! Line protocol to CSV: one row for each point, its tag values, then its
//! field values, then its timestamp.

use super::decode::{decode_line, line_points, point_models};
use super::error::{run_matches, ConvertError, Stopped};
use super::point::{FieldModel, Point, PointModel, TagModel, Value, ValueModel};
use super::text::{
    decimal, decimal_nat, push_bytes, push_decimal_i64, push_decimal_u64, texts, NEWLINE,
};
use chrono::{TimeZone, Utc};
use vstd::prelude::*;
use vstd::slice::slice_subrange;

verus! {

/// The RFC 3339 text, in UTC, of the instant `nanos` nanoseconds after the
/// epoch, as `chrono` writes it.
pub uninterp spec fn rfc3339_utc(nanos: i64) -> Seq<u8>;

/// The CSV text of one record with the fields `cells`, its terminator
/// included, as the `csv` crate writes it.
pub uninterp spec fn csv_record(cells: Seq<Seq<u8>>) -> Seq<u8>;

/// Calls `chrono`'s `TimeZone::timestamp_nanos` on `Utc` and then
/// `DateTime::to_rfc3339`. Every 64-bit count of nanoseconds is an instant
/// that `chrono` can hold, and the text depends on nothing but the count.
#[verifier::external_body]
fn format_rfc3339(nanos: i64) -> (text: Vec<u8>)
    ensures
        text@ == rfc3339_utc(nanos),
{
    Utc.timestamp_nanos(nanos).to_rfc3339().into_bytes()
}

/// Writes `cells` as one record through a fresh `csv::Writer` over a byte
/// vector, with `Writer::write_record`, and takes the bytes back with
/// `Writer::into_inner`. A write into memory does not fail, and a writer's
/// first record has no length to keep to.
#[verifier::external_body]
fn write_csv_record(cells: &Vec<Vec<u8>>) -> (bytes: Vec<u8>)
    ensures
        bytes@ == csv_record(texts(cells@)),
{
    let mut writer = csv::Writer::from_writer(Vec::new());
    let _ = writer.write_record(cells);
    writer.into_inner().unwrap_or_default()
}

/// The models of `row`, in order.
pub open spec fn value_models(row: Seq<Value>) -> Seq<ValueModel> {
    row.map_values(|v: Value| v@)
}

/// The text `true`.
pub open spec fn true_text() -> Seq<u8> {
    seq!['t' as u8, 'r' as u8, 'u' as u8, 'e' as u8]
}

/// The text `false`.
pub open spec fn false_text() -> Seq<u8> {
    seq!['f' as u8, 'a' as u8, 'l' as u8, 's' as u8, 'e' as u8]
}

/// The text of the CSV cell that holds `value`: an integer in decimal, a
/// float in the decimal text it is held as, a string as it is, a boolean as
/// `true` or `false`.
pub open spec fn cell_text(value: ValueModel) -> Seq<u8> {
    match value {
        ValueModel::Int64(v) => decimal(v as int),
        ValueModel::UInt64(v) => decimal_nat(v as nat),
        ValueModel::Float64(text) => text,
        ValueModel::String(text) => text,
        ValueModel::Boolean(v) => if v {
            true_text()
        } else {
            false_text()
        },
    }
}

/// The row that holds `point` with the text `timestamp` for its timestamp:
/// the values of its tags, as strings and in the order of the tags; then the
/// values of its fields, in their order; then, where there is one, the text
/// of the timestamp as a string.
pub open spec fn row_with(point: PointModel, timestamp: Option<Seq<u8>>) -> Seq<ValueModel> {
    point.tags.map_values(|t: TagModel| ValueModel::String(t.value)) + point.fields.map_values(
        |f: FieldModel| f.value,
    ) + match timestamp {
        Some(text) => seq![ValueModel::String(text)],
        None => Seq::empty(),
    }
}

/// The row that holds `point`: its tag values, its field values and, where
/// the point has a timestamp, the RFC 3339 text of it in UTC.
pub open spec fn point_row(point: PointModel) -> Seq<ValueModel> {
    row_with(
        point,
        match point.timestamp {
            Some(nanos) => Some(rfc3339_utc(nanos)),
            None => None,
        },
    )
}

/// The CSV text of the row `row`.
pub open spec fn row_csv(row: Seq<ValueModel>) -> Seq<u8> {
    csv_record(row.map_values(|v: ValueModel| cell_text(v)))
}

/// The CSV text of `points`: the row of each, in order.
pub open spec fn points_csv(points: Seq<PointModel>) -> Seq<u8>
    decreases points.len(),
{
    if points.len() == 0 {
        Seq::empty()
    } else {
        points_csv(points.drop_last()) + row_csv(point_row(points.last()))
    }
}

/// What line `number` of an input becomes: the rows of its points, or the
/// failure that the line ends the conversion with.
pub open spec fn line_csv(line: Seq<u8>, number: usize) -> Result<Seq<u8>, ConvertError> {
    match line_points(line, number) {
        Ok(points) => Ok(points_csv(points)),
        Err(e) => Err(e),
    }
}

/// Where the line that starts at `start` ends: just behind its newline, or at
/// the end of `source` where no newline follows.
pub open spec fn line_end(source: Seq<u8>, start: int) -> int
    decreases source.len() - start,
{
    if start >= source.len() {
        source.len() as int
    } else if source[start] == NEWLINE {
        start + 1
    } else {
        line_end(source, start + 1)
    }
}

/// The lines of `source` from `start` on, each with its newline. The last one
/// has none where `source` does not end in one.
pub open spec fn lines_from(source: Seq<u8>, start: int) -> Seq<Seq<u8>>
    decreases source.len() - start,
    when 0 <= start
    via lines_from_decreases
{
    if start >= source.len() {
        Seq::empty()
    } else {
        seq![source.subrange(start, line_end(source, start))] + lines_from(
            source,
            line_end(source, start),
        )
    }
}

#[via_fn]
proof fn lines_from_decreases(source: Seq<u8>, start: int) {
    if start < source.len() {
        lemma_line_end_bounds(source, start);
    }
}

/// A line that starts inside `source` is not empty and ends inside it.
pub proof fn lemma_line_end_bounds(source: Seq<u8>, start: int)
    requires
        0 <= start < source.len(),
    ensures
        start < line_end(source, start) <= source.len(),
    decreases source.len() - start,
{
    if source[start] != NEWLINE {
        if start + 1 < source.len() {
            lemma_line_end_bounds(source, start + 1);
        } else {
            assert(line_end(source, start + 1) == source.len());
        }
    }
}

/// The physical lines of `source`: what stands between one newline and the
/// next, with the newline that ends it.
pub open spec fn physical_lines(source: Seq<u8>) -> Seq<Seq<u8>> {
    lines_from(source, 0)
}

/// The lines `lines` one behind the other.
pub open spec fn joined(lines: Seq<Seq<u8>>) -> Seq<u8>
    decreases lines.len(),
{
    if lines.len() == 0 {
        Seq::empty()
    } else {
        lines[0] + joined(lines.skip(1))
    }
}

/// Whether `line` is one line: not empty, and without a newline before its
/// last byte.
pub open spec fn is_one_line(line: Seq<u8>) -> bool {
    line.len() > 0 && forall|i: int| 0 <= i < line.len() - 1 ==> #[trigger] line[i] != NEWLINE
}

/// No newline stands before the last byte of a line, and a line that ends
/// before the end of `source` ends in a newline.
pub proof fn lemma_line_end_is_first_newline(source: Seq<u8>, start: int)
    requires
        0 <= start < source.len(),
    ensures
        forall|i: int| start <= i < line_end(source, start) - 1 ==> #[trigger] source[i] != NEWLINE,
        line_end(source, start) < source.len() ==> source[line_end(source, start) - 1] == NEWLINE,
    decreases source.len() - start,
{
    if source[start] != NEWLINE {
        if start + 1 < source.len() {
            lemma_line_end_is_first_newline(source, start + 1);
        } else {
            assert(line_end(source, start + 1) == source.len());
        }
    }
}

/// The physical lines of a text are its bytes and nothing else: one behind
/// the other they give the text back, each of them is one line, and each but
/// the last ends in a newline.
pub proof fn lemma_lines_cover_source(source: Seq<u8>, start: int)
    requires
        0 <= start <= source.len(),
    ensures
        joined(lines_from(source, start)) == source.skip(start),
        forall|k: int|
            0 <= k < lines_from(source, start).len() ==> is_one_line(
                #[trigger] lines_from(source, start)[k],
            ),
        forall|k: int|
            0 <= k < lines_from(source, start).len() - 1 ==> (#[trigger] lines_from(
                source,
                start,
            )[k]).last() == NEWLINE,
    decreases source.len() - start,
{
    let lines = lines_from(source, start);
    if start >= source.len() {
        assert(source.skip(start) =~= Seq::<u8>::empty());
    } else {
        let end = line_end(source, start);
        let first = source.subrange(start, end);
        let rest = lines_from(source, end);
        lemma_line_end_bounds(source, start);
        lemma_line_end_is_first_newline(source, start);
        lemma_lines_cover_source(source, end);
        assert(lines.skip(1) =~= rest);
        assert(lines[0] == first);
        assert(joined(lines) =~= source.skip(start));
        assert(is_one_line(first)) by {
            assert forall|i: int| 0 <= i < first.len() - 1 implies #[trigger] first[i] != NEWLINE by {
                assert(first[i] == source[start + i]);
            }
        }
        assert forall|k: int| 0 <= k < lines.len() implies is_one_line(#[trigger] lines[k]) by {
            if k > 0 {
                assert(lines[k] == rest[k - 1]);
            }
        }
        assert forall|k: int| 0 <= k < lines.len() - 1 implies (#[trigger] lines[k]).last()
            == NEWLINE by {
            if k > 0 {
                assert(lines[k] == rest[k - 1]);
            } else {
                assert(rest.len() > 0);
                assert(end < source.len());
                assert(first.last() == source[end - 1]);
            }
        }
    }
}

/// The physical lines of `source`, one behind the other, are `source`.
pub proof fn lemma_physical_lines_join(source: Seq<u8>)
    ensures
        joined(physical_lines(source)) == source,
{
    lemma_lines_cover_source(source, 0);
    assert(source.skip(0) == source);
}

/// What the lines `lines` become, the first of them being line 1: the rows
/// of the points of all lines before the first that fails, and that failure
/// where there is one.
pub open spec fn lines_csv(lines: Seq<Seq<u8>>) -> (Seq<u8>, Option<ConvertError>)
    decreases lines.len(),
{
    if lines.len() == 0 {
        (Seq::empty(), None)
    } else {
        let before = lines_csv(lines.drop_last());
        if before.1 is Some {
            before
        } else {
            match line_csv(lines.last(), lines.len() as usize) {
                Ok(rows) => (before.0 + rows, None),
                Err(e) => (before.0, Some(e)),
            }
        }
    }
}

impl Value {
    /// The text of the CSV cell that holds this value.
    pub fn to_cell(&self) -> (cell: Vec<u8>)
        ensures
            cell@ == cell_text(self@),
    {
        let mut cell: Vec<u8> = Vec::new();
        match self {
            Value::Int64(v) => push_decimal_i64(&mut cell, *v),
            Value::UInt64(v) => push_decimal_u64(&mut cell, *v),
            Value::Float64(text) => push_bytes(&mut cell, text.as_slice()),
            Value::String(text) => push_bytes(&mut cell, text.as_slice()),
            Value::Boolean(v) => {
                if *v {
                    cell.push('t' as u8);
                    cell.push('r' as u8);
                    cell.push('u' as u8);
                    cell.push('e' as u8);
                } else {
                    cell.push('f' as u8);
                    cell.push('a' as u8);
                    cell.push('l' as u8);
                    cell.push('s' as u8);
                    cell.push('e' as u8);
                }
            },
        }
        cell
    }

    /// A value equal to this one.
    pub fn duplicate(&self) -> (copy: Value)
        ensures
            copy@ == self@,
    {
        match self {
            Value::Int64(v) => Value::Int64(*v),
            Value::UInt64(v) => Value::UInt64(*v),
            Value::Float64(text) => {
                let mut copy: Vec<u8> = Vec::new();
                push_bytes(&mut copy, text.as_slice());
                Value::Float64(copy)
            },
            Value::String(text) => {
                let mut copy: Vec<u8> = Vec::new();
                push_bytes(&mut copy, text.as_slice());
                Value::String(copy)
            },
            Value::Boolean(v) => Value::Boolean(*v),
        }
    }
}

/// The row of `point` with the text `timestamp` for its timestamp: its tag
/// values, then its field values, then that text where there is one.
pub fn row_of(point: &Point, timestamp: Option<Vec<u8>>) -> (row: Vec<Value>)
    ensures
        value_models(row@) == row_with(
            point@,
            match timestamp {
                Some(text) => Some(text@),
                None => None,
            },
        ),
{
    let mut row: Vec<Value> = Vec::new();
    let ghost tags = point@.tags.map_values(|t: TagModel| ValueModel::String(t.value));
    let ghost fields = point@.fields.map_values(|f: FieldModel| f.value);
    let mut i: usize = 0;
    while i < point.tags.len()
        invariant
            i <= point.tags@.len(),
            tags == point@.tags.map_values(|t: TagModel| ValueModel::String(t.value)),
            value_models(row@) == tags.take(i as int),
        decreases point.tags@.len() - i,
    {
        let mut text: Vec<u8> = Vec::new();
        push_bytes(&mut text, point.tags[i].value.as_slice());
        row.push(Value::String(text));
        assert(value_models(row@) == tags.take(i + 1)) by {
            assert(point@.tags[i as int] == point.tags@[i as int]@);
            assert(value_models(row@) =~= tags.take(i as int).push(tags[i as int]));
            assert(tags.take(i + 1) =~= tags.take(i as int).push(tags[i as int]));
        }
        i += 1;
    }
    assert(tags.take(i as int) == tags);
    let mut j: usize = 0;
    while j < point.fields.len()
        invariant
            j <= point.fields@.len(),
            fields == point@.fields.map_values(|f: FieldModel| f.value),
            value_models(row@) == tags + fields.take(j as int),
        decreases point.fields@.len() - j,
    {
        row.push(point.fields[j].value.duplicate());
        assert(value_models(row@) == tags + fields.take(j + 1)) by {
            assert(point@.fields[j as int] == point.fields@[j as int]@);
            assert(value_models(row@) =~= (tags + fields.take(j as int)).push(fields[j as int]));
            assert(fields.take(j + 1) =~= fields.take(j as int).push(fields[j as int]));
        }
        j += 1;
    }
    assert(fields.take(j as int) == fields);
    match timestamp {
        Some(text) => {
            let ghost cell = ValueModel::String(text@);
            row.push(Value::String(text));
            assert(value_models(row@) =~= tags + fields + seq![cell]);
        },
        None => {
            assert(value_models(row@) =~= tags + fields + Seq::<ValueModel>::empty());
        },
    }
    row
}

/// The row of `point`: its tag values, then its field values, then its
/// timestamp as RFC 3339 text in UTC where it has one.
pub fn point_to_row(point: &Point) -> (row: Vec<Value>)
    ensures
        value_models(row@) == point_row(point@),
{
    let timestamp = match point.timestamp {
        Some(nanos) => Some(format_rfc3339(nanos)),
        None => None,
    };
    row_of(point, timestamp)
}

/// The CSV text of `row`: one record, with a cell for each value.
pub fn row_to_csv(row: &Vec<Value>) -> (csv: Vec<u8>)
    ensures
        csv@ == row_csv(value_models(row@)),
{
    let mut cells: Vec<Vec<u8>> = Vec::new();
    let ghost wanted = value_models(row@).map_values(|v: ValueModel| cell_text(v));
    let mut i: usize = 0;
    while i < row.len()
        invariant
            i <= row@.len(),
            wanted == value_models(row@).map_values(|v: ValueModel| cell_text(v)),
            texts(cells@) == wanted.take(i as int),
        decreases row@.len() - i,
    {
        cells.push(row[i].to_cell());
        assert(texts(cells@) =~= wanted.take(i as int).push(wanted[i as int]));
        assert(wanted.take(i + 1) =~= wanted.take(i as int).push(wanted[i as int]));
        i += 1;
    }
    assert(wanted.take(i as int) == wanted);
    write_csv_record(&cells)
}

/// The CSV text of `points`: one row for each, in order.
pub fn points_to_csv(points: &Vec<Point>) -> (csv: Vec<u8>)
    ensures
        csv@ == points_csv(point_models(points@)),
{
    let mut csv: Vec<u8> = Vec::new();
    let ghost models = point_models(points@);
    let mut i: usize = 0;
    while i < points.len()
        invariant
            i <= points@.len(),
            models == point_models(points@),
            csv@ == points_csv(models.take(i as int)),
        decreases points@.len() - i,
    {
        let row = point_to_row(&points[i]);
        let record = row_to_csv(&row);
        push_bytes(&mut csv, record.as_slice());
        assert(models.take(i + 1).drop_last() == models.take(i as int));
        i += 1;
    }
    assert(models.take(i as int) == models);
    csv
}

/// Converts one line of line protocol, which is line `number` of its input,
/// to CSV: a row for each point that the line holds, so no row for a blank
/// line or a comment. A line that is not UTF-8 or that is malformed gives the
/// error and no row.
pub fn line_to_csv(line: &[u8], number: usize) -> (converted: Result<Vec<u8>, ConvertError>)
    ensures
        match converted {
            Ok(csv) => line_csv(line@, number) == Ok::<Seq<u8>, ConvertError>(csv@),
            Err(e) => line_csv(line@, number) == Err::<Seq<u8>, ConvertError>(e),
        },
{
    match decode_line(line, number) {
        Ok(points) => Ok(points_to_csv(&points)),
        Err(e) => Err(e),
    }
}

/// Converts line protocol to CSV, one physical line of `source` at a time.
///
/// Each point becomes one row, in the order of the input, and no header is
/// written. The first line that is not UTF-8 or that is malformed stops the
/// conversion, with the number of that line and the rows of the lines before
/// it.
pub fn line_protocol_to_csv(source: &[u8]) -> (converted: Result<Vec<u8>, Stopped>)
    ensures
        run_matches(converted, lines_csv(physical_lines(source@))),
{
    let mut csv: Vec<u8> = Vec::new();
    let ghost mut done: Seq<Seq<u8>> = Seq::empty();
    let mut count: usize = 0;
    let mut start: usize = 0;
    while start < source.len()
        invariant
            start <= source@.len(),
            count <= start,
            count == done.len(),
            done + lines_from(source@, start as int) == physical_lines(source@),
            lines_csv(done) == (csv@, None::<ConvertError>),
        decreases source@.len() - start,
    {
        let mut end: usize = start;
        while end < source.len() && source[end] != NEWLINE
            invariant
                start <= end <= source@.len(),
                line_end(source@, start as int) == line_end(source@, end as int),
            decreases source@.len() - end,
        {
            end += 1;
        }
        if end < source.len() {
            end += 1;
        }
        proof {
            lemma_line_end_bounds(source@, start as int);
        }
        let line = slice_subrange(source, start, end);
        let ghost next = done.push(line@);
        assert(next + lines_from(source@, end as int) == physical_lines(source@)) by {
            assert(next + lines_from(source@, end as int) =~= done + (seq![line@] + lines_from(
                source@,
                end as int,
            )));
        }
        assert(next.drop_last() == done);
        count += 1;
        match line_to_csv(line, count) {
            Ok(rows) => {
                push_bytes(&mut csv, rows.as_slice());
            },
            Err(cause) => {
                proof {
                    lemma_failure_stays(next, lines_from(source@, end as int));
                }
                return Err(Stopped { cause, written: csv });
            },
        }
        proof {
            done = next;
        }
        start = end;
    }
    assert(done + Seq::<Seq<u8>>::empty() == done);
    Ok(csv)
}

/// Once the lines `lines` have failed, no line behind them mends it or adds
/// a row.
pub proof fn lemma_failure_stays(lines: Seq<Seq<u8>>, more: Seq<Seq<u8>>)
    requires
        lines_csv(lines).1 is Some,
    ensures
        lines_csv(lines + more) == lines_csv(lines),
    decreases more.len(),
{
    if more.len() == 0 {
        assert(lines + more == lines);
    } else {
        lemma_failure_stays(lines, more.drop_last());
        assert((lines + more).drop_last() == lines + more.drop_last());
    }
}

/// A line that fails stops the conversion: where one of the lines is not
/// UTF-8 or is malformed, the conversion ends in a failure, whatever the
/// other lines hold.
pub proof fn lemma_failing_line_stops(lines: Seq<Seq<u8>>, k: int)
    requires
        0 <= k < lines.len(),
        line_csv(lines[k], (k + 1) as usize) is Err,
    ensures
        lines_csv(lines).1 is Some,
    decreases lines.len(),
{
    if k < lines.len() - 1 {
        lemma_failing_line_stops(lines.drop_last(), k);
    }
}

/// The layout of a row: a point with `T` tags, `F` fields and a timestamp
/// gives a row of `T + F + 1` cells, which are the tag values in the order of
/// the tags, then the field values in the order of the fields, then the
/// timestamp. A point without a timestamp gives the `T + F` cells before it.
pub proof fn lemma_row_layout(point: PointModel)
    ensures
        point.timestamp is Some ==> point_row(point).len() == point.tags.len() + point.fields.len()
            + 1,
        point.timestamp is None ==> point_row(point).len() == point.tags.len()
            + point.fields.len(),
        row_csv(point_row(point)) == csv_record(
            point_row(point).map_values(|v: ValueModel| cell_text(v)),
        ),
        point_row(point).map_values(|v: ValueModel| cell_text(v)).len() == point_row(point).len(),
        forall|i: int|
            0 <= i < point.tags.len() ==> #[trigger] point_row(point)[i] == ValueModel::String(
                point.tags[i].value,
            ),
        forall|j: int|
            0 <= j < point.fields.len() ==> #[trigger] point_row(point)[point.tags.len() + j]
                == point.fields[j].value,
        point.timestamp matches Some(nanos) ==> point_row(point)[(point.tags.len()
            + point.fields.len()) as int] == ValueModel::String(rfc3339_utc(nanos)),
{
}

} // verus!

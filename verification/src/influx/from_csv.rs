//! CSV to line protocol: one line for each record of a CSV file, named after
//! the file, with each column as a tag, a field or the timestamp.

use super::decode::as_text;
use super::error::ConvertError;
use super::text::{
    decimal, integer_i64, parse_i64, push_bytes, push_decimal_i64, same_bytes, texts, COMMA, DOT,
    EQUALS, NEWLINE, QUOTE, SLASH, SPACE,
};
use influxdb_line_protocol::FieldValue;
use vstd::prelude::*;
use vstd::slice::slice_subrange;
use vstd::string::StringSliceAdditionalSpecFns;
use vstd::utf8::valid_utf8;

verus! {

/// The CSV reader's error, of which nothing is read.
#[verifier::external_type_specification]
#[verifier::external_body]
pub struct ExCsvError(csv::Error);

/// The header of the CSV text `content`, as the `csv` crate reads it, or
/// `None` where the reader reports an error instead.
pub uninterp spec fn csv_headers(content: Seq<u8>) -> Option<Seq<Seq<u8>>>;

/// Why the CSV reader gave an error in the place of a record.
#[derive(Debug, Clone, Copy, PartialEq, Eq, Structural)]
pub enum Refusal {
    /// The record has not as many cells as the first record of its file.
    Length,
    /// Anything else.
    Unreadable,
}

/// The records behind the header of the CSV text `content`, in order, as the
/// `csv` crate reads them: the cells of each, or, for a record in whose place
/// the reader reports an error, the kind of that error.
pub uninterp spec fn csv_records(content: Seq<u8>) -> Seq<Result<Seq<Seq<u8>>, Refusal>>;

/// The number that the text `cell` spells, rendered as a float field of line
/// protocol, or `None` where the text spells no number.
pub uninterp spec fn number_text(cell: Seq<u8>) -> Option<Seq<u8>>;

/// What `records` stand for in the model: the cells of each record that was
/// read, and the refusal of each that was not.
pub open spec fn record_models(records: Seq<Result<Vec<Vec<u8>>, Refusal>>) -> Seq<
    Result<Seq<Seq<u8>>, Refusal>,
> {
    records.map_values(
        |r: Result<Vec<Vec<u8>>, Refusal>|
            match r {
                Ok(cells) => Ok(texts(cells@)),
                Err(refusal) => Err(refusal),
            },
    )
}

/// Reads the header of `content` with `csv::Reader::headers`, on a reader
/// with the crate's default settings, and copies its cells.
#[verifier::external_body]
pub(crate) fn read_headers(content: &[u8]) -> (headers: Result<Vec<Vec<u8>>, csv::Error>)
    ensures
        match headers {
            Ok(names) => csv_headers(content@) == Some(texts(names@)),
            Err(_) => csv_headers(content@) is None,
        },
{
    csv::Reader::from_reader(content).headers()
        .map(|names| names.iter().map(|name| name.as_bytes().to_vec()).collect())
}

/// Reads the records of `content` with `csv::Reader::records`, on a reader
/// with the crate's default settings, which takes the first record for the
/// header and leaves it out. Each record is copied cell by cell. Of an error
/// of the reader only its kind is kept: `csv::ErrorKind::UnequalLengths`, or
/// another.
#[verifier::external_body]
pub(crate) fn read_records(content: &[u8]) -> (records: Vec<Result<Vec<Vec<u8>>, Refusal>>)
    ensures
        record_models(records@) == csv_records(content@),
{
    csv::Reader::from_reader(content).records()
        .map(|r| match r {
            Ok(cells) => Ok(cells.iter().map(|cell| cell.as_bytes().to_vec()).collect()),
            Err(e) => Err(match e.kind() {
                csv::ErrorKind::UnequalLengths { .. } => Refusal::Length,
                _ => Refusal::Unreadable,
            }),
        })
        .collect()
}

/// Reads `text` as a number with `str::parse`, as a 64-bit float, and gives
/// the number as `influxdb_line_protocol` displays a `FieldValue::F64`, which
/// is how `std` displays the float.
#[verifier::external_body]
fn read_number(text: &str) -> (number: Option<Vec<u8>>)
    ensures
        match number {
            Some(digits) => number_text(text.spec_bytes()) == Some(digits@),
            None => number_text(text.spec_bytes()) is None,
        },
{
    text.parse().ok().map(|x| FieldValue::F64(x).to_string().into_bytes())
}

/// What a column of a CSV file holds.
#[derive(Debug, Clone, Copy, PartialEq, Eq, Structural)]
pub enum ColumnKind {
    Tag,
    Timestamp,
    Field,
}

/// The names by which the columns of a CSV file are told apart.
pub ghost struct Roles {
    /// The name of the timestamp column.
    pub timestamp: Seq<u8>,
    /// The names of the tag columns.
    pub tags: Seq<Seq<u8>>,
}

impl Roles {
    /// What the column named `name` holds: a tag where the name is one of
    /// the tag names; else the timestamp where it is the timestamp name;
    /// else a field.
    pub open spec fn kind(self, name: Seq<u8>) -> ColumnKind {
        if self.tags.contains(name) {
            ColumnKind::Tag
        } else if name == self.timestamp {
            ColumnKind::Timestamp
        } else {
            ColumnKind::Field
        }
    }

    /// How many of the first `n` columns of `headers` hold `kind`.
    pub open spec fn count(self, headers: Seq<Seq<u8>>, kind: ColumnKind, n: int) -> nat
        decreases n,
    {
        if n <= 0 {
            0
        } else if self.kind(headers[n - 1]) == kind {
            self.count(headers, kind, n - 1) + 1
        } else {
            self.count(headers, kind, n - 1)
        }
    }

    /// The first of the first `n` columns of `headers` that holds the
    /// timestamp, or -1 where none of them does.
    pub open spec fn first_timestamp(self, headers: Seq<Seq<u8>>, n: int) -> int
        decreases n,
    {
        if n <= 0 {
            -1
        } else if self.first_timestamp(headers, n - 1) >= 0 {
            self.first_timestamp(headers, n - 1)
        } else if self.kind(headers[n - 1]) == ColumnKind::Timestamp {
            n - 1
        } else {
            -1
        }
    }

    /// The tags of a record among its first `n` columns: `,name=value` for
    /// each tag column, in the order of the columns.
    pub open spec fn tag_tokens(self, headers: Seq<Seq<u8>>, record: Seq<Seq<u8>>, n: int) -> Seq<
        u8,
    >
        decreases n,
    {
        if n <= 0 {
            Seq::empty()
        } else if self.kind(headers[n - 1]) == ColumnKind::Tag {
            self.tag_tokens(headers, record, n - 1) + seq![COMMA] + headers[n - 1] + seq![EQUALS]
                + record[n - 1]
        } else {
            self.tag_tokens(headers, record, n - 1)
        }
    }

    /// The fields of a record among its first `n` columns: `name=value` for
    /// each field column, in the order of the columns, a space before the
    /// first and a comma before each of the others.
    pub open spec fn field_tokens(
        self,
        headers: Seq<Seq<u8>>,
        record: Seq<Seq<u8>>,
        n: int,
    ) -> Seq<u8>
        decreases n,
    {
        if n <= 0 {
            Seq::empty()
        } else if self.kind(headers[n - 1]) == ColumnKind::Field {
            self.field_tokens(headers, record, n - 1) + seq![
                if self.count(headers, ColumnKind::Field, n - 1) == 0 {
                    SPACE
                } else {
                    COMMA
                },
            ] + headers[n - 1] + seq![EQUALS] + field_text(record[n - 1])
        } else {
            self.field_tokens(headers, record, n - 1)
        }
    }
}

/// The number that the cell `cell` is taken for, or `None` where it is taken
/// for a string: a cell is a number where it is text that spells one.
pub open spec fn cell_number(cell: Seq<u8>) -> Option<Seq<u8>> {
    if valid_utf8(cell) {
        number_text(cell)
    } else {
        None
    }
}

/// The value of a field whose cell is `cell` and is taken for `number`: the
/// number bare where there is one, else the cell between double quotes.
pub open spec fn inferred_text(cell: Seq<u8>, number: Option<Seq<u8>>) -> Seq<u8> {
    match number {
        Some(digits) => digits,
        None => seq![QUOTE] + cell + seq![QUOTE],
    }
}

/// The value of a field whose cell is `cell`: the number bare where the cell
/// spells one, else the cell between double quotes.
pub open spec fn field_text(cell: Seq<u8>) -> Seq<u8> {
    inferred_text(cell, cell_number(cell))
}

/// The nanoseconds of a timestamp cell, which holds milliseconds: a million
/// times the integer that the cell spells. `None` where the cell spells no
/// 64-bit integer or the product is none.
pub open spec fn cell_nanos(cell: Seq<u8>) -> Option<i64> {
    match integer_i64(cell) {
        Some(millis) => if i64::MIN <= millis * 1_000_000 <= i64::MAX {
            Some((millis * 1_000_000) as i64)
        } else {
            None
        },
        None => None,
    }
}

/// The line of the record `record` under the header `headers`, which is
/// record `number` of the file of `measurement`: the measurement, the tags,
/// the fields, the timestamp in nanoseconds where a column holds it, and a
/// newline.
///
/// The record is refused where it has not as many cells as the header, where
/// no column is a field, where more than one column is the timestamp, and
/// where the timestamp cell gives no nanoseconds.
pub open spec fn record_line(
    roles: Roles,
    measurement: Seq<u8>,
    headers: Seq<Seq<u8>>,
    record: Seq<Seq<u8>>,
    number: usize,
) -> Result<Seq<u8>, ConvertError> {
    let n = headers.len() as int;
    let at = roles.first_timestamp(headers, n);
    let head = measurement + roles.tag_tokens(headers, record, n) + roles.field_tokens(
        headers,
        record,
        n,
    );
    if record.len() != headers.len() {
        Err(ConvertError::Schema { record: number })
    } else if roles.count(headers, ColumnKind::Field, n) == 0 {
        Err(ConvertError::Schema { record: number })
    } else if roles.count(headers, ColumnKind::Timestamp, n) > 1 {
        Err(ConvertError::Schema { record: number })
    } else if at < 0 {
        Ok(head + seq![NEWLINE])
    } else {
        match cell_nanos(record[at]) {
            Some(nanos) => Ok(head + seq![SPACE] + decimal(nanos as int) + seq![NEWLINE]),
            None => Err(ConvertError::Type { record: number }),
        }
    }
}

/// The index just behind the last `b` in `s`, or 0 where `s` holds no `b`.
pub open spec fn after_last(s: Seq<u8>, b: u8) -> int
    decreases s.len(),
{
    if s.len() == 0 {
        0
    } else if s.last() == b {
        s.len() as int
    } else {
        after_last(s.drop_last(), b)
    }
}

/// The file name of `path`: what stands behind its last `/`.
pub open spec fn file_name(path: Seq<u8>) -> Seq<u8> {
    path.skip(after_last(path, SLASH))
}

/// The stem of the file name `name`: what stands before its last `.`, or the
/// whole name where it holds no `.` or none but a leading one.
pub open spec fn file_stem(name: Seq<u8>) -> Seq<u8> {
    if after_last(name, DOT) <= 1 {
        name
    } else {
        name.take(after_last(name, DOT) - 1)
    }
}

/// The measurement that a file at `path` holds: the stem of its file name.
/// `None` where the path ends in `/`, `.` or `..` and so names no file.
pub open spec fn path_measurement(path: Seq<u8>) -> Option<Seq<u8>> {
    let name = file_name(path);
    if name.len() == 0 || name == seq![DOT] || name == seq![DOT, DOT] {
        None
    } else {
        Some(file_stem(name))
    }
}

/// The lines of the records `records` of one file, the first being record 1,
/// with the failure that ended the file where there was one: each record
/// before the first failure gives a line, and no record behind it does. A
/// record fails where the reader refused it and where it gives no line.
pub open spec fn records_lines(
    roles: Roles,
    measurement: Seq<u8>,
    headers: Seq<Seq<u8>>,
    records: Seq<Result<Seq<Seq<u8>>, Refusal>>,
) -> (Seq<u8>, Option<ConvertError>)
    decreases records.len(),
{
    if records.len() == 0 {
        (Seq::empty(), None)
    } else {
        let before = records_lines(roles, measurement, headers, records.drop_last());
        if before.1 is Some {
            before
        } else {
            match records.last() {
                Err(Refusal::Length) => (
                    before.0,
                    Some(ConvertError::Schema { record: records.len() as usize }),
                ),
                Err(Refusal::Unreadable) => (
                    before.0,
                    Some(ConvertError::Csv { record: records.len() as usize }),
                ),
                Ok(record) => match record_line(
                    roles,
                    measurement,
                    headers,
                    record,
                    records.len() as usize,
                ) {
                    Ok(line) => (before.0 + line, None),
                    Err(e) => (before.0, Some(e)),
                },
            }
        }
    }
}

/// The lines of the CSV file at `path` with the text `content`, with the
/// failure that ended the file where there was one.
pub open spec fn file_lines(roles: Roles, path: Seq<u8>, content: Seq<u8>) -> (
    Seq<u8>,
    Option<ConvertError>,
) {
    match path_measurement(path) {
        None => (Seq::empty(), Some(ConvertError::NoFileName)),
        Some(measurement) => match csv_headers(content) {
            None => (Seq::empty(), Some(ConvertError::Csv { record: 0 })),
            Some(headers) => records_lines(roles, measurement, headers, csv_records(content)),
        },
    }
}

/// Tells what the column named `name` holds.
pub fn classify(name: &[u8], timestamp: &[u8], tags: &Vec<Vec<u8>>) -> (kind: ColumnKind)
    ensures
        kind == (Roles { timestamp: timestamp@, tags: texts(tags@) }).kind(name@),
{
    let ghost names = texts(tags@);
    let mut i: usize = 0;
    while i < tags.len()
        invariant
            i <= tags@.len(),
            names == texts(tags@),
            !names.take(i as int).contains(name@),
        decreases tags@.len() - i,
    {
        if same_bytes(tags[i].as_slice(), name) {
            assert(names[i as int] == name@);
            return ColumnKind::Tag;
        }
        assert(names.take(i + 1) == names.take(i as int).push(names[i as int]));
        i += 1;
    }
    assert(names.take(i as int) == names);
    if same_bytes(name, timestamp) {
        ColumnKind::Timestamp
    } else {
        ColumnKind::Field
    }
}

/// Appends the value of a field whose cell is `cell` and is taken for
/// `number` to `out`: the number bare where there is one, else the cell
/// between double quotes.
pub fn push_inferred_text(out: &mut Vec<u8>, cell: &[u8], number: &Option<Vec<u8>>)
    ensures
        final(out)@ == old(out)@ + inferred_text(
            cell@,
            match *number {
                Some(digits) => Some(digits@),
                None => None,
            },
        ),
{
    match number {
        Some(digits) => {
            push_bytes(out, digits.as_slice());
        },
        None => {
            out.push(QUOTE);
            push_bytes(out, cell);
            out.push(QUOTE);
            assert(out@ == old(out)@ + (seq![QUOTE] + cell@ + seq![QUOTE]));
        },
    }
}

/// Appends the value of a field whose cell is `cell` to `out`: the number
/// bare where the cell spells one, else the cell between double quotes.
pub fn push_field_text(out: &mut Vec<u8>, cell: &[u8])
    ensures
        final(out)@ == old(out)@ + field_text(cell@),
{
    let number = match as_text(cell) {
        Some(text) => read_number(text),
        None => None,
    };
    push_inferred_text(out, cell, &number);
}

/// The nanoseconds of a timestamp are a million times its milliseconds,
/// wherever a timestamp cell gives nanoseconds; and a cell gives them
/// wherever it spells a 64-bit integer of milliseconds whose nanoseconds are
/// one too.
pub proof fn lemma_nanos_are_a_million_millis(cell: Seq<u8>)
    ensures
        cell_nanos(cell) matches Some(nanos) ==> integer_i64(cell) matches Some(millis) && nanos
            == millis * 1_000_000,
        cell_nanos(cell) is None ==> (integer_i64(cell) matches Some(millis) ==> !(i64::MIN
            <= millis * 1_000_000 <= i64::MAX)),
{
}

/// The nanoseconds of a timestamp cell, which holds milliseconds.
pub fn timestamp_nanos(cell: &[u8]) -> (nanos: Option<i64>)
    ensures
        nanos == cell_nanos(cell@),
{
    match parse_i64(cell) {
        Some(millis) => millis.checked_mul(1_000_000),
        None => None,
    }
}

/// Encodes the record `record` under the header `headers` as one line of
/// line protocol for `measurement`. `number` is the number of the record in
/// its file, which the error names where the record is refused.
pub fn encode_record(
    measurement: &[u8],
    headers: &Vec<Vec<u8>>,
    record: &Vec<Vec<u8>>,
    timestamp: &[u8],
    tags: &Vec<Vec<u8>>,
    number: usize,
) -> (line: Result<Vec<u8>, ConvertError>)
    ensures
        match line {
            Ok(bytes) => record_line(
                Roles { timestamp: timestamp@, tags: texts(tags@) },
                measurement@,
                texts(headers@),
                texts(record@),
                number,
            ) == Ok::<Seq<u8>, ConvertError>(bytes@),
            Err(e) => record_line(
                Roles { timestamp: timestamp@, tags: texts(tags@) },
                measurement@,
                texts(headers@),
                texts(record@),
                number,
            ) == Err::<Seq<u8>, ConvertError>(e),
        },
{
    let ghost roles = Roles { timestamp: timestamp@, tags: texts(tags@) };
    let ghost names = texts(headers@);
    let ghost cells = texts(record@);
    if record.len() != headers.len() {
        return Err(ConvertError::Schema { record: number });
    }
    let mut tag_part: Vec<u8> = Vec::new();
    let mut field_part: Vec<u8> = Vec::new();
    let mut fields: usize = 0;
    let mut timestamps: usize = 0;
    let mut at: usize = 0;
    let mut i: usize = 0;
    while i < headers.len()
        invariant
            i <= headers@.len(),
            headers@.len() == record@.len(),
            roles == (Roles { timestamp: timestamp@, tags: texts(tags@) }),
            names == texts(headers@),
            cells == texts(record@),
            tag_part@ == roles.tag_tokens(names, cells, i as int),
            field_part@ == roles.field_tokens(names, cells, i as int),
            fields == roles.count(names, ColumnKind::Field, i as int),
            timestamps == roles.count(names, ColumnKind::Timestamp, i as int),
            fields <= i,
            timestamps <= i,
            timestamps == 0 <==> roles.first_timestamp(names, i as int) < 0,
            timestamps > 0 ==> at == roles.first_timestamp(names, i as int),
            timestamps > 0 ==> at < i,
        decreases headers@.len() - i,
    {
        let name = headers[i].as_slice();
        let cell = record[i].as_slice();
        assert(names[i as int] == name@);
        assert(cells[i as int] == cell@);
        match classify(name, timestamp, tags) {
            ColumnKind::Tag => {
                tag_part.push(COMMA);
                push_bytes(&mut tag_part, name);
                tag_part.push(EQUALS);
                push_bytes(&mut tag_part, cell);
                assert(tag_part@ == roles.tag_tokens(names, cells, i as int) + seq![COMMA] + name@
                    + seq![EQUALS] + cell@);
            },
            ColumnKind::Timestamp => {
                if timestamps == 0 {
                    at = i;
                }
                timestamps += 1;
            },
            ColumnKind::Field => {
                let ghost before = field_part@;
                if fields == 0 {
                    field_part.push(SPACE);
                } else {
                    field_part.push(COMMA);
                }
                push_bytes(&mut field_part, name);
                field_part.push(EQUALS);
                let ghost named = field_part@;
                push_field_text(&mut field_part, cell);
                assert(field_part@ == before + seq![
                    if fields == 0 {
                        SPACE
                    } else {
                        COMMA
                    },
                ] + name@ + seq![EQUALS] + field_text(cell@)) by {
                    assert(named == before + seq![
                        if fields == 0 {
                            SPACE
                        } else {
                            COMMA
                        },
                    ] + name@ + seq![EQUALS]);
                }
                fields += 1;
            },
        }
        i += 1;
    }
    if fields == 0 {
        return Err(ConvertError::Schema { record: number });
    }
    if timestamps > 1 {
        return Err(ConvertError::Schema { record: number });
    }
    let mut line: Vec<u8> = Vec::new();
    push_bytes(&mut line, measurement);
    push_bytes(&mut line, tag_part.as_slice());
    push_bytes(&mut line, field_part.as_slice());
    let ghost head = measurement@ + tag_part@ + field_part@;
    assert(line@ == head);
    if timestamps == 1 {
        let cell = record[at].as_slice();
        assert(cells[at as int] == cell@);
        match timestamp_nanos(cell) {
            Some(nanos) => {
                line.push(SPACE);
                push_decimal_i64(&mut line, nanos);
                line.push(NEWLINE);
                assert(line@ == head + seq![SPACE] + decimal(nanos as int) + seq![NEWLINE]);
            },
            None => {
                return Err(ConvertError::Type { record: number });
            },
        }
    } else {
        line.push(NEWLINE);
        assert(line@ == head + seq![NEWLINE]);
    }
    Ok(line)
}

/// Finds the index just behind the last `b` in `s`, or 0 where `s` holds no
/// `b`.
pub fn find_after_last(s: &[u8], b: u8) -> (at: usize)
    ensures
        at == after_last(s@, b),
        at <= s@.len(),
{
    let mut at: usize = s.len();
    assert(s@.take(s@.len() as int) == s@);
    while at > 0 && s[at - 1] != b
        invariant
            at <= s@.len(),
            after_last(s@, b) == after_last(s@.take(at as int), b),
        decreases at,
    {
        assert(s@.take(at as int).drop_last() == s@.take(at - 1));
        at -= 1;
    }
    at
}

/// The measurement that a file at `path` holds: the stem of its file name,
/// where the path names a file.
pub fn measurement_name(path: &[u8]) -> (measurement: Option<Vec<u8>>)
    ensures
        match measurement {
            Some(m) => path_measurement(path@) == Some(m@),
            None => path_measurement(path@) is None,
        },
{
    let start = find_after_last(path, SLASH);
    let name = slice_subrange(path, start, path.len());
    if name.len() == 0 {
        return None;
    }
    if name.len() == 1 && name[0] == DOT {
        assert(name@ =~= seq![DOT]);
        return None;
    }
    if name.len() == 2 && name[0] == DOT && name[1] == DOT {
        assert(name@ =~= seq![DOT, DOT]);
        return None;
    }
    assert(name@ != seq![DOT]) by {
        if name@ == seq![DOT] {
            assert(seq![DOT].len() == 1 && seq![DOT][0] == DOT);
        }
    }
    assert(name@ != seq![DOT, DOT]) by {
        if name@ == seq![DOT, DOT] {
            assert(seq![DOT, DOT].len() == 2 && seq![DOT, DOT][0] == DOT && seq![
                DOT,
                DOT,
            ][1] == DOT);
        }
    }
    let dot = find_after_last(name, DOT);
    let stem = if dot <= 1 {
        name
    } else {
        slice_subrange(name, 0, dot - 1)
    };
    let mut measurement: Vec<u8> = Vec::new();
    push_bytes(&mut measurement, stem);
    Some(measurement)
}

} // verus!

use tsdb_tools::influx::decode::decode_line;
use tsdb_tools::influx::error::{ConvertError, Stopped};
use tsdb_tools::influx::point::{Field, Point, Tag, Value};
use tsdb_tools::influx::to_csv::{
    line_protocol_to_csv, line_to_csv, point_to_row, points_to_csv, row_of, row_to_csv,
};
use tsdb_tools::influx::writer::SourceFile;
use tsdb_tools::influx::{InfluxCommand, InfluxSubcommand, Source, ToCsv};

fn csv(source: &str) -> String {
    String::from_utf8(line_protocol_to_csv(source.as_bytes()).unwrap()).unwrap()
}

fn stopped(source: &[u8]) -> Stopped {
    line_protocol_to_csv(source).unwrap_err()
}

fn cells(row: &[Value]) -> Vec<String> {
    row.iter().map(|v| String::from_utf8(v.to_cell()).unwrap()).collect()
}

fn to_csv_command() -> InfluxCommand {
    InfluxCommand {
        subcmd: InfluxSubcommand::ToCsv(ToCsv {
            input: "points.lp".to_string(),
            output: "points.csv".to_string(),
        }),
    }
}

#[test]
fn test_line_protocol_to_csv() {
    let input = "cpu,hostname=host_0,region=eu-central-1,datacenter=eu-central-1a,rack=6,os=Ubuntu15.10,arch=x86,team=SF,service=19,service_version=1,service_environment=test usage_user=58i,usage_system=2i,usage_idle=24i,usage_nice=61i,usage_iowait=22i,usage_irq=63i,usage_softirq=6i,usage_steal=44i,usage_guest=80i,usage_guest_nice=38i 1451606400000000000
cpu,hostname=host_1,region=us-west-1,datacenter=us-west-1a,rack=41,os=Ubuntu15.10,arch=x64,team=NYC,service=9,service_version=1,service_environment=staging usage_user=84i,usage_system=11i,usage_idle=53i,usage_nice=87i,usage_iowait=29i,usage_irq=20i,usage_softirq=54i,usage_steal=77i,usage_guest=53i,usage_guest_nice=74i 1451606400000000000
cpu,hostname=host_2,region=sa-east-1,datacenter=sa-east-1a,rack=89,os=Ubuntu16.04LTS,arch=x86,team=LON,service=13,service_version=0,service_environment=staging usage_user=29i,usage_system=48i,usage_idle=5i,usage_nice=63i,usage_iowait=17i,usage_irq=52i,usage_softirq=60i,usage_steal=49i,usage_guest=93i,usage_guest_nice=1i 1451606400000000000";
    let expect = "host_0,eu-central-1,eu-central-1a,6,Ubuntu15.10,x86,SF,19,1,test,58,2,24,61,22,63,6,44,80,38,2016-01-01T00:00:00+00:00
host_1,us-west-1,us-west-1a,41,Ubuntu15.10,x64,NYC,9,1,staging,84,11,53,87,29,20,54,77,53,74,2016-01-01T00:00:00+00:00
host_2,sa-east-1,sa-east-1a,89,Ubuntu16.04LTS,x86,LON,13,0,staging,29,48,5,63,17,52,60,49,93,1,2016-01-01T00:00:00+00:00
";
    let output = line_protocol_to_csv(input.as_bytes()).unwrap();
    assert_eq!(expect, String::from_utf8(output).unwrap());
}

#[test]
fn timestamp_is_rfc3339_in_utc() {
    let point = Point {
        measurement: b"cpu".to_vec(),
        tags: vec![],
        fields: vec![Field { key: b"value".to_vec(), value: Value::Int64(1) }],
        timestamp: Some(1451606400000000000),
    };
    let row = point_to_row(&point);
    assert_eq!(cells(&row), vec!["1", "2016-01-01T00:00:00+00:00"]);
    assert!(matches!(&row[1], Value::String(text) if text == b"2016-01-01T00:00:00+00:00"));
}

#[test]
fn timestamp_keeps_its_fraction_of_a_second() {
    assert_eq!(csv("m v=1i 0\n"), "1,1970-01-01T00:00:00+00:00\n");
    assert_eq!(csv("m v=1i 1451606400500000000\n"), "1,2016-01-01T00:00:00.500+00:00\n");
    assert_eq!(csv("m v=1i 1451606400000001000\n"), "1,2016-01-01T00:00:00.000001+00:00\n");
    assert_eq!(csv("m v=1i 1451606400000000001\n"), "1,2016-01-01T00:00:00.000000001+00:00\n");
    assert_eq!(csv("m v=1i -1\n"), "1,1969-12-31T23:59:59.999999999+00:00\n");
}

#[test]
fn row_holds_tags_then_fields_then_timestamp() {
    let point = Point {
        measurement: b"cpu".to_vec(),
        tags: vec![
            Tag { key: b"host".to_vec(), value: b"a".to_vec() },
            Tag { key: b"region".to_vec(), value: b"west".to_vec() },
        ],
        fields: vec![
            Field { key: b"load".to_vec(), value: Value::UInt64(7) },
            Field { key: b"up".to_vec(), value: Value::Boolean(true) },
            Field { key: b"note".to_vec(), value: Value::String(b"ok".to_vec()) },
        ],
        timestamp: Some(0),
    };
    let row = point_to_row(&point);
    assert_eq!(row.len(), 2 + 3 + 1);
    assert_eq!(cells(&row), vec!["a", "west", "7", "true", "ok", "1970-01-01T00:00:00+00:00"]);
    assert!(matches!(row[0], Value::String(_)));
    assert!(matches!(row[1], Value::String(_)));
    assert!(matches!(row[2], Value::UInt64(7)));
    assert!(matches!(row[3], Value::Boolean(true)));
    assert!(matches!(row[5], Value::String(_)));
}

#[test]
fn row_without_timestamp_has_no_last_cell() {
    let point = Point {
        measurement: b"cpu".to_vec(),
        tags: vec![Tag { key: b"host".to_vec(), value: b"a".to_vec() }],
        fields: vec![Field { key: b"load".to_vec(), value: Value::Int64(-3) }],
        timestamp: None,
    };
    let row = point_to_row(&point);
    assert_eq!(cells(&row), vec!["a", "-3"]);
    assert_eq!(csv("cpu,host=a load=-3i\n"), "a,-3\n");
}

#[test]
fn each_kind_of_field_has_its_cell() {
    assert_eq!(
        csv("m i=-5i,u=5u,f=64.2,s=\"text\",b=t 1451606400000000000\n"),
        "-5,5,64.2,text,true,2016-01-01T00:00:00+00:00\n"
    );
    assert_eq!(csv("m a=true,b=F,c=FALSE\n"), "true,false,false\n");
}

#[test]
fn float_cells_are_written_as_the_csv_writer_writes_floats() {
    assert_eq!(csv("m f=64\n"), "64.0\n");
    assert_eq!(csv("m f=0.10\n"), "0.1\n");
    assert_eq!(csv("m f=-2.5\n"), "-2.5\n");
    assert_eq!(csv("m f=1e21\n"), "1e21\n");
    assert_eq!(csv("m f=15e-8\n"), "1.5e-7\n");
}

#[test]
fn integer_cells_reach_the_ends_of_their_ranges() {
    assert_eq!(Value::Int64(i64::MIN).to_cell(), b"-9223372036854775808".to_vec());
    assert_eq!(Value::Int64(i64::MAX).to_cell(), b"9223372036854775807".to_vec());
    assert_eq!(Value::Int64(0).to_cell(), b"0".to_vec());
    assert_eq!(Value::UInt64(u64::MAX).to_cell(), b"18446744073709551615".to_vec());
    assert_eq!(Value::UInt64(10).to_cell(), b"10".to_vec());
    assert_eq!(Value::Boolean(false).to_cell(), b"false".to_vec());
    assert_eq!(Value::Float64(b"1.5".to_vec()).to_cell(), b"1.5".to_vec());
    assert_eq!(
        csv("m i=-9223372036854775808i,u=18446744073709551615u\n"),
        "-9223372036854775808,18446744073709551615\n"
    );
}

#[test]
fn duplicate_is_the_same_value() {
    let values = vec![
        Value::Int64(-1),
        Value::UInt64(2),
        Value::Float64(b"3.5".to_vec()),
        Value::String(b"four".to_vec()),
        Value::Boolean(true),
    ];
    for value in &values {
        assert_eq!(&value.duplicate(), value);
    }
}

#[test]
fn cells_are_quoted_where_csv_asks_for_it() {
    assert_eq!(csv("m s=\"a,b\"\n"), "\"a,b\"\n");
    assert_eq!(csv("m s=\"say \\\"hi\\\"\"\n"), "\"say \"\"hi\"\"\"\n");
    assert_eq!(csv("m,t=a\\,b v=1i\n"), "\"a,b\",1\n");
    assert_eq!(csv("m s=\"\"\n"), "\"\"\n");
    let row = vec![Value::String(b"x\ny".to_vec()), Value::Int64(1)];
    assert_eq!(row_to_csv(&row), b"\"x\ny\",1\n".to_vec());
}

#[test]
fn rows_need_not_be_of_one_length() {
    assert_eq!(
        csv("m,host=a v=1i 1451606400000000000\nm v=2i\nm,host=b,rack=1 v=3i,w=4i\n"),
        "a,1,2016-01-01T00:00:00+00:00\n2\nb,1,3,4\n"
    );
}

#[test]
fn blank_lines_and_comments_give_no_row() {
    assert_eq!(csv(""), "");
    assert_eq!(csv("\n"), "");
    assert_eq!(csv("# a comment\n"), "");
    assert_eq!(csv("\nm v=1i\n\n# note\n   \nm v=2i\n"), "1\n2\n");
    assert_eq!(line_to_csv(b"\n", 1), Ok(vec![]));
}

#[test]
fn last_line_needs_no_newline() {
    assert_eq!(csv("m v=1i\nm v=2i"), "1\n2\n");
    assert_eq!(csv("m v=1i"), "1\n");
}

#[test]
fn line_without_fields_fails_the_conversion() {
    let failure = stopped(b"m,host=a v=1i\nm,host=b\nm,host=c v=3i\n");
    assert_eq!(failure.cause, ConvertError::Parse { line: 2 });
    assert_eq!(failure.written, b"a,1\n".to_vec());

    let failure = stopped(b"m,host=b 1451606400000000000\n");
    assert_eq!(failure.cause, ConvertError::Parse { line: 1 });
    assert_eq!(failure.written, Vec::<u8>::new());

    assert_eq!(line_to_csv(b"m,host=b\n", 7), Err(ConvertError::Parse { line: 7 }));
    assert!(matches!(decode_line(b"m,host=b\n", 3), Err(ConvertError::Parse { line: 3 })));
}

#[test]
fn malformed_lines_fail_the_conversion() {
    assert_eq!(stopped(b"m v=1i extra\n").cause, ConvertError::Parse { line: 1 });
    assert_eq!(stopped(b"m v=\n").cause, ConvertError::Parse { line: 1 });
    assert_eq!(stopped(b"\n\nm, v=1i\n").cause, ConvertError::Parse { line: 3 });
    assert_eq!(stopped(b"m v=1i\r\n").cause, ConvertError::Parse { line: 1 });
    assert_eq!(
        stopped(b"m v=99999999999999999999i\n").cause,
        ConvertError::Parse { line: 1 }
    );
}

#[test]
fn string_is_read_one_physical_line_at_a_time() {
    let failure = stopped(b"m v=1i\nm s=\"two\nlines\"\n");
    assert_eq!(failure.cause, ConvertError::Parse { line: 2 });
    assert_eq!(failure.written, b"1\n".to_vec());
}

#[test]
fn bytes_that_are_not_text_fail_the_conversion() {
    let failure = stopped(b"m v=1i\nm v=\"\xff\"\n");
    assert_eq!(failure.cause, ConvertError::Encoding { line: 2 });
    assert_eq!(failure.written, b"1\n".to_vec());
    assert_eq!(line_to_csv(b"\xc3", 4), Err(ConvertError::Encoding { line: 4 }));
}

#[test]
fn text_beyond_ascii_passes_through() {
    assert_eq!(csv("m,city=Z\u{fc}rich s=\"caf\u{e9}\"\n"), "Z\u{fc}rich,caf\u{e9}\n");
}

#[test]
fn decoded_point_holds_the_line() {
    let points = decode_line(b"cpu,host=a,rack=r\\ 1 load=0.5,n=3i 1451606400000000000\n", 1)
        .unwrap();
    assert_eq!(points.len(), 1);
    let point = &points[0];
    assert_eq!(point.measurement, b"cpu".to_vec());
    assert_eq!(point.tags.len(), 2);
    assert_eq!(point.tags[0].key, b"host".to_vec());
    assert_eq!(point.tags[0].value, b"a".to_vec());
    assert_eq!(point.tags[1].key, b"rack".to_vec());
    assert_eq!(point.tags[1].value, b"r 1".to_vec());
    assert_eq!(point.fields.len(), 2);
    assert_eq!(point.fields[0].key, b"load".to_vec());
    assert!(matches!(&point.fields[0].value, Value::Float64(text) if text == b"0.5"));
    assert_eq!(point.fields[1].key, b"n".to_vec());
    assert!(matches!(point.fields[1].value, Value::Int64(3)));
    assert_eq!(point.timestamp, Some(1451606400000000000));
}

#[test]
fn decoded_text_gives_a_point_for_each_line() {
    let points = decode_line(b"a v=1i\n# skipped\nb v=2i", 1).unwrap();
    assert_eq!(points.len(), 2);
    assert_eq!(points[1].measurement, b"b".to_vec());
    assert_eq!(points_to_csv(&points), b"1\n2\n".to_vec());
    assert_eq!(points_to_csv(&Vec::new()), Vec::<u8>::new());
}

#[test]
fn to_csv_command_converts_a_file() {
    let source = Source::File(SourceFile {
        path: b"points.lp".to_vec(),
        content: b"cpu,host=a value=1i 1451606400000000000\n".to_vec(),
    });
    let output = to_csv_command().run(&source).unwrap();
    assert_eq!(output, b"a,1,2016-01-01T00:00:00+00:00\n".to_vec());
}

#[test]
fn to_csv_command_stops_at_a_malformed_line() {
    let source = Source::File(SourceFile {
        path: b"points.lp".to_vec(),
        content: b"cpu value=1i\ncpu\n".to_vec(),
    });
    let failure = to_csv_command().run(&source).unwrap_err();
    assert_eq!(failure.cause, ConvertError::Parse { line: 2 });
    assert_eq!(failure.written, b"1\n".to_vec());
}

#[test]
fn to_csv_command_refuses_a_directory() {
    let failure = to_csv_command().run(&Source::Directory(vec![])).unwrap_err();
    assert_eq!(failure.cause, ConvertError::NotAFile);
    assert_eq!(failure.written, Vec::<u8>::new());
}

#[test]
fn row_takes_the_text_of_its_timestamp() {
    let point = Point {
        measurement: b"cpu".to_vec(),
        tags: vec![Tag { key: b"host".to_vec(), value: b"a".to_vec() }],
        fields: vec![Field { key: b"up".to_vec(), value: Value::Boolean(false) }],
        timestamp: Some(5),
    };
    assert_eq!(cells(&row_of(&point, Some(b"then".to_vec()))), vec!["a", "false", "then"]);
    assert_eq!(cells(&row_of(&point, None)), vec!["a", "false"]);
}

#[test]
fn point_is_made_of_text() {
    let point = Point::new(
        "cpu",
        vec![Tag::new("host", "a")],
        vec![
            Field::new("note", Value::string("caf\u{e9}")),
            Field::new("load", Value::float("0.5")),
        ],
        Some(7),
    );
    assert_eq!(
        point,
        Point {
            measurement: b"cpu".to_vec(),
            tags: vec![Tag { key: b"host".to_vec(), value: b"a".to_vec() }],
            fields: vec![
                Field { key: b"note".to_vec(), value: Value::String("caf\u{e9}".as_bytes().to_vec()) },
                Field { key: b"load".to_vec(), value: Value::Float64(b"0.5".to_vec()) },
            ],
            timestamp: Some(7),
        }
    );
    assert_eq!(decode_line(b"cpu,host=a note=\"caf\xc3\xa9\",load=0.5 7", 1), Ok(vec![point]));
}

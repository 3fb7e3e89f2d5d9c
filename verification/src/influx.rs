//! Tools for InfluxDB target.
//!
//! The commands convert between InfluxDB line protocol and CSV. They work on
//! bytes held in memory: a command is run on the source that its input path
//! was read into, and gives the bytes that belong at its output path.
//!
//! - [`to_csv`] turns line protocol into CSV, line by line.
//! - [`from_csv`] turns one CSV record into one line of line protocol.
//! - [`writer`] writes whole CSV files, and directories of them, as line
//!   protocol.
//! - [`decode`] is the doorway to the line-protocol decoder, and [`point`]
//!   holds what it decodes.
//! - [`text`] holds the byte text that all of them share, and [`error`] the
//!   ways in which a conversion fails.

pub mod decode;
pub mod error;
pub mod from_csv;
pub mod point;
pub mod text;
pub mod to_csv;
pub mod writer;

use error::{run_matches, ConvertError, Stopped};
use from_csv::{file_lines, Roles};
use text::texts;
use to_csv::{line_protocol_to_csv, lines_csv, physical_lines};
use vstd::prelude::*;
use vstd::slice::slice_to_vec;
use vstd::string::StringExecFns;
use vstd::utf8::encode_utf8;
use writer::{
    file_models, files_lines, sorted_by_path, LineWriter, SourceFile, SourceFileModel,
};

verus! {

/// What stands at the input path of a command.
#[derive(Debug, PartialEq, Eq)]
pub enum Source {
    /// A single file.
    File(SourceFile),
    /// A directory, with the files that it holds in any order.
    Directory(Vec<SourceFile>),
}

/// The model of a [`Source`].
pub ghost enum SourceModel {
    File(SourceFileModel),
    Directory(Seq<SourceFileModel>),
}

impl View for Source {
    type V = SourceModel;

    open spec fn view(&self) -> SourceModel {
        match *self {
            Source::File(file) => SourceModel::File(file@),
            Source::Directory(files) => SourceModel::Directory(file_models(files@)),
        }
    }
}

/// InfluxDB command.
#[derive(Debug, PartialEq, Eq)]
pub struct InfluxCommand {
    pub subcmd: InfluxSubcommand,
}

/// Subcommands for InfluxDB.
#[derive(Debug, PartialEq, Eq)]
pub enum InfluxSubcommand {
    /// Line protocol to CSV.
    ToCsv(ToCsv),
    /// CSV to line protocol.
    FromCsv(FromCsv),
}

/// Convert line protocol file to CSV file.
#[derive(Debug, PartialEq, Eq)]
pub struct ToCsv {
    /// Input line protocol file path.
    pub input: String,
    /// Output CSV file path.
    pub output: String,
}

/// Convert CSV file to line protocol file.
#[derive(Debug, PartialEq, Eq)]
pub struct FromCsv {
    /// Input CSV file path (file or directory).
    pub input: String,
    /// Output line protocol file path.
    pub output: String,
    /// Timestamp column name.
    pub timestamp: String,
    /// Tag column names.
    pub tag: Vec<String>,
}

impl ToCsv {
    /// What this command writes on `source`, with the failure that stopped
    /// it where there is one: the CSV text of the line protocol in a file,
    /// line by line. A directory is refused.
    pub open spec fn outcome(&self, source: SourceModel) -> (Seq<u8>, Option<ConvertError>) {
        match source {
            SourceModel::File(file) => lines_csv(physical_lines(file.content)),
            SourceModel::Directory(_) => (Seq::empty(), Some(ConvertError::NotAFile)),
        }
    }

    /// Runs this command on `source`, which the input path was read into,
    /// and gives the bytes for the output path.
    pub fn run(&self, source: &Source) -> (output: Result<Vec<u8>, Stopped>)
        ensures
            run_matches(output, self.outcome(source@)),
    {
        match source {
            Source::File(file) => line_protocol_to_csv(file.content.as_slice()),
            Source::Directory(_) => Err(
                Stopped { cause: ConvertError::NotAFile, written: Vec::new() },
            ),
        }
    }
}

impl FromCsv {
    /// The command with the usual names of the columns: the timestamp
    /// stands in the column `timestamp`, and no column holds a tag.
    pub fn new(input: String, output: String) -> (command: FromCsv)
        ensures
            command.input == input,
            command.output == output,
            command.timestamp@ == "timestamp"@,
            command.tag@ == Seq::<String>::empty(),
    {
        FromCsv { input, output, timestamp: String::from_str("timestamp"), tag: Vec::new() }
    }

    /// The names by which this command tells the columns of a file apart,
    /// as bytes.
    pub open spec fn roles(&self) -> Roles {
        Roles {
            timestamp: encode_utf8(self.timestamp@),
            tags: self.tag@.map_values(|t: String| encode_utf8(t@)),
        }
    }

    /// What this command writes on `source`, with the failure that stopped
    /// it where there is one: the line protocol of a CSV file, or of the CSV
    /// files of a directory in the order of their paths.
    pub open spec fn outcome(&self, source: SourceModel) -> (Seq<u8>, Option<ConvertError>) {
        match source {
            SourceModel::File(file) => file_lines(self.roles(), file.path, file.content),
            SourceModel::Directory(files) => files_lines(self.roles(), sorted_by_path(files)),
        }
    }

    /// Runs this command on `source`, which the input path was read into,
    /// and gives the bytes for the output path.
    pub fn run(&self, source: &Source) -> (output: Result<Vec<u8>, Stopped>)
        ensures
            run_matches(output, self.outcome(source@)),
    {
        let timestamp = slice_to_vec(self.timestamp.as_str().as_bytes());
        let mut tags: Vec<Vec<u8>> = Vec::new();
        let ghost names = self.roles().tags;
        let mut i: usize = 0;
        while i < self.tag.len()
            invariant
                i <= self.tag@.len(),
                names == self.roles().tags,
                texts(tags@) == names.take(i as int),
            decreases self.tag@.len() - i,
        {
            tags.push(slice_to_vec(self.tag[i].as_str().as_bytes()));
            assert(texts(tags@) =~= names.take(i as int).push(names[i as int]));
            assert(names.take(i + 1) =~= names.take(i as int).push(names[i as int]));
            i += 1;
        }
        assert(names.take(i as int) == names);
        let mut writer = LineWriter::new(timestamp, tags);
        assert(writer.roles() == self.roles());
        let written = match source {
            Source::File(file) => {
                let ghost lines = file_lines(self.roles(), file@.path, file@.content).0;
                assert(Seq::<u8>::empty() + lines == lines);
                writer.from_csv_file(file.path.as_slice(), file.content.as_slice())
            },
            Source::Directory(files) => {
                let ghost lines = files_lines(
                    self.roles(),
                    sorted_by_path(file_models(files@)),
                ).0;
                assert(Seq::<u8>::empty() + lines == lines);
                writer.from_csv_dir(files)
            },
        };
        match written {
            Ok(_) => Ok(writer.into_output()),
            Err(cause) => Err(Stopped { cause, written: writer.into_output() }),
        }
    }
}

impl InfluxCommand {
    /// What this command writes on `source`, with the failure that stopped
    /// it where there is one.
    pub open spec fn outcome(&self, source: SourceModel) -> (Seq<u8>, Option<ConvertError>) {
        match self.subcmd {
            InfluxSubcommand::ToCsv(c) => c.outcome(source),
            InfluxSubcommand::FromCsv(c) => c.outcome(source),
        }
    }

    /// Run this command on `source`, which its input path was read into, and
    /// give the bytes for its output path.
    pub fn run(self, source: &Source) -> (output: Result<Vec<u8>, Stopped>)
        ensures
            run_matches(output, self.outcome(source@)),
    {
        match self.subcmd {
            InfluxSubcommand::ToCsv(c) => c.run(source),
            InfluxSubcommand::FromCsv(c) => c.run(source),
        }
    }
}

} // verus!

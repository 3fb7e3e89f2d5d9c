//! The writer of line protocol, which takes CSV files one by one or a whole
//! directory of them in the order of their paths.

use super::error::ConvertError;
use super::from_csv::{
    encode_record, file_lines, measurement_name, read_headers, read_records, record_models,
    records_lines, Refusal, Roles,
};
use super::text::{bytes_le, bytes_no_later, push_bytes, texts};
use vstd::prelude::*;

verus! {

/// A CSV file held in memory: its path and its bytes.
#[derive(Debug, PartialEq, Eq)]
pub struct SourceFile {
    pub path: Vec<u8>,
    pub content: Vec<u8>,
}

/// The model of a [`SourceFile`].
pub ghost struct SourceFileModel {
    pub path: Seq<u8>,
    pub content: Seq<u8>,
}

impl View for SourceFile {
    type V = SourceFileModel;

    open spec fn view(&self) -> SourceFileModel {
        SourceFileModel { path: self.path@, content: self.content@ }
    }
}

/// The models of `files`, in order.
pub open spec fn file_models(files: Seq<SourceFile>) -> Seq<SourceFileModel> {
    files.map_values(|f: SourceFile| f@)
}

/// How many files at the front of `sorted` have a path that comes no later
/// than `path`.
pub open spec fn slot(sorted: Seq<SourceFileModel>, path: Seq<u8>) -> int
    decreases sorted.len(),
{
    if sorted.len() == 0 || !bytes_le(sorted[0].path, path) {
        0
    } else {
        1 + slot(sorted.skip(1), path)
    }
}

/// The files `files` in the order of their paths as byte strings. Files with
/// the same path keep the order in which they were given.
pub open spec fn sorted_by_path(files: Seq<SourceFileModel>) -> Seq<SourceFileModel>
    decreases files.len(),
{
    if files.len() == 0 {
        Seq::empty()
    } else {
        let sorted = sorted_by_path(files.drop_last());
        sorted.insert(slot(sorted, files.last().path), files.last())
    }
}

/// Whether the paths of `files` never step back in the order of byte
/// strings.
pub open spec fn ordered_by_path(files: Seq<SourceFileModel>) -> bool {
    forall|i: int, j: int|
        0 <= i < j < files.len() ==> bytes_le((#[trigger] files[i]).path, (#[trigger] files[j]).path)
}

/// The lines of the files `files`, taken in the order given, with the
/// failure that ended the run where there was one: each file before the first
/// that fails gives all its lines, the failing one gives the lines of the
/// records before its failure, and no file behind it gives any.
pub open spec fn files_lines(roles: Roles, files: Seq<SourceFileModel>) -> (
    Seq<u8>,
    Option<ConvertError>,
)
    decreases files.len(),
{
    if files.len() == 0 {
        (Seq::empty(), None)
    } else {
        let before = files_lines(roles, files.drop_last());
        if before.1 is Some {
            before
        } else {
            let last = file_lines(roles, files.last().path, files.last().content);
            (before.0 + last.0, last.1)
        }
    }
}

/// Of two byte strings, one comes no later than the other.
pub proof fn lemma_bytes_le_total(a: Seq<u8>, b: Seq<u8>)
    ensures
        bytes_le(a, b) || bytes_le(b, a),
    decreases a.len(),
{
    if a.len() > 0 && b.len() > 0 && a[0] == b[0] {
        lemma_bytes_le_total(a.skip(1), b.skip(1));
    }
}

/// The order of byte strings is transitive.
pub proof fn lemma_bytes_le_transitive(a: Seq<u8>, b: Seq<u8>, c: Seq<u8>)
    requires
        bytes_le(a, b),
        bytes_le(b, c),
    ensures
        bytes_le(a, c),
    decreases a.len(),
{
    if a.len() > 0 && b.len() > 0 && c.len() > 0 && a[0] == b[0] && b[0] == c[0] {
        lemma_bytes_le_transitive(a.skip(1), b.skip(1), c.skip(1));
    }
}

/// The slot for `path` stands behind files that come no later than `path`
/// and before a file that comes later.
pub proof fn lemma_slot(sorted: Seq<SourceFileModel>, path: Seq<u8>)
    ensures
        0 <= slot(sorted, path) <= sorted.len(),
        forall|k: int| 0 <= k < slot(sorted, path) ==> bytes_le((#[trigger] sorted[k]).path, path),
        slot(sorted, path) < sorted.len() ==> !bytes_le(sorted[slot(sorted, path)].path, path),
    decreases sorted.len(),
{
    if sorted.len() > 0 && bytes_le(sorted[0].path, path) {
        let rest = sorted.skip(1);
        lemma_slot(rest, path);
        assert forall|k: int| 0 <= k < slot(sorted, path) implies bytes_le(
            (#[trigger] sorted[k]).path,
            path,
        ) by {
            if k > 0 {
                assert(sorted[k] == rest[k - 1]);
            }
        }
        if slot(sorted, path) < sorted.len() {
            assert(sorted[slot(sorted, path)] == rest[slot(rest, path)]);
        }
    }
}

/// Sorting by path gives files whose paths never step back.
pub proof fn lemma_sorted_is_ordered(files: Seq<SourceFileModel>)
    ensures
        ordered_by_path(sorted_by_path(files)),
    decreases files.len(),
{
    if files.len() > 0 {
        let sorted = sorted_by_path(files.drop_last());
        let file = files.last();
        let at = slot(sorted, file.path);
        let next = sorted.insert(at, file);
        lemma_sorted_is_ordered(files.drop_last());
        lemma_slot(sorted, file.path);
        assert forall|i: int, j: int| 0 <= i < j < next.len() implies bytes_le(
            (#[trigger] next[i]).path,
            (#[trigger] next[j]).path,
        ) by {
            if j < at {
                assert(next[i] == sorted[i] && next[j] == sorted[j]);
            } else if j == at {
                assert(next[i] == sorted[i]);
            } else if i < at {
                assert(next[i] == sorted[i] && next[j] == sorted[j - 1]);
            } else if i == at {
                assert(next[j] == sorted[j - 1]);
                lemma_bytes_le_total(sorted[at].path, file.path);
                if j - 1 > at {
                    assert(bytes_le(sorted[at].path, sorted[j - 1].path));
                    lemma_bytes_le_transitive(file.path, sorted[at].path, sorted[j - 1].path);
                }
            } else {
                assert(next[i] == sorted[i - 1] && next[j] == sorted[j - 1]);
            }
        }
    }
}

/// Sorting by path gives the same files, each as often as it was given.
pub proof fn lemma_sorted_keeps_files(files: Seq<SourceFileModel>)
    ensures
        sorted_by_path(files).to_multiset() == files.to_multiset(),
        sorted_by_path(files).len() == files.len(),
    decreases files.len(),
{
    broadcast use vstd::seq_lib::group_to_multiset_ensures;

    if files.len() > 0 {
        let sorted = sorted_by_path(files.drop_last());
        let file = files.last();
        let at = slot(sorted, file.path);
        let next = sorted.insert(at, file);
        lemma_sorted_keeps_files(files.drop_last());
        lemma_slot(sorted, file.path);
        assert(next.remove(at) == sorted);
        assert(next[at] == file);
        assert(next.to_multiset() == sorted.to_multiset().insert(file)) by {
            assert(next.remove(at).to_multiset() == next.to_multiset().remove(file));
            assert(next.to_multiset().count(file) > 0) by {
                assert(next.contains(file));
            }
            assert(next.to_multiset() =~= next.to_multiset().remove(file).insert(file));
        }
        assert(files == files.drop_last().push(file));
        assert(files.to_multiset() == files.drop_last().to_multiset().insert(file));
    } else {
        assert(files.to_multiset() =~= Seq::<SourceFileModel>::empty().to_multiset());
    }
}

/// Whether no two of `files` have the same path.
pub open spec fn distinct_paths(files: Seq<SourceFileModel>) -> bool {
    forall|i: int, j: int|
        0 <= i < j < files.len() ==> (#[trigger] files[i]).path != (#[trigger] files[j]).path
}

/// Two byte strings of which each comes no later than the other are the
/// same.
pub proof fn lemma_bytes_le_antisymmetric(a: Seq<u8>, b: Seq<u8>)
    requires
        bytes_le(a, b),
        bytes_le(b, a),
    ensures
        a == b,
    decreases a.len(),
{
    if a.len() == 0 {
        assert(a =~= b);
    } else {
        lemma_bytes_le_antisymmetric(a.skip(1), b.skip(1));
        assert(a =~= seq![a[0]] + a.skip(1));
        assert(b =~= seq![b[0]] + b.skip(1));
    }
}

/// Files with distinct paths stay files with distinct paths when they are
/// put in another order.
proof fn lemma_distinct_paths_kept(files: Seq<SourceFileModel>, other: Seq<SourceFileModel>)
    requires
        distinct_paths(files),
        files.to_multiset() == other.to_multiset(),
    ensures
        distinct_paths(other),
{
    broadcast use vstd::seq_lib::group_to_multiset_ensures;

    assert(files.no_duplicates()) by {
        assert forall|i: int, j: int|
            0 <= i < files.len() && 0 <= j < files.len() && i != j implies files[i] != files[j] by {
            if i < j {
                assert(files[i].path != files[j].path);
            } else {
                assert(files[j].path != files[i].path);
            }
        }
    }
    files.lemma_multiset_has_no_duplicates();
    other.lemma_multiset_has_no_duplicates_conv();
    assert forall|i: int, j: int| 0 <= i < j < other.len() implies (#[trigger] other[i]).path != (
    #[trigger] other[j]).path by {
        assert(other[i] != other[j]);
        assert(other.contains(other[i]));
        assert(other.contains(other[j]));
        assert(other.to_multiset().count(other[i]) > 0);
        assert(other.to_multiset().count(other[j]) > 0);
        assert(files.to_multiset().count(other[i]) > 0);
        assert(files.to_multiset().count(other[j]) > 0);
        assert(files.contains(other[i]));
        assert(files.contains(other[j]));
        let p = choose|p: int| 0 <= p < files.len() && files[p] == other[i];
        let q = choose|q: int| 0 <= q < files.len() && files[q] == other[j];
        if p < q {
            assert(files[p].path != files[q].path);
        } else if q < p {
            assert(files[q].path != files[p].path);
        }
    }
}

/// There is one way only to put files with distinct paths in the order of
/// their paths.
proof fn lemma_ordered_is_unique(s: Seq<SourceFileModel>, t: Seq<SourceFileModel>)
    requires
        ordered_by_path(s),
        ordered_by_path(t),
        distinct_paths(s),
        s.to_multiset() == t.to_multiset(),
    ensures
        s == t,
    decreases s.len(),
{
    broadcast use vstd::seq_lib::group_to_multiset_ensures;

    assert(s.len() == t.len()) by {
        assert(s.to_multiset().len() == s.len());
        assert(t.to_multiset().len() == t.len());
    }
    if s.len() == 0 {
        assert(s =~= t);
    } else {
        let n = s.len() - 1;
        assert(s.contains(s[n]));
        assert(s.to_multiset().count(s[n]) > 0);
        assert(t.to_multiset().count(s[n]) > 0);
        assert(t.contains(s[n]));
        let k = choose|k: int| 0 <= k < t.len() && t[k] == s[n];
        assert(t.contains(t[n]));
        assert(t.to_multiset().count(t[n]) > 0);
        assert(s.to_multiset().count(t[n]) > 0);
        assert(s.contains(t[n]));
        let m = choose|m: int| 0 <= m < s.len() && s[m] == t[n];
        assert(bytes_le(s[n].path, t[n].path)) by {
            if k < n {
                assert(bytes_le(t[k].path, t[n].path));
            }
            lemma_bytes_le_total(s[n].path, s[n].path);
        }
        assert(bytes_le(t[n].path, s[n].path)) by {
            if m < n {
                assert(bytes_le(s[m].path, s[n].path));
            }
            lemma_bytes_le_total(t[n].path, t[n].path);
        }
        lemma_bytes_le_antisymmetric(s[n].path, t[n].path);
        if m < n {
            assert(s[m].path != s[n].path);
        }
        assert(s[n] == t[n]);
        assert(s.remove(n) =~= s.drop_last());
        assert(t.remove(n) =~= t.drop_last());
        assert(s.drop_last().to_multiset() == t.drop_last().to_multiset());
        assert(ordered_by_path(s.drop_last())) by {
            assert forall|i: int, j: int| 0 <= i < j < s.drop_last().len() implies bytes_le(
                (#[trigger] s.drop_last()[i]).path,
                (#[trigger] s.drop_last()[j]).path,
            ) by {
                assert(bytes_le(s[i].path, s[j].path));
            }
        }
        assert(ordered_by_path(t.drop_last())) by {
            assert forall|i: int, j: int| 0 <= i < j < t.drop_last().len() implies bytes_le(
                (#[trigger] t.drop_last()[i]).path,
                (#[trigger] t.drop_last()[j]).path,
            ) by {
                assert(bytes_le(t[i].path, t[j].path));
            }
        }
        assert(distinct_paths(s.drop_last())) by {
            assert forall|i: int, j: int| 0 <= i < j < s.drop_last().len() implies (
            #[trigger] s.drop_last()[i]).path != (#[trigger] s.drop_last()[j]).path by {
                assert(s[i].path != s[j].path);
            }
        }
        lemma_ordered_is_unique(s.drop_last(), t.drop_last());
        assert(s =~= s.drop_last().push(s[n]));
        assert(t =~= t.drop_last().push(t[n]));
    }
}

/// The order in which the files of a directory are listed does not matter:
/// two listings of the same files, no two of which share a path, come out in
/// the same order, and so give the same lines and the same failure.
pub proof fn lemma_listing_order_is_immaterial(
    roles: Roles,
    listing: Seq<SourceFileModel>,
    other: Seq<SourceFileModel>,
)
    requires
        distinct_paths(listing),
        listing.to_multiset() == other.to_multiset(),
    ensures
        sorted_by_path(listing) == sorted_by_path(other),
        files_lines(roles, sorted_by_path(listing)) == files_lines(roles, sorted_by_path(other)),
{
    lemma_sorted_is_ordered(listing);
    lemma_sorted_is_ordered(other);
    lemma_sorted_keeps_files(listing);
    lemma_sorted_keeps_files(other);
    lemma_distinct_paths_kept(listing, sorted_by_path(listing));
    lemma_ordered_is_unique(sorted_by_path(listing), sorted_by_path(other));
}

/// Writes line protocol from CSV files into memory.
#[derive(Debug, PartialEq, Eq)]
pub struct LineWriter {
    /// The line protocol written so far.
    pub output: Vec<u8>,
    /// The name of the timestamp column.
    pub timestamp: Vec<u8>,
    /// The names of the tag columns.
    pub tags: Vec<Vec<u8>>,
}

impl LineWriter {
    /// The names by which this writer tells the columns of a file apart.
    pub open spec fn roles(&self) -> Roles {
        Roles { timestamp: self.timestamp@, tags: texts(self.tags@) }
    }

    /// A writer that has written nothing, for files whose timestamp column
    /// is named `timestamp` and whose tag columns have the names `tags`.
    pub fn new(timestamp: Vec<u8>, tags: Vec<Vec<u8>>) -> (writer: LineWriter)
        ensures
            writer.output@ == Seq::<u8>::empty(),
            writer.timestamp == timestamp,
            writer.tags == tags,
    {
        LineWriter { output: Vec::new(), timestamp, tags }
    }

    /// Writes the records `records` of one CSV file with the header `headers`
    /// as lines of `measurement`, the first of them being record 1.
    ///
    /// The first record that the reader refused or that gives no line ends
    /// the file. The lines of the records before it stay written.
    pub fn write_records(
        &mut self,
        measurement: &[u8],
        headers: &Vec<Vec<u8>>,
        records: &Vec<Result<Vec<Vec<u8>>, Refusal>>,
    ) -> (written: Result<(), ConvertError>)
        ensures
            final(self).timestamp == old(self).timestamp,
            final(self).tags == old(self).tags,
            final(self).output@ == old(self).output@ + records_lines(
                old(self).roles(),
                measurement@,
                texts(headers@),
                record_models(records@),
            ).0,
            match written {
                Ok(_) => records_lines(
                    old(self).roles(),
                    measurement@,
                    texts(headers@),
                    record_models(records@),
                ).1 is None,
                Err(e) => records_lines(
                    old(self).roles(),
                    measurement@,
                    texts(headers@),
                    record_models(records@),
                ).1 == Some(e),
            },
    {
        let ghost roles = self.roles();
        let ghost models = record_models(records@);
        let ghost written = Seq::<u8>::empty();
        assert(self.output@ + Seq::<u8>::empty() == self.output@);
        let mut i: usize = 0;
        while i < records.len()
            invariant
                i <= records@.len(),
                self.timestamp == old(self).timestamp,
                self.tags == old(self).tags,
                roles == old(self).roles(),
                models == record_models(records@),
                records_lines(roles, measurement@, texts(headers@), models.take(i as int)) == (
                    written,
                    None::<ConvertError>,
                ),
                self.output@ == old(self).output@ + written,
            decreases records@.len() - i,
        {
            let number = i + 1;
            assert(models.take(i + 1).drop_last() == models.take(i as int));
            assert(models.take(i + 1).last() == models[i as int]);
            let ghost rest = models.skip(i + 1);
            assert(models.take(i + 1) + rest == models);
            let line = match &records[i] {
                Ok(record) => encode_record(
                    measurement,
                    headers,
                    record,
                    self.timestamp.as_slice(),
                    &self.tags,
                    number,
                ),
                Err(Refusal::Length) => Err(ConvertError::Schema { record: number }),
                Err(Refusal::Unreadable) => Err(ConvertError::Csv { record: number }),
            };
            match line {
                Ok(bytes) => {
                    push_bytes(&mut self.output, bytes.as_slice());
                    proof {
                        written = written + bytes@;
                    }
                },
                Err(e) => {
                    proof {
                        lemma_records_failure_stays(
                            roles,
                            measurement@,
                            texts(headers@),
                            models.take(i + 1),
                            rest,
                        );
                    }
                    return Err(e);
                },
            }
            i += 1;
        }
        assert(models.take(i as int) == models);
        Ok(())
    }

    /// Writes the CSV file at `path`, whose bytes are `content`, as line
    /// protocol: one line for each record, in order, with the stem of the
    /// file's name as the measurement.
    ///
    /// The first failure ends the file. The lines of the records before it
    /// stay written.
    pub fn from_csv_file(&mut self, path: &[u8], content: &[u8]) -> (written: Result<
        (),
        ConvertError,
    >)
        ensures
            final(self).timestamp == old(self).timestamp,
            final(self).tags == old(self).tags,
            final(self).output@ == old(self).output@ + file_lines(
                old(self).roles(),
                path@,
                content@,
            ).0,
            match written {
                Ok(_) => file_lines(old(self).roles(), path@, content@).1 is None,
                Err(e) => file_lines(old(self).roles(), path@, content@).1 == Some(e),
            },
    {
        assert(self.output@ + Seq::<u8>::empty() == self.output@);
        let measurement = match measurement_name(path) {
            Some(name) => name,
            None => {
                return Err(ConvertError::NoFileName);
            },
        };
        let headers = match read_headers(content) {
            Ok(names) => names,
            Err(_) => {
                return Err(ConvertError::Csv { record: 0 });
            },
        };
        let records = read_records(content);
        self.write_records(measurement.as_slice(), &headers, &records)
    }

    /// Writes the CSV files `files` of one directory as line protocol, file
    /// after file in the order of their paths as byte strings, whatever the
    /// order in which they are given.
    ///
    /// The first failure ends the run. What was written before it stays
    /// written.
    pub fn from_csv_dir(&mut self, files: &Vec<SourceFile>) -> (written: Result<(), ConvertError>)
        ensures
            final(self).timestamp == old(self).timestamp,
            final(self).tags == old(self).tags,
            final(self).output@ == old(self).output@ + files_lines(
                old(self).roles(),
                sorted_by_path(file_models(files@)),
            ).0,
            match written {
                Ok(_) => files_lines(
                    old(self).roles(),
                    sorted_by_path(file_models(files@)),
                ).1 is None,
                Err(e) => files_lines(old(self).roles(), sorted_by_path(file_models(files@))).1
                    == Some(e),
            },
    {
        let order = path_order(files);
        let ghost roles = self.roles();
        let ghost sorted = sorted_by_path(file_models(files@));
        let ghost written = Seq::<u8>::empty();
        assert(self.output@ + Seq::<u8>::empty() == self.output@);
        let mut k: usize = 0;
        while k < order.len()
            invariant
                k <= order@.len(),
                self.timestamp == old(self).timestamp,
                self.tags == old(self).tags,
                roles == old(self).roles(),
                sorted == sorted_by_path(file_models(files@)),
                order@.len() == sorted.len(),
                forall|n: int|
                    0 <= n < order@.len() ==> 0 <= #[trigger] order@[n] < files@.len()
                        && files@[order@[n] as int]@ == sorted[n],
                files_lines(roles, sorted.take(k as int)) == (written, None::<ConvertError>),
                self.output@ == old(self).output@ + written,
            decreases order@.len() - k,
        {
            let file = &files[order[k]];
            assert(file@ == sorted[k as int]);
            assert(sorted.take(k + 1).drop_last() == sorted.take(k as int));
            assert(sorted.take(k + 1).last() == sorted[k as int]);
            let ghost rest = sorted.skip(k + 1);
            assert(sorted.take(k + 1) + rest == sorted);
            let ghost before = self.output@;
            match self.from_csv_file(file.path.as_slice(), file.content.as_slice()) {
                Ok(_) => {
                    proof {
                        let lines = file_lines(roles, file@.path, file@.content).0;
                        assert(self.output@ == old(self).output@ + (written + lines)) by {
                            assert(self.output@ == before + lines);
                        }
                        written = written + lines;
                    }
                },
                Err(e) => {
                    proof {
                        let lines = file_lines(roles, file@.path, file@.content).0;
                        assert(self.output@ == old(self).output@ + (written + lines)) by {
                            assert(self.output@ == before + lines);
                        }
                        lemma_files_failure_stays(roles, sorted.take(k + 1), rest);
                    }
                    return Err(e);
                },
            }
            k += 1;
        }
        assert(sorted.take(k as int) == sorted);
        Ok(())
    }

    /// The line protocol that this writer has written.
    pub fn into_output(self) -> (output: Vec<u8>)
        ensures
            output == self.output,
    {
        self.output
    }
}

/// The places of `files` in the order of their paths: the place of the file
/// that comes first, then of the one that comes second, and so on.
pub fn path_order(files: &Vec<SourceFile>) -> (order: Vec<usize>)
    ensures
        order@.len() == files@.len(),
        sorted_by_path(file_models(files@)).len() == files@.len(),
        forall|n: int|
            0 <= n < order@.len() ==> 0 <= #[trigger] order@[n] < files@.len()
                && files@[order@[n] as int]@ == sorted_by_path(file_models(files@))[n],
{
    let ghost models = file_models(files@);
    let mut order: Vec<usize> = Vec::new();
    let mut i: usize = 0;
    while i < files.len()
        invariant
            i <= files@.len(),
            models == file_models(files@),
            order@.len() == i,
            sorted_by_path(models.take(i as int)).len() == i,
            forall|n: int|
                0 <= n < order@.len() ==> 0 <= #[trigger] order@[n] < files@.len()
                    && files@[order@[n] as int]@ == sorted_by_path(models.take(i as int))[n],
        decreases files@.len() - i,
    {
        let ghost sorted = sorted_by_path(models.take(i as int));
        let ghost path = files@[i as int]@.path;
        let mut at: usize = 0;
        assert(sorted.skip(0) == sorted);
        while at < order.len() && bytes_no_later(
            files[order[at]].path.as_slice(),
            files[i].path.as_slice(),
        )
            invariant
                at <= order@.len(),
                i < files@.len(),
                order@.len() == sorted.len(),
                path == files@[i as int]@.path,
                forall|n: int|
                    0 <= n < order@.len() ==> 0 <= #[trigger] order@[n] < files@.len()
                        && files@[order@[n] as int]@ == sorted[n],
                slot(sorted, path) == at + slot(sorted.skip(at as int), path),
            decreases order@.len() - at,
        {
            assert(sorted.skip(at as int)[0] == sorted[at as int]);
            assert(sorted.skip(at as int).skip(1) == sorted.skip(at + 1));
            at += 1;
        }
        proof {
            if at < order@.len() {
                assert(sorted.skip(at as int)[0] == sorted[at as int]);
            }
            assert(slot(sorted, path) == at);
            assert(models.take(i + 1).drop_last() == models.take(i as int));
            assert(models.take(i + 1).last() == models[i as int]);
        }
        order.insert(at, i);
        i += 1;
    }
    assert(models.take(i as int) == models);
    order
}

/// Once the records `records` have failed, no record behind them mends it or
/// adds a line.
pub proof fn lemma_records_failure_stays(
    roles: Roles,
    measurement: Seq<u8>,
    headers: Seq<Seq<u8>>,
    records: Seq<Result<Seq<Seq<u8>>, Refusal>>,
    more: Seq<Result<Seq<Seq<u8>>, Refusal>>,
)
    requires
        records_lines(roles, measurement, headers, records).1 is Some,
    ensures
        records_lines(roles, measurement, headers, records + more) == records_lines(
            roles,
            measurement,
            headers,
            records,
        ),
    decreases more.len(),
{
    if more.len() == 0 {
        assert(records + more == records);
    } else {
        lemma_records_failure_stays(roles, measurement, headers, records, more.drop_last());
        assert((records + more).drop_last() == records + more.drop_last());
    }
}

/// Once the files `files` have failed, no file behind them mends it or adds a
/// line.
pub proof fn lemma_files_failure_stays(
    roles: Roles,
    files: Seq<SourceFileModel>,
    more: Seq<SourceFileModel>,
)
    requires
        files_lines(roles, files).1 is Some,
    ensures
        files_lines(roles, files + more) == files_lines(roles, files),
    decreases more.len(),
{
    if more.len() == 0 {
        assert(files + more == files);
    } else {
        lemma_files_failure_stays(roles, files, more.drop_last());
        assert((files + more).drop_last() == files + more.drop_last());
    }
}

} // verus!

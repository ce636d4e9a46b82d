//! Samples in tables: rows of fields and rows of bytes.
use crate::bytes::{get_scalars, scalars_at};
use crate::dataset::{chunk_bounds, chunk_ranges};
use crate::scalar::Scalar;
use crate::text::{texts, trim, trimmed};
use vstd::prelude::*;

verus! {

// ---------------------------------------------------------------------------
// Reading and writing
// ---------------------------------------------------------------------------

/// A record as texts, `None` for one that cannot be read.
pub open spec fn record_texts(record: Option<Vec<String>>) -> Option<Seq<Seq<char>>> {
    match record {
        Some(fields) => Some(texts(fields@)),
        None => None,
    }
}

/// Records as texts.
pub open spec fn all_record_texts(records: Seq<Option<Vec<String>>>) -> Seq<Option<Seq<Seq<char>>>> {
    records.map_values(|r: Option<Vec<String>>| record_texts(r))
}

/// What `csv` reads from bytes behind the header: the records one by one, `None` for one that
/// it reports an error for.
pub uninterp spec fn csv_records_of(data: Seq<u8>) -> Seq<Option<Seq<Seq<char>>>>;

/// What `csv` reads as the header, `None` where it reports an error.
pub uninterp spec fn csv_header_of(data: Seq<u8>) -> Option<Seq<Seq<char>>>;

/// The line that `csv` writes for one record, `None` where it reports an error.
pub uninterp spec fn csv_line_of(record: Seq<Seq<char>>) -> Option<Seq<u8>>;

/// Calls `csv::ReaderBuilder::from_reader` with a header and runs through
/// `csv::Reader::records`. What it reads depends on the bytes alone.
#[verifier::external_body]
fn csv_records(data: &[u8]) -> (r: Vec<Option<Vec<String>>>)
    ensures
        all_record_texts(r@) == csv_records_of(data@),
{
    csv::ReaderBuilder::new()
        .has_headers(true)
        .from_reader(data)
        .records()
        .map(|r| r.ok().map(|record| record.iter().map(String::from).collect()))
        .collect()
}

/// Calls `csv::ReaderBuilder::from_reader` with a header and then `csv::Reader::headers`. What
/// it reads depends on the bytes alone.
#[verifier::external_body]
fn csv_header(data: &[u8]) -> (r: Option<Vec<String>>)
    ensures
        record_texts(r) == csv_header_of(data@),
{
    let mut reader = csv::ReaderBuilder::new().has_headers(true).from_reader(data);
    reader.headers().ok().map(|record| record.iter().map(String::from).collect())
}

/// Calls `csv::Writer::write_record` on a fresh `csv::Writer` and hands out what it wrote.
/// That depends on the record alone.
#[verifier::external_body]
fn csv_line(record: &Vec<String>) -> (r: Option<Vec<u8>>)
    ensures
        match (r, csv_line_of(texts(record@))) {
            (Some(line), Some(model)) => line@ == model,
            (None, None) => true,
            _ => false,
        },
{
    let mut writer = csv::Writer::from_writer(Vec::new());
    writer.write_record(record).ok()?;
    writer.into_inner().ok()
}

// ---------------------------------------------------------------------------
// Fields
// ---------------------------------------------------------------------------

/// Texts, each trimmed.
pub open spec fn all_trimmed(fields: Seq<Seq<char>>) -> Seq<Seq<char>> {
    fields.map_values(|f: Seq<char>| trimmed(f))
}

/// Rows as texts.
pub open spec fn row_texts(rows: Seq<Vec<String>>) -> Seq<Seq<Seq<char>>> {
    rows.map_values(|r: Vec<String>| texts(r@))
}

/// The fields of records that can all be read, trimmed. `None` where one cannot.
pub open spec fn table_fields(records: Seq<Option<Seq<Seq<char>>>>) -> Option<Seq<Seq<Seq<char>>>>
    decreases records.len(),
{
    if records.len() == 0 {
        Some(Seq::empty())
    } else {
        match (table_fields(records.drop_last()), records.last()) {
            (Some(front), Some(fields)) => Some(front.push(all_trimmed(fields))),
            _ => None,
        }
    }
}

fn trim_all(fields: &Vec<String>) -> (r: Vec<String>)
    ensures
        texts(r@) == all_trimmed(texts(fields@)),
{
    let ghost whole = all_trimmed(texts(fields@));
    let mut r: Vec<String> = Vec::with_capacity(fields.len());
    let mut i: usize = 0;
    while i < fields.len()
        invariant
            i <= fields.len(),
            whole == all_trimmed(texts(fields@)),
            texts(r@) == whole.take(i as int),
        decreases fields.len() - i,
    {
        let bare: String = trim(fields[i].as_str());
        let ghost front = texts(r@);
        assert(bare@ == whole[i as int]);
        r.push(bare);
        i += 1;
        assert(texts(r@) =~= front.push(bare@));
        assert(texts(r@) =~= whole.take(i as int));
    }
    assert(texts(r@) =~= whole);
    r
}

/// The fields of records, trimmed. `None` where a record cannot be read.
pub fn trimmed_fields(records: &Vec<Option<Vec<String>>>) -> (r: Option<Vec<Vec<String>>>)
    ensures
        match (r, table_fields(all_record_texts(records@))) {
            (Some(rows), Some(model)) => row_texts(rows@) == model,
            (None, None) => true,
            _ => false,
        },
{
    let ghost all = all_record_texts(records@);
    let mut rows: Vec<Vec<String>> = Vec::with_capacity(records.len());
    let mut i: usize = 0;
    assert(all.take(0) =~= Seq::empty());
    assert(row_texts(rows@) =~= Seq::empty());
    while i < records.len()
        invariant
            i <= records.len(),
            all == all_record_texts(records@),
            table_fields(all.take(i as int)) == Some(row_texts(rows@)),
        decreases records.len() - i,
    {
        assert(all.take(i + 1).drop_last() =~= all.take(i as int));
        assert(all.take(i + 1).last() == record_texts(records@[i as int]));
        match &records[i] {
            Some(fields) => {
                let bare: Vec<String> = trim_all(fields);
                let ghost front = row_texts(rows@);
                rows.push(bare);
                assert(row_texts(rows@) =~= front.push(texts(bare@)));
            },
            None => {
                proof {
                    lemma_table_fields_end(all, i + 1);
                }
                return None;
            },
        }
        i += 1;
    }
    assert(all.take(i as int) =~= all);
    Some(rows)
}

proof fn lemma_table_fields_end(all: Seq<Option<Seq<Seq<char>>>>, n: int)
    requires
        0 <= n <= all.len(),
        table_fields(all.take(n)) is None,
    ensures
        table_fields(all) is None,
    decreases all.len() - n,
{
    if n < all.len() {
        assert(all.take(n + 1).drop_last() =~= all.take(n));
        lemma_table_fields_end(all, n + 1);
    } else {
        assert(all.take(n) =~= all);
    }
}

/// The fields of a CSV file, trimmed, without its header. `None` where a record cannot be
/// read.
pub fn csv_fields(data: &[u8]) -> (r: Option<Vec<Vec<String>>>)
    ensures
        match (r, table_fields(csv_records_of(data@))) {
            (Some(rows), Some(model)) => row_texts(rows@) == model,
            (None, None) => true,
            _ => false,
        },
{
    let records: Vec<Option<Vec<String>>> = csv_records(data);
    trimmed_fields(&records)
}

/// A field of a table.
#[derive(Debug)]
pub enum Cell {
    Number(Scalar),
    Text(String),
}

/// A field as a value.
pub enum CellModel {
    Number(Scalar),
    Text(Seq<char>),
}

impl View for Cell {
    type V = CellModel;

    open spec fn view(&self) -> CellModel {
        match *self {
            Cell::Number(x) => CellModel::Number(x),
            Cell::Text(s) => CellModel::Text(s@),
        }
    }
}

/// Fields as values.
pub open spec fn cell_models(cells: Seq<Cell>) -> Seq<CellModel> {
    cells.map_values(|c: Cell| c@)
}

/// Rows of fields as values.
pub open spec fn table_models(rows: Seq<Vec<Cell>>) -> Seq<Seq<CellModel>> {
    rows.map_values(|r: Vec<Cell>| cell_models(r@))
}

/// The texts of a row that are not empty, with one space between them.
pub open spec fn joined(cells: Seq<CellModel>) -> Seq<char>
    decreases cells.len(),
{
    if cells.len() == 0 {
        Seq::empty()
    } else {
        let front = joined(cells.drop_last());
        match cells.last() {
            CellModel::Text(s) => if s.len() == 0 {
                front
            } else if front.len() == 0 {
                s
            } else {
                front + " "@ + s
            },
            CellModel::Number(_) => front,
        }
    }
}

/// The numbers of a row.
pub open spec fn numbers(cells: Seq<CellModel>) -> Seq<Scalar>
    decreases cells.len(),
{
    if cells.len() == 0 {
        Seq::empty()
    } else {
        let front = numbers(cells.drop_last());
        match cells.last() {
            CellModel::Number(x) => front.push(x),
            CellModel::Text(_) => front,
        }
    }
}

/// The texts of the rows that hold text.
pub open spec fn table_texts(rows: Seq<Seq<CellModel>>) -> Seq<Seq<char>>
    decreases rows.len(),
{
    if rows.len() == 0 {
        Seq::empty()
    } else {
        let front = table_texts(rows.drop_last());
        let text = joined(rows.last());
        if text.len() > 0 {
            front.push(text)
        } else {
            front
        }
    }
}

/// The numbers of the rows that hold numbers and no text.
pub open spec fn table_numbers(rows: Seq<Seq<CellModel>>) -> Seq<Seq<Scalar>>
    decreases rows.len(),
{
    if rows.len() == 0 {
        Seq::empty()
    } else {
        let front = table_numbers(rows.drop_last());
        let row = numbers(rows.last());
        if joined(rows.last()).len() == 0 && row.len() > 0 {
            front.push(row)
        } else {
            front
        }
    }
}

/// Rows of numbers as values.
pub open spec fn number_rows(rows: Seq<Vec<Scalar>>) -> Seq<Seq<Scalar>> {
    rows.map_values(|r: Vec<Scalar>| r@)
}

/// What the rows of a table hold.
#[derive(Debug)]
pub struct TableContent {
    /// Text of each row that holds text.
    pub texts: Vec<String>,
    /// Numbers of each row that holds numbers and no text.
    pub numbers: Vec<Vec<Scalar>>,
}

/// What one row holds: its text and its numbers.
fn read_row(cells: &Vec<Cell>) -> (r: (String, Vec<Scalar>))
    ensures
        r.0@ == joined(cell_models(cells@)),
        r.1@ == numbers(cell_models(cells@)),
{
    let ghost all = cell_models(cells@);
    let mut text: String = String::new();
    let mut row: Vec<Scalar> = Vec::new();
    let mut i: usize = 0;
    assert(all.take(0) =~= Seq::empty());
    while i < cells.len()
        invariant
            i <= cells.len(),
            all == cell_models(cells@),
            text@ == joined(all.take(i as int)),
            row@ == numbers(all.take(i as int)),
        decreases cells.len() - i,
    {
        assert(all.take(i + 1).drop_last() =~= all.take(i as int));
        assert(all.take(i + 1).last() == cells@[i as int]@);
        match &cells[i] {
            Cell::Number(x) => {
                row.push(*x);
            },
            Cell::Text(s) => {
                if !s.as_str().is_empty() {
                    if !text.as_str().is_empty() {
                        text.append(" ");
                        text.append(s.as_str());
                    } else {
                        text = s.clone();
                    }
                }
            },
        }
        i += 1;
    }
    assert(all.take(i as int) =~= all);
    (text, row)
}

/// What the rows of a table hold.
pub fn read_table(rows: &Vec<Vec<Cell>>) -> (r: TableContent)
    ensures
        texts(r.texts@) == table_texts(table_models(rows@)),
        number_rows(r.numbers@) == table_numbers(table_models(rows@)),
{
    let ghost all = table_models(rows@);
    let mut found: Vec<String> = Vec::new();
    let mut values: Vec<Vec<Scalar>> = Vec::new();
    let mut i: usize = 0;
    assert(all.take(0) =~= Seq::empty());
    assert(texts(found@) =~= Seq::empty());
    assert(number_rows(values@) =~= Seq::empty());
    while i < rows.len()
        invariant
            i <= rows.len(),
            all == table_models(rows@),
            texts(found@) == table_texts(all.take(i as int)),
            number_rows(values@) == table_numbers(all.take(i as int)),
        decreases rows.len() - i,
    {
        assert(all.take(i + 1).drop_last() =~= all.take(i as int));
        assert(all.take(i + 1).last() == cell_models(rows@[i as int]@));
        let (text, row): (String, Vec<Scalar>) = read_row(&rows[i]);
        if !text.as_str().is_empty() {
            let ghost front = texts(found@);
            found.push(text);
            assert(texts(found@) =~= front.push(text@));
        } else if row.len() > 0 {
            let ghost front = number_rows(values@);
            values.push(row);
            assert(number_rows(values@) =~= front.push(row@));
        }
        i += 1;
    }
    assert(all.take(i as int) =~= all);
    TableContent { texts: found, numbers: values }
}

// ---------------------------------------------------------------------------
// Rows of values
// ---------------------------------------------------------------------------

/// Rows that go into one sequence.
pub const ROWS_PER_SEQUENCE: usize = 8;

/// A row with exactly `d_model` values: cut off, or filled up with zeros.
pub open spec fn fitted(row: Seq<Scalar>, d_model: int) -> Seq<Scalar> {
    Seq::new(
        d_model as nat,
        |i: int|
            if i < row.len() {
                row[i]
            } else {
                Scalar::zero()
            },
    )
}

/// Rows from `start` to `end`, each fitted, one after the other.
pub open spec fn stacked(rows: Seq<Seq<Scalar>>, d_model: int, start: int, end: int) -> Seq<Scalar>
    decreases end - start,
{
    if end <= start {
        Seq::empty()
    } else {
        stacked(rows, d_model, start, end - 1) + fitted(rows[end - 1], d_model)
    }
}

/// The sequences that rows make, eight to a sequence. The last may have fewer.
pub open spec fn row_sequences(rows: Seq<Seq<Scalar>>, d_model: int) -> Seq<Seq<Scalar>> {
    let bounds = chunk_bounds(rows.len() as int, 8);
    Seq::new(
        bounds.len(),
        |i: int| stacked(rows, d_model, bounds[i].0 as int, bounds[i].1 as int),
    )
}

fn put_fitted(out: &mut Vec<Scalar>, row: &Vec<Scalar>, d_model: usize)
    ensures
        final(out)@ == old(out)@ + fitted(row@, d_model as int),
{
    let ghost whole = fitted(row@, d_model as int);
    let mut i: usize = 0;
    assert(old(out)@ + whole.take(0) =~= old(out)@);
    while i < d_model
        invariant
            i <= d_model,
            whole == fitted(row@, d_model as int),
            out@ == old(out)@ + whole.take(i as int),
        decreases d_model - i,
    {
        if i < row.len() {
            out.push(row[i]);
        } else {
            out.push(Scalar::zero());
        }
        i += 1;
        assert(out@ =~= old(out)@ + whole.take(i as int));
    }
    assert(whole.take(i as int) =~= whole);
}

fn stack(rows: &Vec<Vec<Scalar>>, d_model: usize, start: usize, end: usize) -> (r: Vec<Scalar>)
    requires
        start <= end <= rows@.len(),
    ensures
        r@ == stacked(number_rows(rows@), d_model as int, start as int, end as int),
{
    let mut r: Vec<Scalar> = Vec::new();
    let mut i: usize = start;
    while i < end
        invariant
            start <= i <= end <= rows@.len(),
            r@ == stacked(number_rows(rows@), d_model as int, start as int, i as int),
        decreases end - i,
    {
        put_fitted(&mut r, &rows[i], d_model);
        assert(number_rows(rows@)[i as int] == rows@[i as int]@);
        i += 1;
    }
    r
}

/// The sequences that rows make, eight to a sequence. The last may have fewer.
pub fn stack_rows(rows: &Vec<Vec<Scalar>>, d_model: usize) -> (r: Vec<Vec<Scalar>>)
    ensures
        number_rows(r@) == row_sequences(number_rows(rows@), d_model as int),
{
    let bounds: Vec<(usize, usize)> = chunk_ranges(rows.len(), ROWS_PER_SEQUENCE);
    let ghost whole = row_sequences(number_rows(rows@), d_model as int);
    let mut r: Vec<Vec<Scalar>> = Vec::with_capacity(bounds.len());
    let mut i: usize = 0;
    while i < bounds.len()
        invariant
            i <= bounds.len(),
            bounds@ == chunk_bounds(rows@.len() as int, 8),
            whole == row_sequences(number_rows(rows@), d_model as int),
            number_rows(r@) == whole.take(i as int),
        decreases bounds.len() - i,
    {
        proof {
            if rows@.len() > 0 {
                assert(rows@.len() == rows.len());
                crate::dataset::law_chunks_cover(rows@.len() as int, 8, i as int);
            }
        }
        let (start, end): (usize, usize) = bounds[i];
        let sequence: Vec<Scalar> = stack(rows, d_model, start, end);
        let ghost front = number_rows(r@);
        assert(sequence@ == whole[i as int]);
        r.push(sequence);
        i += 1;
        assert(number_rows(r@) =~= front.push(sequence@));
        assert(number_rows(r@) =~= whole.take(i as int));
    }
    assert(number_rows(r@) =~= whole);
    r
}

/// The sequences that rows of bytes make: the full ones only.
pub open spec fn full_sequences(rows: Seq<Seq<Scalar>>, d_model: int) -> Seq<Seq<Scalar>> {
    Seq::new(
        rows.len() / 8,
        |i: int| stacked(rows, d_model, 8 * i, 8 * i + 8),
    )
}

/// The sequences that rows make, eight to a sequence. What is left over is dropped.
pub fn stack_full(rows: &Vec<Vec<Scalar>>, d_model: usize) -> (r: Vec<Vec<Scalar>>)
    ensures
        number_rows(r@) == full_sequences(number_rows(rows@), d_model as int),
{
    let ghost whole = full_sequences(number_rows(rows@), d_model as int);
    let mut r: Vec<Vec<Scalar>> = Vec::new();
    let mut i: usize = 0;
    while i < rows.len() / 8
        invariant
            i <= rows.len() / 8,
            whole == full_sequences(number_rows(rows@), d_model as int),
            number_rows(r@) == whole.take(i as int),
        decreases rows.len() / 8 - i,
    {
        let sequence: Vec<Scalar> = stack(rows, d_model, 8 * i, 8 * i + 8);
        let ghost front = number_rows(r@);
        assert(sequence@ == whole[i as int]);
        r.push(sequence);
        i += 1;
        assert(number_rows(r@) =~= front.push(sequence@));
        assert(number_rows(r@) =~= whole.take(i as int));
    }
    assert(number_rows(r@) =~= whole);
    r
}

/// The values in a row of bytes, four bytes to a value. What is left over is dropped.
pub fn blob_values(blob: &[u8]) -> (r: Vec<Scalar>)
    ensures
        r@ == scalars_at(blob@, 0, (blob@.len() / 4) as nat),
{
    get_scalars(blob, 0, blob.len() / 4)
}

/// Every fitted row has `d_model` values, so a sequence is as long as its rows say.
pub proof fn law_sequence_length(rows: Seq<Seq<Scalar>>, d_model: int, start: int, end: int)
    requires
        start <= end,
        0 <= d_model,
    ensures
        stacked(rows, d_model, start, end).len() == (end - start) * d_model,
    decreases end - start,
{
    if start < end {
        law_sequence_length(rows, d_model, start, end - 1);
        assert((end - 1 - start) * d_model + d_model == (end - start) * d_model)
            by (nonlinear_arith);
    } else {
        assert((end - start) * d_model == 0) by (nonlinear_arith)
            requires
                end == start,
        ;
    }
}

// ---------------------------------------------------------------------------
// Splitting a table
// ---------------------------------------------------------------------------

/// The records that can be read.
pub open spec fn readable(records: Seq<Option<Seq<Seq<char>>>>) -> Seq<Seq<Seq<char>>>
    decreases records.len(),
{
    if records.len() == 0 {
        Seq::empty()
    } else {
        let front = readable(records.drop_last());
        match records.last() {
            Some(fields) => front.push(fields),
            None => front,
        }
    }
}

/// The lines of the records from `start` to `end`, `None` where one cannot be written.
pub open spec fn written(records: Seq<Seq<Seq<char>>>, start: int, end: int) -> Option<Seq<u8>>
    decreases end - start,
{
    if end <= start {
        Some(Seq::empty())
    } else {
        match (written(records, start, end - 1), csv_line_of(records[end - 1])) {
            (Some(front), Some(line)) => Some(front + line),
            _ => None,
        }
    }
}

/// One part of a table: the header and the lines of the records from `start` to `end`.
pub open spec fn table_part(
    header: Seq<Seq<char>>,
    records: Seq<Seq<Seq<char>>>,
    start: int,
    end: int,
) -> Option<Seq<u8>> {
    match (csv_line_of(header), written(records, start, end)) {
        (Some(first), Some(rest)) => Some(first + rest),
        _ => None,
    }
}

/// Copies the records that can be read.
pub fn keep_readable(records: &Vec<Option<Vec<String>>>) -> (r: Vec<Vec<String>>)
    ensures
        row_texts(r@) == readable(all_record_texts(records@)),
{
    let ghost all = all_record_texts(records@);
    let mut r: Vec<Vec<String>> = Vec::new();
    let mut i: usize = 0;
    assert(all.take(0) =~= Seq::empty());
    assert(row_texts(r@) =~= Seq::empty());
    while i < records.len()
        invariant
            i <= records.len(),
            all == all_record_texts(records@),
            row_texts(r@) == readable(all.take(i as int)),
        decreases records.len() - i,
    {
        assert(all.take(i + 1).drop_last() =~= all.take(i as int));
        assert(all.take(i + 1).last() == record_texts(records@[i as int]));
        if let Some(fields) = &records[i] {
            let mut copy: Vec<String> = Vec::new();
            crate::text::add_items(&mut copy, fields);
            let ghost front = row_texts(r@);
            assert(texts(copy@) =~= texts(fields@));
            r.push(copy);
            assert(row_texts(r@) =~= front.push(texts(copy@)));
        }
        i += 1;
    }
    assert(all.take(i as int) =~= all);
    r
}

/// One part of a table in bytes. `None` where a record cannot be written.
fn write_part(header: &Vec<String>, records: &Vec<Vec<String>>, start: usize, end: usize) -> (r: Option<
    Vec<u8>,
>)
    requires
        start <= end <= records@.len(),
    ensures
        match (r, table_part(texts(header@), row_texts(records@), start as int, end as int)) {
            (Some(part), Some(model)) => part@ == model,
            (None, None) => true,
            _ => false,
        },
{
    let ghost rows = row_texts(records@);
    let mut out: Vec<u8> = match csv_line(header) {
        Some(line) => line,
        None => {
            return None;
        },
    };
    let ghost first = out@;
    let mut i: usize = start;
    assert(first + Seq::<u8>::empty() =~= first);
    while i < end
        invariant
            start <= i <= end <= records@.len(),
            rows == row_texts(records@),
            csv_line_of(texts(header@)) == Some(first),
            written(rows, start as int, i as int) matches Some(front) && out@ == first + front,
        decreases end - i,
    {
        assert(rows[i as int] == texts(records@[i as int]@));
        match csv_line(&records[i]) {
            Some(line) => {
                let ghost front = written(rows, start as int, i as int)->0;
                crate::bytes::put_bytes(&mut out, &line);
                assert(out@ =~= first + (front + line@));
            },
            None => {
                proof {
                    lemma_written_end(rows, start as int, i + 1, end as int);
                }
                return None;
            },
        }
        i += 1;
    }
    Some(out)
}

proof fn lemma_written_end(records: Seq<Seq<Seq<char>>>, start: int, a: int, b: int)
    requires
        start < a <= b,
        written(records, start, a) is None,
    ensures
        written(records, start, b) is None,
    decreases b - a,
{
    if a < b {
        lemma_written_end(records, start, a, b - 1);
    }
}

/// A table in parts.
#[derive(Debug)]
pub struct TableParts {
    pub parts: Vec<Vec<u8>>,
    /// Records in all parts together.
    pub total: usize,
}

/// Cuts a CSV file into parts of `chunk_size` records, each with the header in front.
/// Records that cannot be read are passed over. `None` where the header cannot be read or a
/// record cannot be written.
pub fn split_csv(data: &[u8], chunk_size: usize) -> (r: Option<TableParts>)
    ensures
        r is Some ==> csv_header_of(data@) is Some,
        r matches Some(t) ==> {
            let rows = readable(csv_records_of(data@));
            let bounds = chunk_bounds(
                rows.len() as int,
                if chunk_size > 0 {
                    chunk_size as int
                } else {
                    1
                },
            );
            &&& t.total == rows.len()
            &&& t.parts@.len() == bounds.len()
            &&& forall|i: int|
                0 <= i < bounds.len() ==> table_part(
                    csv_header_of(data@)->0,
                    rows,
                    bounds[i].0 as int,
                    bounds[i].1 as int,
                ) == Some((#[trigger] t.parts@[i])@)
        },
        r is None ==> csv_header_of(data@) is None || exists|i: int|
            0 <= i < chunk_bounds(
                readable(csv_records_of(data@)).len() as int,
                if chunk_size > 0 {
                    chunk_size as int
                } else {
                    1
                },
            ).len() && part_fails(data@, chunk_size, i),
{
    let header: Vec<String> = match csv_header(data) {
        Some(h) => h,
        None => {
            return None;
        },
    };
    let records: Vec<Option<Vec<String>>> = csv_records(data);
    let rows: Vec<Vec<String>> = keep_readable(&records);
    let size: usize = if chunk_size > 0 {
        chunk_size
    } else {
        1
    };
    let bounds: Vec<(usize, usize)> = chunk_ranges(rows.len(), size);
    let ghost model = readable(csv_records_of(data@));
    assert(row_texts(rows@) == model);
    assert(model.len() == rows@.len());
    let mut parts: Vec<Vec<u8>> = Vec::with_capacity(bounds.len());
    let mut i: usize = 0;
    while i < bounds.len()
        invariant
            i <= bounds.len(),
            size > 0,
            size == if chunk_size > 0 {
                chunk_size as int
            } else {
                1
            },
            model == readable(csv_records_of(data@)),
            row_texts(rows@) == model,
            model.len() == rows@.len(),
            rows@.len() <= usize::MAX,
            bounds@ == chunk_bounds(rows@.len() as int, size as int),
            csv_header_of(data@) == Some(texts(header@)),
            parts@.len() == i,
            forall|k: int|
                0 <= k < i ==> table_part(
                    texts(header@),
                    model,
                    bounds@[k].0 as int,
                    bounds@[k].1 as int,
                ) == Some((#[trigger] parts@[k])@),
        decreases bounds.len() - i,
    {
        proof {
            if rows@.len() > 0 {
                crate::dataset::law_chunks_cover(rows@.len() as int, size as int, i as int);
            } else {
                vstd::arithmetic::div_mod::lemma_basic_div(size - 1, size as int);
            }
        }
        let (start, end): (usize, usize) = bounds[i];
        match write_part(&header, &rows, start, end) {
            Some(part) => {
                parts.push(part);
            },
            None => {
                assert(part_fails(data@, chunk_size, i as int));
                return None;
            },
        }
        i += 1;
    }
    Some(TableParts { parts, total: rows.len() })
}

/// Part `i` of a CSV file cannot be written.
pub open spec fn part_fails(data: Seq<u8>, chunk_size: usize, i: int) -> bool {
    let rows = readable(csv_records_of(data));
    let bounds = chunk_bounds(
        rows.len() as int,
        if chunk_size > 0 {
            chunk_size as int
        } else {
            1
        },
    );
    csv_header_of(data) matches Some(header) && table_part(
        header,
        rows,
        bounds[i].0 as int,
        bounds[i].1 as int,
    ) is None
}

/// A table is read where all its records can be read, one row for each, with every field
/// trimmed.
pub proof fn law_records_become_rows(records: Seq<Option<Seq<Seq<char>>>>, r: int, c: int)
    requires
        0 <= r < records.len(),
    ensures
        table_fields(records) is Some <==> forall|i: int|
            0 <= i < records.len() ==> #[trigger] records[i] is Some,
        table_fields(records) matches Some(rows) ==> {
            &&& rows.len() == records.len()
            &&& rows[r].len() == records[r]->0.len()
            &&& 0 <= c < rows[r].len() ==> rows[r][c] == trimmed(records[r]->0[c])
        },
    decreases records.len(),
{
    let front = records.drop_last();
    if records.len() == 1 {
        assert(front =~= Seq::empty());
        assert(table_fields(front) == Some(Seq::<Seq<Seq<char>>>::empty()));
        assert(records.last() == records[0]);
    } else {
        law_records_become_rows(front, if r < front.len() {
            r
        } else {
            0
        }, c);
        assert(forall|i: int| 0 <= i < front.len() ==> #[trigger] front[i] == records[i]);
        assert(records.last() == records[records.len() - 1]);
        if table_fields(front) is Some && records.last() is Some {
            assert forall|i: int| 0 <= i < records.len() implies #[trigger] records[i] is Some by {
                if i < front.len() {
                    assert(front[i] is Some);
                }
            }
        }
    }
}

/// The text of a row is that of its parts with one space between them, where both have any.
/// Numbers and empty fields add nothing to it, and a single field is taken as it is.
pub proof fn law_row_text_is_spaced(a: Seq<CellModel>, b: Seq<CellModel>, s: Seq<char>, x: Scalar)
    ensures
        joined(a).len() > 0 && joined(b).len() > 0 ==> joined(a + b) == joined(a) + " "@ + joined(b),
        joined(a).len() == 0 ==> joined(a + b) == joined(b),
        joined(b).len() == 0 ==> joined(a + b) == joined(a),
        joined(seq![CellModel::Text(s)]) == s,
        joined(seq![CellModel::Number(x)]).len() == 0,
    decreases b.len(),
{
    let (text, number) = (seq![CellModel::Text(s)], seq![CellModel::Number(x)]);
    assert(text.drop_last() =~= Seq::empty());
    assert(number.drop_last() =~= Seq::empty());
    assert(joined(text.drop_last()) =~= Seq::empty());
    assert(joined(number.drop_last()) =~= Seq::empty());
    if s.len() == 0 {
        assert(s =~= Seq::empty());
    }
    if b.len() > 0 {
        law_row_text_is_spaced(a, b.drop_last(), s, x);
        assert((a + b).drop_last() =~= a + b.drop_last());
        let front = joined(b.drop_last());
        if let CellModel::Text(t) = b.last() {
            if front.len() == 0 {
                assert(front =~= Seq::empty());
            }
            if joined(a).len() == 0 {
                assert(joined(a) =~= Seq::empty());
            }
            assert(joined(a) + " "@ + (front + " "@ + t) =~= (joined(a) + " "@ + front) + " "@ + t);
        }
    } else {
        assert(a + b =~= a);
        if joined(a).len() == 0 {
            assert(joined(a) =~= Seq::<char>::empty());
        }
    }
}

/// Numbers stand in the order of their fields, and rows in the order of the table: what a whole
/// gives is what its front gives and behind it what its rest gives.
pub proof fn law_tables_keep_their_order(
    a: Seq<CellModel>,
    b: Seq<CellModel>,
    rows: Seq<Seq<CellModel>>,
    more: Seq<Seq<CellModel>>,
    s: Seq<char>,
    x: Scalar,
)
    ensures
        numbers(a + b) == numbers(a) + numbers(b),
        numbers(seq![CellModel::Number(x)]) == seq![x],
        numbers(seq![CellModel::Text(s)]).len() == 0,
        table_texts(rows + more) == table_texts(rows) + table_texts(more),
        table_numbers(rows + more) == table_numbers(rows) + table_numbers(more),
    decreases b.len() + more.len(),
{
    let (text, number) = (seq![CellModel::Text(s)], seq![CellModel::Number(x)]);
    assert(text.drop_last() =~= Seq::empty());
    assert(number.drop_last() =~= Seq::empty());
    assert(numbers(text.drop_last()) =~= Seq::empty());
    assert(numbers(number.drop_last()) =~= Seq::empty());
    assert(numbers(number) =~= seq![x]);
    if b.len() > 0 {
        law_tables_keep_their_order(a, b.drop_last(), rows, more, s, x);
        assert((a + b).drop_last() =~= a + b.drop_last());
        assert(numbers(a + b) =~= numbers(a) + numbers(b));
    } else {
        assert(a + b =~= a);
        assert(numbers(a + b) =~= numbers(a) + numbers(b));
        if more.len() > 0 {
            law_tables_keep_their_order(a, b, rows, more.drop_last(), s, x);
            assert((rows + more).drop_last() =~= rows + more.drop_last());
        } else {
            assert(rows + more =~= rows);
        }
        assert(table_texts(rows + more) =~= table_texts(rows) + table_texts(more));
        assert(table_numbers(rows + more) =~= table_numbers(rows) + table_numbers(more));
    }
}

/// A row that holds text gives that text and no numbers. One that holds none gives its numbers,
/// where it has any.
pub proof fn law_text_hides_numbers(row: Seq<CellModel>)
    ensures
        joined(row).len() > 0 ==> table_texts(seq![row]) == seq![joined(row)] && table_numbers(
            seq![row],
        ).len() == 0,
        joined(row).len() == 0 ==> table_texts(seq![row]).len() == 0,
        joined(row).len() == 0 && numbers(row).len() > 0 ==> table_numbers(seq![row]) == seq![
            numbers(row),
        ],
        joined(row).len() == 0 && numbers(row).len() == 0 ==> table_numbers(seq![row]).len() == 0,
{
    assert(seq![row].drop_last() =~= Seq::empty());
    assert(table_texts(seq![row].drop_last()) =~= Seq::empty());
    assert(table_numbers(seq![row].drop_last()) =~= Seq::empty());
    if joined(row).len() > 0 {
        assert(table_texts(seq![row]) =~= seq![joined(row)]);
    }
    if joined(row).len() == 0 && numbers(row).len() > 0 {
        assert(table_numbers(seq![row]) =~= seq![numbers(row)]);
    }
}

proof fn lemma_stacked_value(rows: Seq<Seq<Scalar>>, d_model: int, start: int, end: int, r: int, c: int)
    requires
        start <= r < end,
        0 <= c < d_model,
    ensures
        0 <= (r - start) * d_model + c < stacked(rows, d_model, start, end).len(),
        stacked(rows, d_model, start, end).len() == (end - start) * d_model,
        stacked(rows, d_model, start, end)[(r - start) * d_model + c] == if c < rows[r].len() {
            rows[r][c]
        } else {
            Scalar::zero()
        },
    decreases end - start,
{
    law_sequence_length(rows, d_model, start, end);
    law_sequence_length(rows, d_model, start, end - 1);
    assert(0 <= (r - start) * d_model && (r - start) * d_model + d_model <= (end - start) * d_model)
        by (nonlinear_arith)
        requires
            start <= r,
            r + 1 <= end,
            0 < d_model,
    ;
    if r < end - 1 {
        lemma_stacked_value(rows, d_model, start, end - 1, r, c);
    }
}

/// Eight rows make a sequence: row `j` of sequence `q` is row 8 * q + j, cut off or filled up
/// with zeros to `d_model` values. The last sequence holds what is left over, where leftovers
/// are kept, and else there is none for them.
pub proof fn law_eight_rows_a_sequence(rows: Seq<Seq<Scalar>>, d_model: int, q: int, j: int, c: int)
    requires
        rows.len() <= usize::MAX,
        0 <= q,
        0 <= j < 8,
        8 * q + j < rows.len(),
        0 <= c < d_model,
    ensures
        ({
            let all = row_sequences(rows, d_model);
            let full = full_sequences(rows, d_model);
            let row = rows[8 * q + j];
            &&& q < all.len()
            &&& 8 * (all.len() - 1) < rows.len() <= 8 * all.len()
            &&& all[q].len() == d_model * (if 8 * q + 8 <= rows.len() {
                8
            } else {
                rows.len() - 8 * q
            })
            &&& c < row.len() ==> all[q][j * d_model + c] == row[c]
            &&& c >= row.len() ==> all[q][j * d_model + c].units() == 0
            &&& 8 * full.len() <= rows.len() < 8 * full.len() + 8
            &&& q < full.len() ==> full[q] == all[q]
        }),
{
    let bounds = chunk_bounds(rows.len() as int, 8);
    let end = if 8 * q + 8 < rows.len() {
        8 * q + 8
    } else {
        rows.len() as int
    };
    crate::dataset::law_chunks_are_full(rows.len() as int, 8, 0);
    crate::dataset::law_chunks_are_full(rows.len() as int, 8, q);
    assert(bounds[q].0 == 8 * q && bounds[q].1 == end);
    lemma_stacked_value(rows, d_model, 8 * q, end, 8 * q + j, c);
    assert((8 * q + j - 8 * q) * d_model == j * d_model);
    assert((end - 8 * q) * d_model == d_model * (end - 8 * q)) by (nonlinear_arith);
}

/// The readable records stand in their order, and the unreadable ones leave no gap.
pub proof fn law_unreadable_records_are_dropped(
    a: Seq<Option<Seq<Seq<char>>>>,
    b: Seq<Option<Seq<Seq<char>>>>,
    record: Seq<Seq<char>>,
)
    ensures
        readable(a + b) == readable(a) + readable(b),
        readable(seq![Some(record)]) == seq![record],
        readable(seq![None]).len() == 0,
    decreases b.len(),
{
    let one: Seq<Option<Seq<Seq<char>>>> = seq![Some(record)];
    let none: Seq<Option<Seq<Seq<char>>>> = seq![None];
    assert(one.drop_last() =~= Seq::empty());
    assert(none.drop_last() =~= Seq::empty());
    assert(readable(one.drop_last()) =~= Seq::empty());
    assert(readable(none.drop_last()) =~= Seq::empty());
    assert(readable(one) =~= seq![record]);
    if b.len() > 0 {
        law_unreadable_records_are_dropped(a, b.drop_last(), record);
        assert((a + b).drop_last() =~= a + b.drop_last());
    } else {
        assert(a + b =~= a);
    }
    assert(readable(a + b) =~= readable(a) + readable(b));
}

/// A part of a table is its header line and the lines of its records. Where two stretches of
/// records follow each other, so do their lines, and what cannot be written in one cannot be
/// written in both together.
pub proof fn law_parts_hold_header_and_lines(
    header: Seq<Seq<char>>,
    records: Seq<Seq<Seq<char>>>,
    a: int,
    b: int,
    c: int,
)
    requires
        a <= b <= c,
    ensures
        table_part(header, records, a, a) == csv_line_of(header),
        csv_line_of(header) is None ==> table_part(header, records, a, c) is None,
        table_part(header, records, a, b) matches Some(front) ==> (written(records, b, c) matches Some(
            rest,
        ) ==> table_part(header, records, a, c) == Some(front + rest)),
        written(records, a, a + 1) == csv_line_of(records[a]),
        table_part(header, records, a, b) is None ==> table_part(header, records, a, c) is None,
        written(records, b, c) is None ==> table_part(header, records, a, c) is None,
    decreases c - b,
{
    assert(written(records, a, a) == Some(Seq::<u8>::empty()));
    if let Some(first) = csv_line_of(header) {
        assert(first + Seq::<u8>::empty() =~= first);
    }
    if let Some(line) = csv_line_of(records[a]) {
        assert(Seq::<u8>::empty() + line =~= line);
    }
    if b < c {
        law_parts_hold_header_and_lines(header, records, a, b, c - 1);
        if let (Some(front), Some(rest), Some(line)) = (
            table_part(header, records, a, b),
            written(records, b, c - 1),
            csv_line_of(records[c - 1]),
        ) {
            let first = csv_line_of(header)->0;
            let mid = written(records, a, c - 1)->0;
            assert(first + mid == front + rest);
            assert(first + (mid + line) =~= (first + mid) + line);
            assert(front + (rest + line) =~= (front + rest) + line);
        }
    } else {
        if let Some(front) = table_part(header, records, a, b) {
            assert(front + Seq::<u8>::empty() =~= front);
        }
    }
}


} // verus!

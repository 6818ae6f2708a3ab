//! Reading delimited text: the schema of its columns and the options of the parser.

use vstd::prelude::*;
use vstd::string::{StringExecFns, StringSliceAdditionalSpecFns};
use vstd::utf8::encode_utf8;
use crate::engine::naming::{append_decimal, decimal};
use crate::keys::{compare_keys, KeyOrder};
use crate::query::literal::{is_number, is_number_literal};
use crate::text::{lower_of, to_lower};
use crate::types::{DbError, DbResult, Value};

verus! {

/// The kinds of column.
#[derive(Debug, Clone, Copy, PartialEq, Eq, Structural)]
pub enum DataType {
    String,
    Number,
    Boolean,
    Date,
}

/// The names and the kinds of the columns.
#[derive(Debug)]
pub struct CSVSchema {
    pub columns: Vec<String>,
    pub types: Vec<DataType>,
}

impl CSVSchema {
    pub fn new(columns: Vec<String>, types: Vec<DataType>) -> (r: Self)
        ensures
            r.columns == columns,
            r.types == types,
    {
        Self { columns, types }
    }

    /// The kind of the column at `column_index`, if the schema reaches that far.
    pub fn get_column_type(&self, column_index: usize) -> (r: Option<&DataType>)
        ensures
            match r {
                Some(t) => column_index < self.types@.len() && *t == self.types@[
                    column_index as int],
                None => column_index >= self.types@.len(),
            },
    {
        if column_index < self.types.len() {
            Some(&self.types[column_index])
        } else {
            None
        }
    }
}

/// The options of the parser.
#[derive(Debug)]
pub struct CSVParser {
    delimiter: u8,
    has_headers: bool,
    key_column: usize,
    value_column: usize,
    schema: Option<CSVSchema>,
}

/// The model of the parser's options.
pub struct ParserOptions {
    pub delimiter: u8,
    pub has_headers: bool,
    pub key_column: usize,
    pub value_column: usize,
    pub has_schema: bool,
}

impl View for CSVParser {
    type V = ParserOptions;

    closed spec fn view(&self) -> ParserOptions {
        ParserOptions {
            delimiter: self.delimiter,
            has_headers: self.has_headers,
            key_column: self.key_column,
            value_column: self.value_column,
            has_schema: self.schema is Some,
        }
    }
}

impl CSVParser {
    /// The schema that records are held against, if one was given.
    pub closed spec fn spec_schema(&self) -> Option<CSVSchema> {
        self.schema
    }

    /// A parser for comma-separated text with a header line.
    pub fn new(key_column: usize, value_column: usize) -> (r: Self)
        ensures
            r@ == (ParserOptions {
                delimiter: 44,
                has_headers: true,
                key_column,
                value_column,
                has_schema: false,
            }),
    {
        Self { delimiter: 44, has_headers: true, key_column, value_column, schema: None }
    }

    pub fn with_delimiter(self, delimiter: u8) -> (r: Self)
        ensures
            r@ == (ParserOptions { delimiter, ..self@ }),
            r.spec_schema() == self.spec_schema(),
    {
        Self {
            delimiter,
            has_headers: self.has_headers,
            key_column: self.key_column,
            value_column: self.value_column,
            schema: self.schema,
        }
    }

    /// Sets the delimiter to the low eight bits of the character.
    pub fn with_custom_delimiter(self, delimiter: char) -> (r: Self)
        ensures
            r@ == (ParserOptions { delimiter: (delimiter as u32 % 256) as u8, ..self@ }),
            r.spec_schema() == self.spec_schema(),
    {
        let low: u8 = (delimiter as u32 % 256) as u8;
        self.with_delimiter(low)
    }

    pub fn with_headers(self, has_headers: bool) -> (r: Self)
        ensures
            r@ == (ParserOptions { has_headers, ..self@ }),
            r.spec_schema() == self.spec_schema(),
    {
        Self {
            delimiter: self.delimiter,
            has_headers,
            key_column: self.key_column,
            value_column: self.value_column,
            schema: self.schema,
        }
    }

    pub fn with_schema(self, schema: CSVSchema) -> (r: Self)
        ensures
            r@ == (ParserOptions { has_schema: true, ..self@ }),
            r.spec_schema() == Some(schema),
    {
        Self {
            delimiter: self.delimiter,
            has_headers: self.has_headers,
            key_column: self.key_column,
            value_column: self.value_column,
            schema: Some(schema),
        }
    }

    pub fn delimiter(&self) -> (r: u8)
        ensures
            r == self@.delimiter,
    {
        self.delimiter
    }

    pub fn has_headers(&self) -> (r: bool)
        ensures
            r == self@.has_headers,
    {
        self.has_headers
    }
}

/// One row as the reader gives it: its fields, or the words of an error.
pub type Row = Result<Vec<String>, String>;

/// The model of a row.
pub type RowModel = Result<Seq<Seq<char>>, Seq<char>>;

/// The models of fields.
pub open spec fn fields_of(fields: Seq<String>) -> Seq<Seq<char>> {
    Seq::new(fields.len(), |i: int| fields[i]@)
}

/// The model of a row.
pub open spec fn row_model(row: Row) -> RowModel {
    match row {
        Ok(fields) => Ok(fields_of(fields@)),
        Err(e) => Err(e@),
    }
}

/// The models of rows.
pub open spec fn rows_of(rows: Seq<Row>) -> Seq<RowModel> {
    Seq::new(rows.len(), |i: int| row_model(rows[i]))
}

/// What the `csv` reader makes of the bytes with this delimiter: the rows
/// behind the header line, if there is one, each with its fields or with
/// the words of the error that the reader found in it.
pub uninterp spec fn csv_rows(data: Seq<u8>, delimiter: u8, has_headers: bool) -> Seq<RowModel>;

/// What the `csv` reader takes as the header line of the bytes.
pub uninterp spec fn csv_headers(data: Seq<u8>, delimiter: u8, has_headers: bool) -> Option<
    Seq<Seq<char>>,
>;

/// `csv::ReaderBuilder::from_reader` with the delimiter and the header
/// option set, then `Reader::records`: all rows, in order.
#[verifier::external_body]
pub(crate) fn read_rows(data: &[u8], delimiter: u8, has_headers: bool) -> (r: Vec<Row>)
    ensures
        rows_of(r@) == csv_rows(data@, delimiter, has_headers),
{
    let mut reader = csv::ReaderBuilder::new().delimiter(delimiter).has_headers(
        has_headers,
    ).from_reader(data);
    let mut rows: Vec<Row> = Vec::new();
    for result in reader.records() {
        rows.push(
            match result {
                Ok(record) => Ok(record.iter().map(|field| field.to_string()).collect()),
                Err(e) => Err(e.to_string()),
            },
        );
    }
    rows
}

/// `csv::ReaderBuilder::from_reader` with the delimiter and the header
/// option set, then `Reader::headers`: the header line, if it can be read.
#[verifier::external_body]
fn read_headers(data: &[u8], delimiter: u8, has_headers: bool) -> (r: Option<Vec<String>>)
    ensures
        match r {
            Some(h) => csv_headers(data@, delimiter, has_headers) == Some(fields_of(h@)),
            None => csv_headers(data@, delimiter, has_headers) is None,
        },
{
    let mut reader = csv::ReaderBuilder::new().delimiter(delimiter).has_headers(
        has_headers,
    ).from_reader(data);
    match reader.headers() {
        Ok(record) => Some(record.iter().map(|field| field.to_string()).collect()),
        Err(_) => None,
    }
}

/// Whether a text in lower case is one of the words for a truth value.
pub open spec fn is_truth_word(lowered: Seq<char>) -> bool {
    lowered == "true"@ || lowered == "false"@ || lowered == "1"@ || lowered == "0"@ || lowered
        == "yes"@ || lowered == "no"@
}

/// Whether a field reads as a truth value.
pub open spec fn reads_as_boolean(field: Seq<char>) -> bool {
    is_truth_word(lower_of(field))
}

/// Whether a field reads as a number.
pub open spec fn reads_as_number(field: Seq<char>) -> bool {
    is_number(encode_utf8(field))
}

/// Whether a field holds one of `-`, `/` and `.`.
pub open spec fn reads_as_date(field: Seq<char>) -> bool {
    exists|i: int|
        0 <= i < encode_utf8(field).len() && (#[trigger] encode_utf8(field)[i] == 45 || encode_utf8(
            field,
        )[i] == 47 || encode_utf8(field)[i] == 46)
}

/// Whether a field fits a kind of column. An empty field fits every kind.
pub open spec fn fits_type(field: Seq<char>, kind: DataType) -> bool {
    field.len() == 0 || match kind {
        DataType::String => true,
        DataType::Number => reads_as_number(field),
        DataType::Boolean => reads_as_boolean(field),
        DataType::Date => reads_as_date(field),
    }
}

/// Whether a field reads as a truth value.
pub fn is_boolean_text(field: &str) -> (r: bool)
    ensures
        r == reads_as_boolean(field@),
{
    let lowered = to_lower(field);
    let l = lowered.as_str();
    compare_keys(l, "true") == KeyOrder::Equal || compare_keys(l, "false") == KeyOrder::Equal
        || compare_keys(l, "1") == KeyOrder::Equal || compare_keys(l, "0") == KeyOrder::Equal
        || compare_keys(l, "yes") == KeyOrder::Equal || compare_keys(l, "no") == KeyOrder::Equal
}

/// What the sample says of one column: how many of its fields are not
/// empty, how many of those read as numbers, and how many as truth values.
pub struct ColumnTally {
    pub filled: nat,
    pub numbers: nat,
    pub booleans: nat,
}

/// The tally of a column over the rows of a sample.
pub open spec fn tally(sample: Seq<Seq<Seq<char>>>, column: int) -> ColumnTally
    decreases sample.len(),
{
    if sample.len() == 0 {
        ColumnTally { filled: 0, numbers: 0, booleans: 0 }
    } else {
        let rest = tally(sample.drop_last(), column);
        let row = sample.last();
        if 0 <= column < row.len() && row[column].len() > 0 {
            ColumnTally {
                filled: rest.filled + 1,
                numbers: rest.numbers + if reads_as_number(row[column]) {
                    1nat
                } else {
                    0nat
                },
                booleans: rest.booleans + if reads_as_boolean(row[column]) {
                    1nat
                } else {
                    0nat
                },
            }
        } else {
            rest
        }
    }
}

/// The kind that a tally speaks for: numbers if more than half of the
/// filled fields read as numbers, else truth values if more than half
/// read as such, else text.
pub open spec fn kind_of(t: ColumnTally) -> DataType {
    if t.filled == 0 {
        DataType::String
    } else if t.numbers * 2 > t.filled {
        DataType::Number
    } else if t.booleans * 2 > t.filled {
        DataType::Boolean
    } else {
        DataType::String
    }
}

/// The models of sample rows.
pub open spec fn sample_of(rows: Seq<Vec<String>>) -> Seq<Seq<Seq<char>>> {
    Seq::new(rows.len(), |i: int| fields_of(rows[i]@))
}

/// The key and the value of each row, taken from the two columns. `None`
/// where a row is an error or lacks one of the columns.
pub open spec fn pairs_of(rows: Seq<RowModel>, key_column: int, value_column: int) -> Option<
    Seq<(Seq<char>, Seq<char>)>,
>
    decreases rows.len(),
{
    if rows.len() == 0 {
        Some(Seq::empty())
    } else {
        match pairs_of(rows.drop_last(), key_column, value_column) {
            Some(pairs) => match rows.last() {
                Ok(fields) => if 0 <= key_column < fields.len() && 0 <= value_column
                    < fields.len() {
                    Some(pairs.push((fields[key_column], fields[value_column])))
                } else {
                    None
                },
                Err(_) => None,
            },
            None => None,
        }
    }
}

/// The models of key-value pairs whose values are data.
pub open spec fn data_pairs(records: Seq<(String, Value)>) -> Seq<(Seq<char>, Seq<char>)> {
    Seq::new(
        records.len(),
        |i: int|
            (
                records[i].0@,
                match records[i].1@ {
                    Some(v) => v,
                    None => Seq::empty(),
                },
            ),
    )
}

impl CSVParser {
    /// The kind of a column, by the majority of its filled fields in the sample.
    pub fn infer_column_type(&self, sample_data: &Vec<Vec<String>>, column_index: usize) -> (r:
        DataType)
        ensures
            r == kind_of(tally(sample_of(sample_data@), column_index as int)),
    {
        let ghost sample = sample_of(sample_data@);
        let mut number_count: usize = 0;
        let mut boolean_count: usize = 0;
        let mut total_count: usize = 0;
        let mut i: usize = 0;
        proof {
            assert(sample.take(0) =~= Seq::<Seq<Seq<char>>>::empty());
        }
        while i < sample_data.len()
            invariant
                i <= sample_data@.len(),
                sample == sample_of(sample_data@),
                total_count <= i,
                number_count <= total_count,
                boolean_count <= total_count,
                tally(sample.take(i as int), column_index as int) == (ColumnTally {
                    filled: total_count as nat,
                    numbers: number_count as nat,
                    booleans: boolean_count as nat,
                }),
            decreases sample_data.len() - i,
        {
            proof {
                assert(sample.take(i + 1).drop_last() =~= sample.take(i as int));
                assert(sample.take(i + 1).last() == fields_of(sample_data@[i as int]@));
            }
            let row = &sample_data[i];
            if column_index < row.len() {
                let value = row[column_index].as_str();
                if !value.is_empty() {
                    total_count += 1;
                    if is_number_literal(value) {
                        number_count += 1;
                    }
                    if is_boolean_text(value) {
                        boolean_count += 1;
                    }
                }
            }
            i += 1;
        }
        proof {
            assert(sample.take(i as int) =~= sample);
        }
        if total_count == 0 {
            return DataType::String;
        }
        let half = total_count / 2;
        if number_count > half {
            DataType::Number
        } else if boolean_count > half {
            DataType::Boolean
        } else {
            DataType::String
        }
    }

    /// Whether a field fits a kind of column. An empty field fits every kind.
    pub fn validate_field_type(&self, field: &str, expected_type: &DataType) -> (r: bool)
        ensures
            r == fits_type(field@, *expected_type),
    {
        if field.is_empty() {
            return true;
        }
        match expected_type {
            DataType::String => true,
            DataType::Number => is_number_literal(field),
            DataType::Boolean => is_boolean_text(field),
            DataType::Date => {
                let b = field.as_bytes();
                let mut i: usize = 0;
                while i < b.len()
                    invariant
                        i <= b@.len(),
                        b@ == encode_utf8(field@),
                        field@.len() > 0,
                        *expected_type == DataType::Date,
                        forall|j: int|
                            0 <= j < i ==> !(#[trigger] b@[j] == 45 || b@[j] == 47 || b@[j] == 46),
                    decreases b.len() - i,
                {
                    if b[i] == 45 || b[i] == 47 || b[i] == 46 {
                        return true;
                    }
                    i += 1;
                }
                false
            },
        }
    }

    /// Whether every field of a record fits the kind that the schema gives
    /// its column. Without a schema every record passes; so does a field
    /// for whose column the schema has no kind.
    pub fn validate_record(&self, record: &Vec<String>) -> (r: DbResult<()>)
        ensures
            match r {
                Ok(_) => match self.spec_schema() {
                    Some(schema) => forall|i: int|
                        0 <= i < record@.len() && i < schema.types@.len() ==> fits_type(
                            (#[trigger] record@[i])@,
                            schema.types@[i],
                        ),
                    None => true,
                },
                Err(DbError::InvalidOperation(_)) => match self.spec_schema() {
                    Some(schema) => exists|i: int|
                        0 <= i < record@.len() && i < schema.types@.len() && !fits_type(
                            (#[trigger] record@[i])@,
                            schema.types@[i],
                        ),
                    None => false,
                },
                Err(_) => false,
            },
    {
        match &self.schema {
            None => Ok(()),
            Some(schema) => {
                let mut i: usize = 0;
                while i < record.len()
                    invariant
                        i <= record@.len(),
                        self.spec_schema() == Some(*schema),
                        forall|j: int|
                            0 <= j < i && j < schema.types@.len() ==> fits_type(
                                (#[trigger] record@[j])@,
                                schema.types@[j],
                            ),
                    decreases record.len() - i,
                {
                    match schema.get_column_type(i) {
                        Some(expected) => {
                            if !self.validate_field_type(record[i].as_str(), expected) {
                                let mut message = String::from_str("Field '");
                                message.append(record[i].as_str());
                                message.append("' in column ");
                                append_decimal(&mut message, i as u64);
                                message.append(" doesn't match expected type");
                                return Err(DbError::InvalidOperation(message));
                            }
                        },
                        None => {},
                    }
                    i += 1;
                }
                Ok(())
            },
        }
    }

    /// The key and the value of each row, taken from the parser's two
    /// columns. A row that is an error, or lacks one of the columns, makes
    /// the whole an error.
    pub fn records_from_rows(&self, rows: &Vec<Row>) -> (r: DbResult<Vec<(String, Value)>>)
        ensures
            match r {
                Ok(records) => pairs_of(
                    rows_of(rows@),
                    self@.key_column as int,
                    self@.value_column as int,
                ) == Some(data_pairs(records@)) && forall|i: int|
                    0 <= i < records@.len() ==> (#[trigger] records@[i]).1@ is Some,
                Err(DbError::InvalidOperation(_)) => pairs_of(
                    rows_of(rows@),
                    self@.key_column as int,
                    self@.value_column as int,
                ) is None,
                Err(_) => false,
            },
    {
        let ghost ms = rows_of(rows@);
        let ghost k = self.key_column as int;
        let ghost v = self.value_column as int;
        let mut records: Vec<(String, Value)> = Vec::new();
        let mut i: usize = 0;
        proof {
            assert(ms.take(0) =~= Seq::<RowModel>::empty());
            assert(data_pairs(records@) =~= Seq::<(Seq<char>, Seq<char>)>::empty());
        }
        while i < rows.len()
            invariant
                i <= rows@.len(),
                ms == rows_of(rows@),
                k == self@.key_column,
                v == self@.value_column,
                pairs_of(ms.take(i as int), k, v) == Some(data_pairs(records@)),
                forall|j: int| 0 <= j < records@.len() ==> (#[trigger] records@[j]).1@ is Some,
            decreases rows.len() - i,
        {
            proof {
                assert(ms.take(i + 1).drop_last() =~= ms.take(i as int));
                assert(ms.take(i + 1).last() == row_model(rows@[i as int]));
                lemma_pairs_none(ms, i + 1, k, v);
            }
            let ghost before = data_pairs(records@);
            match &rows[i] {
                Ok(fields) => {
                    if self.key_column >= fields.len() {
                        return Err(
                            DbError::InvalidOperation(String::from_str("Key column not found")),
                        );
                    }
                    if self.value_column >= fields.len() {
                        return Err(
                            DbError::InvalidOperation(String::from_str("Value column not found")),
                        );
                    }
                    records.push(
                        (fields[self.key_column].clone(), Value::Data(
                            fields[self.value_column].clone(),
                        )),
                    );
                    proof {
                        assert(data_pairs(records@) =~= before.push(
                            (fields@[k]@, fields@[v]@),
                        ));
                    }
                },
                Err(e) => {
                    let mut message = String::from_str("CSV parsing error: ");
                    message.append(e.as_str());
                    return Err(DbError::InvalidOperation(message));
                },
            }
            i += 1;
        }
        proof {
            assert(ms.take(i as int) =~= ms);
        }
        Ok(records)
    }

    /// The key and the value of each row of delimited text.
    pub fn parse_records(&self, data: &[u8]) -> (r: DbResult<Vec<(String, Value)>>)
        ensures
            match r {
                Ok(records) => pairs_of(
                    csv_rows(data@, self@.delimiter, self@.has_headers),
                    self@.key_column as int,
                    self@.value_column as int,
                ) == Some(data_pairs(records@)) && forall|i: int|
                    0 <= i < records@.len() ==> (#[trigger] records@[i]).1@ is Some,
                Err(DbError::InvalidOperation(_)) => pairs_of(
                    csv_rows(data@, self@.delimiter, self@.has_headers),
                    self@.key_column as int,
                    self@.value_column as int,
                ) is None,
                Err(_) => false,
            },
    {
        let rows = read_rows(data, self.delimiter, self.has_headers);
        self.records_from_rows(&rows)
    }
}

/// Where the pairs of a part of the rows fail, the pairs of all rows fail.
pub proof fn lemma_pairs_none(rows: Seq<RowModel>, n: int, key_column: int, value_column: int)
    requires
        0 <= n <= rows.len(),
    ensures
        pairs_of(rows.take(n), key_column, value_column) is None ==> pairs_of(
            rows,
            key_column,
            value_column,
        ) is None,
    decreases rows.len() - n,
{
    if n < rows.len() {
        assert(rows.take(n + 1).drop_last() =~= rows.take(n));
        lemma_pairs_none(rows, n + 1, key_column, value_column);
    } else {
        assert(rows.take(n) =~= rows);
    }
}

/// The number of rows that a schema is inferred from, at most.
pub const SAMPLE_ROWS: usize = 100;

/// The first rows of the text, up to the sample size.
pub open spec fn sample_rows(rows: Seq<RowModel>) -> Seq<RowModel> {
    if rows.len() > SAMPLE_ROWS {
        rows.take(SAMPLE_ROWS as int)
    } else {
        rows
    }
}

/// Some row of the sample is an error.
pub open spec fn sample_fails(rows: Seq<RowModel>) -> bool {
    exists|i: int| 0 <= i < sample_rows(rows).len() && (#[trigger] sample_rows(rows)[i]) is Err
}

/// The fields of rows none of which is an error.
pub open spec fn fields_of_rows(rows: Seq<RowModel>) -> Seq<Seq<Seq<char>>> {
    Seq::new(
        rows.len(),
        |i: int|
            match rows[i] {
                Ok(fields) => fields,
                Err(_) => Seq::empty(),
            },
    )
}

/// The name that a column without a header gets.
pub open spec fn generated_name(i: nat) -> Seq<char> {
    "column_"@ + decimal(i)
}

/// The names of the columns: the header line where it names any; else, for
/// a sample with rows, a generated name for each field of the first row.
pub open spec fn column_names(headers: Seq<Seq<char>>, sample: Seq<Seq<Seq<char>>>) -> Seq<
    Seq<char>,
> {
    if headers.len() > 0 || sample.len() == 0 {
        headers
    } else {
        Seq::new(sample[0].len(), |i: int| generated_name(i as nat))
    }
}

impl CSVParser {
    /// The schema that a header line and the rows of a sample speak for. An
    /// error among the rows of the sample makes the whole an error.
    pub fn schema_from(&self, headers: Vec<String>, rows: &Vec<Row>) -> (r: DbResult<CSVSchema>)
        ensures
            match r {
                Ok(schema) => {
                    let sample = fields_of_rows(sample_rows(rows_of(rows@)));
                    &&& forall|i: int|
                        0 <= i < sample_rows(rows_of(rows@)).len() ==> (#[trigger] sample_rows(
                            rows_of(rows@),
                        )[i]) is Ok
                    &&& fields_of(schema.columns@) == column_names(fields_of(headers@), sample)
                    &&& schema.types@.len() == schema.columns@.len()
                    &&& forall|c: int|
                        0 <= c < schema.types@.len() ==> #[trigger] schema.types@[c] == kind_of(
                            tally(sample, c),
                        )
                },
                Err(DbError::InvalidOperation(_)) => sample_fails(rows_of(rows@)),
                Err(_) => false,
            },
    {
        let ghost all = rows_of(rows@);
        let ghost wanted = sample_rows(all);
        let limit: usize = if rows.len() > SAMPLE_ROWS {
            SAMPLE_ROWS
        } else {
            rows.len()
        };
        let mut sample_data: Vec<Vec<String>> = Vec::new();
        let mut i: usize = 0;
        while i < limit
            invariant
                i <= limit,
                limit == wanted.len(),
                limit <= rows@.len(),
                all == rows_of(rows@),
                wanted == sample_rows(all),
                sample_data@.len() == i,
                forall|j: int| 0 <= j < i ==> (#[trigger] wanted[j]) is Ok,
                forall|j: int|
                    0 <= j < i ==> fields_of((#[trigger] sample_data@[j])@) == fields_of_rows(
                        wanted,
                    )[j],
            decreases limit - i,
        {
            proof {
                assert(wanted[i as int] == row_model(rows@[i as int]));
            }
            match &rows[i] {
                Ok(fields) => {
                    let mut copy: Vec<String> = Vec::new();
                    let mut f: usize = 0;
                    while f < fields.len()
                        invariant
                            f <= fields@.len(),
                            copy@.len() == f,
                            forall|x: int| 0 <= x < f ==> (#[trigger] copy@[x])@ == fields@[x]@,
                        decreases fields.len() - f,
                    {
                        copy.push(fields[f].clone());
                        f += 1;
                    }
                    proof {
                        assert(fields_of(copy@) =~= fields_of(fields@));
                    }
                    sample_data.push(copy);
                },
                Err(e) => {
                    let mut message = String::from_str(
                        "CSV parsing error during schema detection: ",
                    );
                    message.append(e.as_str());
                    proof {
                        assert(wanted[i as int] is Err);
                    }
                    return Err(DbError::InvalidOperation(message));
                },
            }
            i += 1;
        }
        let ghost sample = fields_of_rows(wanted);
        proof {
            assert(sample_of(sample_data@) =~= sample);
        }
        let mut columns = headers;
        if columns.len() == 0 && sample_data.len() > 0 {
            let width = sample_data[0].len();
            let mut c: usize = 0;
            while c < width
                invariant
                    c <= width,
                    columns@.len() == c,
                    forall|x: int| 0 <= x < c ==> (#[trigger] columns@[x])@ == generated_name(x as nat),
                decreases width - c,
            {
                let mut name = String::from_str("column_");
                append_decimal(&mut name, c as u64);
                columns.push(name);
                c += 1;
            }
            proof {
                assert(fields_of(columns@) =~= column_names(fields_of(headers@), sample));
            }
        }
        let mut types: Vec<DataType> = Vec::new();
        let mut c: usize = 0;
        while c < columns.len()
            invariant
                c <= columns@.len(),
                types@.len() == c,
                sample_of(sample_data@) == sample,
                forall|x: int| 0 <= x < c ==> #[trigger] types@[x] == kind_of(tally(sample, x)),
            decreases columns.len() - c,
        {
            types.push(self.infer_column_type(&sample_data, c));
            c += 1;
        }
        Ok(CSVSchema::new(columns, types))
    }

    /// The schema of delimited text: the names of its columns, by its
    /// header line or generated, and their kinds, by a sample of its rows.
    pub fn detect_schema(&self, data: &[u8]) -> (r: DbResult<CSVSchema>)
        ensures
            match r {
                Ok(schema) => {
                    let rows = csv_rows(data@, self@.delimiter, self@.has_headers);
                    let sample = fields_of_rows(sample_rows(rows));
                    &&& !sample_fails(rows)
                    &&& schema.types@.len() == schema.columns@.len()
                    &&& forall|c: int|
                        0 <= c < schema.types@.len() ==> #[trigger] schema.types@[c] == kind_of(
                            tally(sample, c),
                        )
                    &&& fields_of(schema.columns@) == column_names(
                        if self@.has_headers {
                            match csv_headers(data@, self@.delimiter, self@.has_headers) {
                                Some(h) => h,
                                None => Seq::empty(),
                            }
                        } else {
                            Seq::empty()
                        },
                        sample,
                    )
                },
                Err(DbError::InvalidOperation(_)) => sample_fails(
                    csv_rows(data@, self@.delimiter, self@.has_headers),
                ),
                Err(_) => false,
            },
    {
        let headers: Vec<String> = if self.has_headers {
            match read_headers(data, self.delimiter, self.has_headers) {
                Some(h) => h,
                None => Vec::new(),
            }
        } else {
            Vec::new()
        };
        let rows = read_rows(data, self.delimiter, self.has_headers);
        proof {
            if headers@.len() == 0 {
                assert(fields_of(headers@) =~= Seq::<Seq<char>>::empty());
            }
        }
        self.schema_from(headers, &rows)
    }
}

/// How often a byte occurs in each line of a text. Lines end at a line feed.
pub open spec fn line_counts(s: Seq<u8>, d: u8) -> Seq<nat>
    decreases s.len(),
{
    if s.len() == 0 {
        seq![0nat]
    } else {
        let rest = line_counts(s.drop_last(), d);
        let b = s.last();
        if b == 10 {
            rest.push(0nat)
        } else if b == d {
            rest.update(rest.len() - 1, rest.last() + 1)
        } else {
            rest
        }
    }
}

/// The number of lines that a delimiter is judged by, at most.
pub const SAMPLE_LINES: usize = 5;

/// The counts of the first lines.
pub open spec fn first_counts(s: Seq<u8>, d: u8) -> Seq<nat> {
    let all = line_counts(s, d);
    if all.len() > SAMPLE_LINES {
        all.take(SAMPLE_LINES as int)
    } else {
        all
    }
}

/// All lines in which the byte occurs hold it equally often.
pub open spec fn consistent(counts: Seq<nat>) -> bool {
    forall|i: int, j: int|
        0 <= i < counts.len() && 0 <= j < counts.len() && counts[i] > 0 && counts[j] > 0
            ==> #[trigger] counts[i] == #[trigger] counts[j]
}

/// The sum of the counts.
pub open spec fn sum_of(counts: Seq<nat>) -> nat
    decreases counts.len(),
{
    if counts.len() == 0 {
        0
    } else {
        sum_of(counts.drop_last()) + counts.last()
    }
}

/// What speaks for a byte as the delimiter of a text: how often it occurs
/// in the first lines, if it occurs equally often in each line that holds
/// it; and nothing otherwise.
pub open spec fn score(s: Seq<u8>, d: u8) -> nat {
    let counts = first_counts(s, d);
    if consistent(counts) {
        sum_of(counts)
    } else {
        0
    }
}

/// The delimiter that a text speaks for: of comma, semicolon, tab and bar
/// the one with the highest score, the first of them where several have
/// it; and the comma where none scores.
pub open spec fn best_delimiter(s: Seq<u8>) -> u8 {
    let a = score(s, 44);
    let b = score(s, 59);
    let c = score(s, 9);
    let d = score(s, 124);
    if a >= b && a >= c && a >= d {
        44
    } else if b >= c && b >= d {
        59
    } else if c >= d {
        9
    } else {
        124
    }
}

/// A text has at least one line.
pub proof fn lemma_line_counts_nonempty(s: Seq<u8>, d: u8)
    ensures
        line_counts(s, d).len() >= 1,
    decreases s.len(),
{
    if s.len() > 0 {
        lemma_line_counts_nonempty(s.drop_last(), d);
    }
}

/// The lines that a longer text begins with are counted as in the text so far.
pub proof fn lemma_line_counts_prefix(s: Seq<u8>, d: u8, i: int, k: int)
    requires
        0 <= i <= s.len(),
        0 <= k < line_counts(s.take(i), d).len(),
    ensures
        line_counts(s, d).len() > k,
        line_counts(s, d).take(k) == line_counts(s.take(i), d).take(k),
    decreases s.len() - i,
{
    if i < s.len() {
        let a = line_counts(s.take(i), d);
        let b = line_counts(s.take(i + 1), d);
        lemma_line_counts_nonempty(s.take(i), d);
        assert(s.take(i + 1).drop_last() =~= s.take(i));
        assert(b.len() >= a.len());
        assert(b.take(k) =~= a.take(k));
        lemma_line_counts_prefix(s, d, i + 1, k);
    } else {
        assert(s.take(i) =~= s);
    }
}

/// How often a byte occurs in each of the first lines of a text.
pub fn count_in_lines(s: &[u8], d: u8) -> (r: Vec<usize>)
    requires
        d != 10,
    ensures
        r@.len() == first_counts(s@, d).len(),
        forall|i: int| 0 <= i < r@.len() ==> #[trigger] r@[i] == first_counts(s@, d)[i],
{
    let mut counts: Vec<usize> = Vec::new();
    let mut current: usize = 0;
    let mut i: usize = 0;
    let ghost text = s@;
    proof {
        assert(text.take(0) =~= Seq::<u8>::empty());
    }
    while i < s.len()
        invariant
            i <= s@.len(),
            text == s@,
            d != 10,
            counts@.len() < SAMPLE_LINES,
            current <= i,
            line_counts(text.take(i as int), d).len() == counts@.len() + 1,
            line_counts(text.take(i as int), d).last() == current,
            forall|x: int|
                0 <= x < counts@.len() ==> #[trigger] counts@[x] == line_counts(
                    text.take(i as int),
                    d,
                )[x],
        decreases s.len() - i,
    {
        let ghost before = line_counts(text.take(i as int), d);
        proof {
            assert(text.take(i + 1).drop_last() =~= text.take(i as int));
        }
        let b = s[i];
        if b == 10 {
            counts.push(current);
            current = 0;
            if counts.len() == SAMPLE_LINES {
                proof {
                    let now = line_counts(text.take(i + 1), d);
                    lemma_line_counts_prefix(text, d, i + 1, SAMPLE_LINES as int);
                    assert(first_counts(text, d) =~= now.take(SAMPLE_LINES as int));
                }
                return counts;
            }
        } else if b == d {
            current += 1;
        }
        i += 1;
    }
    proof {
        assert(text.take(i as int) =~= text);
    }
    counts.push(current);
    counts
}

/// The score of a byte as the delimiter of a text.
pub fn score_of(s: &[u8], d: u8) -> (r: usize)
    requires
        d != 10,
    ensures
        r == score(s@, d),
{
    let counts = count_in_lines(s, d);
    let bytes: usize = s.len();
    let ghost cs = first_counts(s@, d);
    let mut expected: usize = 0;
    let mut total: usize = 0;
    let mut i: usize = 0;
    let ghost witness: int = 0;
    proof {
        assert(cs.take(0) =~= Seq::<nat>::empty());
        lemma_sum_bounded(s@, d);
    }
    while i < counts.len()
        invariant
            i <= counts@.len(),
            cs == first_counts(s@, d),
            sum_of(cs) <= usize::MAX,
            counts@.len() == cs.len(),
            cs.len() <= SAMPLE_LINES,
            forall|x: int| 0 <= x < counts@.len() ==> #[trigger] counts@[x] == cs[x],
            total == sum_of(cs.take(i as int)),
            consistent(cs.take(i as int)),
            forall|x: int| 0 <= x < i && cs[x] > 0 ==> #[trigger] cs[x] == expected,
            expected != 0 ==> 0 <= witness < i && cs[witness] == expected,
            total == 0 ==> expected == 0,
        decreases counts.len() - i,
    {
        let count = counts[i];
        proof {
            assert(cs.take(i + 1).drop_last() =~= cs.take(i as int));
            assert(cs.take(i + 1).last() == cs[i as int]);
        }
        if count > 0 {
            if expected == 0 {
                expected = count;
                proof {
                    witness = i as int;
                }
            } else if count != expected {
                proof {
                    assert(!consistent(cs)) by {
                        if consistent(cs) {
                            assert(cs[witness] == cs[i as int]);
                        }
                    }
                }
                return 0;
            }
        }
        proof {
            lemma_sum_take(cs, i + 1);
        }
        total = total + count;
        proof {
            let part = cs.take(i + 1);
            assert forall|a: int, b: int|
                0 <= a < part.len() && 0 <= b < part.len() && part[a] > 0 && part[b]
                    > 0 implies #[trigger] part[a] == #[trigger] part[b] by {
                assert(part[a] == cs[a] && part[b] == cs[b]);
                assert(cs[a] == expected && cs[b] == expected);
            }
        }
        i += 1;
    }
    proof {
        assert(cs.take(i as int) =~= cs);
    }
    total
}

/// The counts of the first lines sum to no more than the text has bytes.
pub proof fn lemma_sum_bounded(s: Seq<u8>, d: u8)
    ensures
        sum_of(first_counts(s, d)) <= s.len(),
        sum_of(line_counts(s, d)) <= s.len(),
    decreases s.len(),
{
    let all = line_counts(s, d);
    if s.len() > 0 {
        lemma_sum_bounded(s.drop_last(), d);
        lemma_line_counts_nonempty(s.drop_last(), d);
        let rest = line_counts(s.drop_last(), d);
        let b = s.last();
        if b == 10 {
            assert(rest.push(0nat).drop_last() =~= rest);
        } else if b == d {
            let up = rest.update(rest.len() - 1, rest.last() + 1);
            assert(up.drop_last() =~= rest.drop_last());
            assert(up.last() == rest.last() + 1);
            assert(sum_of(up) == sum_of(up.drop_last()) + up.last());
            assert(sum_of(rest) == sum_of(rest.drop_last()) + rest.last());
        }
    } else {
        assert(seq![0nat].drop_last() =~= Seq::<nat>::empty());
        assert(sum_of(seq![0nat]) == sum_of(seq![0nat].drop_last()) + 0);
    }
    lemma_line_counts_nonempty(s, d);
    if all.len() > SAMPLE_LINES {
        lemma_sum_take(all, SAMPLE_LINES as int);
    }
}

/// A part of the counts sums to no more than all of them.
pub proof fn lemma_sum_take(counts: Seq<nat>, n: int)
    requires
        0 <= n <= counts.len(),
    ensures
        sum_of(counts.take(n)) <= sum_of(counts),
    decreases counts.len() - n,
{
    if n < counts.len() {
        assert(counts.take(n + 1).drop_last() =~= counts.take(n));
        lemma_sum_take(counts, n + 1);
    } else {
        assert(counts.take(n) =~= counts);
    }
}

impl CSVParser {
    /// The delimiter that a sample of text speaks for.
    pub fn detect_delimiter(&self, sample: &str) -> (r: DbResult<u8>)
        ensures
            r == Ok::<u8, DbError>(best_delimiter(sample.spec_bytes())),
    {
        let s = sample.as_bytes();
        let a = score_of(s, 44);
        let b = score_of(s, 59);
        let c = score_of(s, 9);
        let d = score_of(s, 124);
        if a >= b && a >= c && a >= d {
            Ok(44)
        } else if b >= c && b >= d {
            Ok(59)
        } else if c >= d {
            Ok(9)
        } else {
            Ok(124)
        }
    }
}

} // verus!

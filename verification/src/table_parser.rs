//! Reading the cells of a truth table: what a cell means, which number a
//! row stands for, and whether the rows come in ascending order.
use vstd::prelude::*;
use vstd::string::StrSliceExecFns;
use vstd::utf8::{encode_utf8, is_ascii_chars, is_ascii_chars_encode_utf8};

verus! {

/// Why a table was turned down.
#[derive(Clone, Copy, Debug, PartialEq, Eq, Structural)]
pub enum TableError {
    /// A row has more or fewer cells than the header.
    UnequalLengths,
    /// A cell is not made of exactly one byte.
    NotSingleCharacter,
    /// A cell holds a character that stands for neither true nor false.
    UnknownCharacter,
    /// A row has no cell at all, and so no output.
    MissingOutput,
    /// The input rows do not count up from zero without a gap.
    NotAscending,
}

/// What a cell stands for: `1`, `v` and `t` for true, `0` and `f` for
/// false, in either case of the letters.
pub open spec fn cell_value(cell: Seq<char>) -> Option<bool> {
    if cell == seq!['1'] || cell == seq!['v'] || cell == seq!['V'] || cell == seq!['t'] || cell
        == seq!['T'] {
        Some(true)
    } else if cell == seq!['0'] || cell == seq!['f'] || cell == seq!['F'] {
        Some(false)
    } else {
        None
    }
}

/// How a cell is read: as what it stands for, or else turned down for its
/// length or for its character.
pub open spec fn cell_reading(cell: Seq<char>) -> Result<bool, TableError> {
    match cell_value(cell) {
        Some(value) => Ok(value),
        None => if encode_utf8(cell).len() != 1 {
            Err(TableError::NotSingleCharacter)
        } else {
            Err(TableError::UnknownCharacter)
        },
    }
}

/// How the first `n` cells of a record are read: the first cell that is
/// turned down decides.
pub open spec fn cells_reading(record: Seq<Seq<char>>, n: nat) -> Result<Seq<bool>, TableError>
    decreases n,
{
    if n == 0 {
        Ok(Seq::empty())
    } else {
        match cells_reading(record, (n - 1) as nat) {
            Err(error) => Err(error),
            Ok(values) => match cell_reading(record[n - 1]) {
                Err(error) => Err(error),
                Ok(value) => Ok(values.push(value)),
            },
        }
    }
}

/// How a record is read against a header of `width` names.
pub open spec fn record_reading(width: nat, record: Seq<Seq<char>>) -> Result<
    Seq<bool>,
    TableError,
> {
    if record.len() != width {
        Err(TableError::UnequalLengths)
    } else {
        cells_reading(record, record.len())
    }
}

/// How the first `n` records are read: the first record that is turned
/// down decides.
pub open spec fn records_reading(width: nat, records: Seq<Seq<Seq<char>>>, n: nat) -> Result<
    Seq<Seq<bool>>,
    TableError,
>
    decreases n,
{
    if n == 0 {
        Ok(Seq::empty())
    } else {
        match records_reading(width, records, (n - 1) as nat) {
            Err(error) => Err(error),
            Ok(rows) => match record_reading(width, records[n - 1]) {
                Err(error) => Err(error),
                Ok(row) => Ok(rows.push(row)),
            },
        }
    }
}

/// Row `i` stands for the number `i`, for every row.
pub open spec fn ascending(inputs: Seq<Seq<bool>>) -> bool {
    forall|i: int| 0 <= i < inputs.len() ==> binary_value(#[trigger] inputs[i]) == i
}

/// The texts of a list of strings.
pub open spec fn texts(strings: Seq<String>) -> Seq<Seq<char>> {
    Seq::new(strings.len(), |i: int| strings[i]@)
}

/// The texts of the cells of a list of records.
pub open spec fn cells(records: Seq<Vec<String>>) -> Seq<Seq<Seq<char>>> {
    Seq::new(records.len(), |i: int| texts(records[i]@))
}

/// The rows of a list of vectors.
pub open spec fn rows(vectors: Seq<Vec<bool>>) -> Seq<Seq<bool>> {
    Seq::new(vectors.len(), |i: int| vectors[i]@)
}

/// A truth table as it is read from a header and records: the names, the
/// input rows, and the output of each row. Each record gives its inputs
/// but for its last cell, which is the output.
pub open spec fn table_reading(headers: Seq<Seq<char>>, records: Seq<Seq<Seq<char>>>) -> Result<
    (Seq<Seq<char>>, Seq<Seq<bool>>, Seq<bool>),
    TableError,
> {
    match records_reading(headers.len(), records, records.len()) {
        Err(error) => Err(error),
        Ok(values) => {
            let inputs = Seq::new(values.len(), |i: int| values[i].drop_last());
            let output = Seq::new(values.len(), |i: int| values[i].last());
            if headers.len() == 0 && values.len() > 0 {
                Err(TableError::MissingOutput)
            } else if !ascending(inputs) {
                Err(TableError::NotAscending)
            } else {
                Ok((headers, inputs, output))
            }
        },
    }
}

/// The number that a row of bits stands for, the first bit being the most
/// significant.
pub open spec fn binary_value(row: Seq<bool>) -> nat
    decreases row.len(),
{
    if row.len() == 0 {
        0
    } else {
        2 * binary_value(row.drop_last()) + if row.last() {
            1nat
        } else {
            0nat
        }
    }
}

/// A row's leading bits never stand for more than the whole row does.
pub proof fn lemma_binary_value_prefix(row: Seq<bool>, n: int)
    requires
        0 <= n <= row.len(),
    ensures
        binary_value(row.take(n)) <= binary_value(row),
    decreases row.len(),
{
    if n == row.len() {
        assert(row.take(n) =~= row);
    } else {
        assert(row.drop_last().take(n) =~= row.take(n));
        lemma_binary_value_prefix(row.drop_last(), n);
    }
}

/// The number that a row stands for.
pub fn convert_boolean_row_to_number(row: &[bool]) -> (sum: usize)
    requires
        binary_value(row@) <= usize::MAX,
    ensures
        sum == binary_value(row@),
{
    let mut sum: usize = 0;
    let mut index: usize = 0;
    while index < row.len()
        invariant
            index <= row@.len(),
            sum == binary_value(row@.take(index as int)),
            binary_value(row@) <= usize::MAX,
        decreases row@.len() - index,
    {
        proof {
            assert(row@.take(index + 1).drop_last() =~= row@.take(index as int));
            lemma_binary_value_prefix(row@, index + 1);
        }
        sum = 2 * sum + if row[index] {
            1
        } else {
            0
        };
        index += 1;
    }
    assert(row@.take(index as int) =~= row@);
    sum
}

/// The number that a row stands for, where the machine can hold it.
pub fn checked_row_number(row: &[bool]) -> (number: Option<usize>)
    ensures
        match number {
            Some(sum) => sum == binary_value(row@),
            None => binary_value(row@) > usize::MAX,
        },
{
    let mut sum: usize = 0;
    let mut index: usize = 0;
    while index < row.len()
        invariant
            index <= row@.len(),
            sum == binary_value(row@.take(index as int)),
        decreases row@.len() - index,
    {
        proof {
            assert(row@.take(index + 1).drop_last() =~= row@.take(index as int));
            lemma_binary_value_prefix(row@, index + 1);
        }
        let bit: usize = if row[index] {
            1
        } else {
            0
        };
        if sum > (usize::MAX - bit) / 2 {
            return None;
        }
        sum = 2 * sum + bit;
        index += 1;
    }
    assert(row@.take(index as int) =~= row@);
    Some(sum)
}

/// The known cells are known by one character that takes one byte.
proof fn lemma_known_cell_is_one_byte(cell: Seq<char>)
    requires
        cell_value(cell) is Some,
    ensures
        cell.len() == 1,
        encode_utf8(cell).len() == 1,
        is_ascii_chars(cell),
{
    is_ascii_chars_encode_utf8(cell);
}

/// What a cell of the table stands for.
pub fn turn_input_into_boolean(c: &str) -> (value: Result<bool, TableError>)
    ensures
        value == cell_reading(c@),
{
    if c.as_bytes().len() != 1 {
        proof {
            if cell_value(c@) is Some {
                lemma_known_cell_is_one_byte(c@);
            }
        }
        return Err(TableError::NotSingleCharacter);
    }
    if !c.is_ascii() {
        proof {
            if cell_value(c@) is Some {
                lemma_known_cell_is_one_byte(c@);
            }
        }
        return Err(TableError::UnknownCharacter);
    }
    proof {
        is_ascii_chars_encode_utf8(c@);
    }
    let only = c.get_char(0);
    assert(c@ =~= seq![only]);
    if only == '1' || only == 'v' || only == 'V' || only == 't' || only == 'T' {
        Ok(true)
    } else if only == '0' || only == 'f' || only == 'F' {
        Ok(false)
    } else {
        Err(TableError::UnknownCharacter)
    }
}

/// Whether the input rows count up from zero without a gap.
pub fn assert_ascending_order(inputs: &Vec<Vec<bool>>) -> (checked: Result<(), TableError>)
    ensures
        checked is Ok <==> ascending(rows(inputs@)),
        checked matches Err(error) ==> error == TableError::NotAscending,
{
    let mut expected_value: usize = 0;
    while expected_value < inputs.len()
        invariant
            expected_value <= inputs@.len(),
            forall|i: int|
                0 <= i < expected_value ==> binary_value(#[trigger] rows(inputs@)[i]) == i,
        decreases inputs@.len() - expected_value,
    {
        assert(rows(inputs@)[expected_value as int] == inputs@[expected_value as int]@);
        match checked_row_number(inputs[expected_value].as_slice()) {
            Some(number) => {
                if number != expected_value {
                    return Err(TableError::NotAscending);
                }
            },
            None => {
                return Err(TableError::NotAscending);
            },
        }
        expected_value += 1;
    }
    Ok(())
}

/// Reads one record against a header of `width` names.
fn read_record(width: usize, record: &Vec<String>) -> (row: Result<Vec<bool>, TableError>)
    ensures
        match row {
            Ok(values) => record_reading(width as nat, texts(record@)) == Ok::<
                Seq<bool>,
                TableError,
            >(values@),
            Err(error) => record_reading(width as nat, texts(record@)) == Err::<
                Seq<bool>,
                TableError,
            >(error),
        },
{
    if record.len() != width {
        return Err(TableError::UnequalLengths);
    }
    let mut values: Vec<bool> = Vec::new();
    let mut index: usize = 0;
    while index < record.len()
        invariant
            record@.len() == width,
            index <= record@.len(),
            cells_reading(texts(record@), index as nat) == Ok::<Seq<bool>, TableError>(values@),
        decreases record@.len() - index,
    {
        match turn_input_into_boolean(record[index].as_str()) {
            Ok(value) => {
                values.push(value);
            },
            Err(error) => {
                proof {
                    let read = texts(record@);
                    lemma_cells_reading_stays(read, (index + 1) as nat, record@.len());
                }
                return Err(error);
            },
        }
        index += 1;
    }
    Ok(values)
}

/// Once a cell has been turned down, reading further cells changes
/// nothing.
proof fn lemma_cells_reading_stays(record: Seq<Seq<char>>, n: nat, more: nat)
    requires
        n <= more,
        cells_reading(record, n) is Err,
    ensures
        cells_reading(record, more) == cells_reading(record, n),
    decreases more - n,
{
    if n < more {
        lemma_cells_reading_stays(record, n, (more - 1) as nat);
    }
}

/// Once a record has been turned down, reading further records changes
/// nothing.
proof fn lemma_records_reading_stays(
    width: nat,
    records: Seq<Seq<Seq<char>>>,
    n: nat,
    more: nat,
)
    requires
        n <= more,
        records_reading(width, records, n) is Err,
    ensures
        records_reading(width, records, more) == records_reading(width, records, n),
    decreases more - n,
{
    if n < more {
        lemma_records_reading_stays(width, records, n, (more - 1) as nat);
    }
}

/// Reads a truth table from its header and its records, cell by cell.
/// Every record must have as many cells as the header has names, and every
/// cell must be one known character. The last cell of a record is the
/// output of its row, the cells before it are the inputs, and the input
/// rows must count up from zero.
pub fn read_csv(headers: Vec<String>, records: &Vec<Vec<String>>) -> (table: Result<
    (Vec<String>, Vec<Vec<bool>>, Vec<bool>),
    TableError,
>)
    ensures
        match table {
            Ok((names, inputs, output)) => table_reading(texts(headers@), cells(records@)) == Ok::<
                (Seq<Seq<char>>, Seq<Seq<bool>>, Seq<bool>),
                TableError,
            >((texts(names@), rows(inputs@), output@)),
            Err(error) => table_reading(texts(headers@), cells(records@)) == Err::<
                (Seq<Seq<char>>, Seq<Seq<bool>>, Seq<bool>),
                TableError,
            >(error),
        },
{
    let width = headers.len();
    let ghost names = texts(headers@);
    let ghost all = cells(records@);
    let mut values: Vec<Vec<bool>> = Vec::new();
    let mut index: usize = 0;
    assert(rows(values@) =~= Seq::<Seq<bool>>::empty());
    while index < records.len()
        invariant
            names == texts(headers@),
            width == names.len(),
            all == cells(records@),
            index <= records@.len(),
            records_reading(width as nat, all, index as nat) == Ok::<Seq<Seq<bool>>, TableError>(
                rows(values@),
            ),
        decreases records@.len() - index,
    {
        match read_record(width, &records[index]) {
            Ok(row) => {
                let ghost shorter = values@;
                values.push(row);
                assert(rows(values@) =~= rows(shorter).push(row@));
            },
            Err(error) => {
                proof {
                    lemma_records_reading_stays(
                        width as nat,
                        all,
                        (index + 1) as nat,
                        records@.len(),
                    );
                }
                return Err(error);
            },
        }
        index += 1;
    }
    proof {
        lemma_rows_count(width as nat, all, records@.len());
    }
    if width == 0 && values.len() > 0 {
        return Err(TableError::MissingOutput);
    }
    let mut inputs: Vec<Vec<bool>> = Vec::new();
    let mut output: Vec<bool> = Vec::new();
    let mut at: usize = 0;
    while at < values.len()
        invariant
            width == names.len(),
            all == cells(records@),
            values@.len() == records@.len(),
            records_reading(width as nat, all, records@.len()) == Ok::<Seq<Seq<bool>>, TableError>(
                rows(values@),
            ),
            values@.len() > 0 ==> width > 0,
            at <= values@.len(),
            inputs@.len() == at,
            output@.len() == at,
            forall|i: int| 0 <= i < at ==> (#[trigger] inputs@[i])@ == rows(values@)[i].drop_last(),
            forall|i: int| 0 <= i < at ==> #[trigger] output@[i] == rows(values@)[i].last(),
        decreases values@.len() - at,
    {
        proof {
            lemma_rows_have_width(width as nat, all, records@.len(), at as int);
        }
        let row = &values[at];
        let mut input: Vec<bool> = Vec::new();
        let mut cell: usize = 0;
        while cell + 1 < row.len()
            invariant
                row@.len() == width,
                width > 0,
                cell + 1 <= row@.len(),
                input@.len() == cell,
                forall|j: int| 0 <= j < cell ==> input@[j] == row@[j],
            decreases row@.len() - cell,
        {
            input.push(row[cell]);
            cell += 1;
        }
        inputs.push(input);
        output.push(row[row.len() - 1]);
        at += 1;
    }
    proof {
        let read = rows(values@);
        assert(rows(inputs@) =~= Seq::new(read.len(), |i: int| read[i].drop_last()));
        assert(output@ =~= Seq::new(read.len(), |i: int| read[i].last()));
    }
    match assert_ascending_order(&inputs) {
        Ok(()) => Ok((headers, inputs, output)),
        Err(error) => Err(error),
    }
}

/// Every row that was read has as many cells as the header has names.
proof fn lemma_rows_have_width(width: nat, records: Seq<Seq<Seq<char>>>, n: nat, i: int)
    requires
        0 <= i < n,
        records_reading(width, records, n) is Ok,
    ensures
        records_reading(width, records, n)->Ok_0.len() == n,
        records_reading(width, records, n)->Ok_0[i].len() == width,
    decreases n,
{
    lemma_rows_count(width, records, n);
    if i < n - 1 {
        lemma_rows_have_width(width, records, (n - 1) as nat, i);
    } else {
        lemma_cells_count(records[n - 1], records[n - 1].len());
    }
}

/// As many rows are read as there are records.
proof fn lemma_rows_count(width: nat, records: Seq<Seq<Seq<char>>>, n: nat)
    requires
        records_reading(width, records, n) is Ok,
    ensures
        records_reading(width, records, n)->Ok_0.len() == n,
    decreases n,
{
    if n > 0 {
        lemma_rows_count(width, records, (n - 1) as nat);
    }
}

/// As many values are read as there are cells.
proof fn lemma_cells_count(record: Seq<Seq<char>>, n: nat)
    requires
        cells_reading(record, n) is Ok,
    ensures
        cells_reading(record, n)->Ok_0.len() == n,
    decreases n,
{
    if n > 0 {
        lemma_cells_count(record, (n - 1) as nat);
    }
}

/// A table that was read has an output for each row and, in each row, one
/// input for each name but the last; its rows count up from zero.
pub proof fn lemma_reading_well_formed(headers: Seq<Seq<char>>, records: Seq<Seq<Seq<char>>>)
    requires
        table_reading(headers, records) is Ok,
    ensures
        ({
            let (names, inputs, output) = table_reading(headers, records)->Ok_0;
            &&& names == headers
            &&& output.len() == inputs.len()
            &&& inputs.len() == records.len()
            &&& ascending(inputs)
            &&& forall|i: int|
                0 <= i < inputs.len() ==> (#[trigger] inputs[i]).len() + 1 == headers.len()
        }),
{
    let (names, inputs, output) = table_reading(headers, records)->Ok_0;
    lemma_rows_count(headers.len(), records, records.len());
    assert forall|i: int| 0 <= i < inputs.len() implies (#[trigger] inputs[i]).len() + 1
        == headers.len() by {
        lemma_rows_have_width(headers.len(), records, records.len(), i);
    }
}

} // verus!

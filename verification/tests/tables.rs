use quine_mccluskey::table_parser::{
    assert_ascending_order, checked_row_number, convert_boolean_row_to_number, read_csv,
    turn_input_into_boolean, TableError,
};
use quine_mccluskey::truth_table::TruthTable;

fn strings(list: &[&str]) -> Vec<String> {
    list.iter().map(|text| text.to_string()).collect()
}

fn records(list: &[&[&str]]) -> Vec<Vec<String>> {
    list.iter().map(|record| strings(record)).collect()
}

#[test]
fn cells_for_true() {
    for cell in ["1", "v", "V", "t", "T"] {
        assert_eq!(turn_input_into_boolean(cell), Ok(true));
    }
}

#[test]
fn cells_for_false() {
    for cell in ["0", "f", "F"] {
        assert_eq!(turn_input_into_boolean(cell), Ok(false));
    }
}

#[test]
fn a_cell_of_another_length_is_turned_down() {
    assert_eq!(turn_input_into_boolean(""), Err(TableError::NotSingleCharacter));
    assert_eq!(turn_input_into_boolean("10"), Err(TableError::NotSingleCharacter));
    assert_eq!(turn_input_into_boolean(" 1"), Err(TableError::NotSingleCharacter));
    assert_eq!(turn_input_into_boolean("\u{e9}"), Err(TableError::NotSingleCharacter));
}

#[test]
fn a_cell_of_an_unknown_character_is_turned_down() {
    for cell in ["x", "2", "-", " ", "n", "y"] {
        assert_eq!(turn_input_into_boolean(cell), Err(TableError::UnknownCharacter));
    }
}

#[test]
fn a_row_stands_for_its_binary_number() {
    assert_eq!(convert_boolean_row_to_number(&[]), 0);
    assert_eq!(convert_boolean_row_to_number(&[false]), 0);
    assert_eq!(convert_boolean_row_to_number(&[true]), 1);
    assert_eq!(convert_boolean_row_to_number(&[true, false]), 2);
    assert_eq!(convert_boolean_row_to_number(&[true, false, true]), 5);
    assert_eq!(convert_boolean_row_to_number(&[false, true, true, false]), 6);
    assert_eq!(checked_row_number(&[true, false, true, true]), Some(11));
}

#[test]
fn a_row_too_long_for_the_machine_has_no_number() {
    let mut row = vec![true];
    row.extend(std::iter::repeat(false).take(usize::BITS as usize));
    assert_eq!(checked_row_number(&row), None);
    let mut fits = vec![false; 200];
    fits.push(true);
    fits.push(true);
    assert_eq!(checked_row_number(&fits), Some(3));
    assert_eq!(convert_boolean_row_to_number(&fits), 3);
    let all = vec![true; usize::BITS as usize];
    assert_eq!(checked_row_number(&all), Some(usize::MAX));
}

#[test]
fn rows_in_order_pass() {
    let inputs = vec![vec![false, false], vec![false, true], vec![true, false], vec![true, true]];
    assert_eq!(assert_ascending_order(&inputs), Ok(()));
    assert_eq!(assert_ascending_order(&Vec::new()), Ok(()));
    let head = vec![vec![false, false], vec![false, true]];
    assert_eq!(assert_ascending_order(&head), Ok(()));
}

#[test]
fn rows_out_of_order_or_with_a_gap_are_turned_down() {
    let swapped = vec![vec![false, true], vec![false, false]];
    assert_eq!(assert_ascending_order(&swapped), Err(TableError::NotAscending));
    let gap = vec![vec![false, false], vec![true, false]];
    assert_eq!(assert_ascending_order(&gap), Err(TableError::NotAscending));
    let twice = vec![vec![false, false], vec![false, false]];
    assert_eq!(assert_ascending_order(&twice), Err(TableError::NotAscending));
}

#[test]
fn a_table_is_read_cell_by_cell() {
    let read = read_csv(
        strings(&["A", "B", "F"]),
        &records(&[&["0", "0", "1"], &["f", "T", "0"], &["V", "F", "t"], &["1", "1", "0"]]),
    );
    let (names, inputs, output) = read.expect("the table is in order");
    assert_eq!(names, strings(&["A", "B", "F"]));
    assert_eq!(
        inputs,
        vec![vec![false, false], vec![false, true], vec![true, false], vec![true, true]]
    );
    assert_eq!(output, vec![true, false, true, false]);
}

#[test]
fn a_record_of_another_length_is_turned_down() {
    let short = read_csv(strings(&["A", "B", "F"]), &records(&[&["0", "0", "1"], &["0", "1"]]));
    assert_eq!(short, Err(TableError::UnequalLengths));
    let long = read_csv(strings(&["A", "F"]), &records(&[&["0", "0", "1"]]));
    assert_eq!(long, Err(TableError::UnequalLengths));
}

#[test]
fn the_first_cell_that_cannot_be_read_decides() {
    let unknown = read_csv(strings(&["A", "F"]), &records(&[&["0", "x"], &["10", "1"]]));
    assert_eq!(unknown, Err(TableError::UnknownCharacter));
    let length = read_csv(strings(&["A", "F"]), &records(&[&["00", "x"], &["1", "1"]]));
    assert_eq!(length, Err(TableError::NotSingleCharacter));
    let later = read_csv(strings(&["A", "F"]), &records(&[&["0", "1"], &["1"], &["x", "1"]]));
    assert_eq!(later, Err(TableError::UnequalLengths));
}

#[test]
fn a_record_without_cells_has_no_output() {
    let read = read_csv(strings(&[]), &records(&[&[]]));
    assert_eq!(read, Err(TableError::MissingOutput));
    let empty = read_csv(strings(&[]), &records(&[]));
    assert_eq!(empty, Ok((Vec::new(), Vec::new(), Vec::new())));
}

#[test]
fn a_table_out_of_order_is_turned_down() {
    let read = read_csv(strings(&["A", "F"]), &records(&[&["1", "0"], &["0", "1"]]));
    assert_eq!(read, Err(TableError::NotAscending));
    let table = TruthTable::from_csv(strings(&["A", "F"]), &records(&[&["1", "0"]]));
    assert_eq!(table.err(), Some(TableError::NotAscending));
}

#[test]
fn a_truth_table_answers_for_its_parts() {
    let table = TruthTable::from_csv(
        strings(&["A", "B", "F"]),
        &records(&[&["0", "0", "1"], &["0", "1", "0"], &["1", "0", "0"], &["1", "1", "1"]]),
    )
    .ok()
    .expect("the table is in order");
    assert_eq!(table.amount_of_variables(), 2);
    assert_eq!(table.amount_of_rows(), 4);
    assert_eq!(table.variables_names(), strings(&["A", "B", "F"]));
    assert_eq!(table.get_header_at(0), "A");
    assert_eq!(table.get_header_at(2), "F");
    assert_eq!(
        table.input_rows(),
        &vec![vec![false, false], vec![false, true], vec![true, false], vec![true, true]]
    );
    assert!(table.row_value(0));
    assert!(!table.row_value(1));
    assert!(!table.row_value(2));
    assert!(table.row_value(3));
}

#[test]
fn a_table_without_rows_has_no_variables() {
    let table = TruthTable::from_csv(strings(&["A", "B", "F"]), &records(&[]))
        .ok()
        .expect("a header alone is a table");
    assert_eq!(table.amount_of_variables(), 0);
    assert_eq!(table.amount_of_rows(), 0);
}

#[test]
fn a_table_may_stop_before_its_last_row() {
    let table = TruthTable::from_csv(
        strings(&["A", "B", "F"]),
        &records(&[&["0", "0", "1"], &["0", "1", "1"], &["1", "0", "0"]]),
    )
    .ok()
    .expect("the rows count up from zero");
    assert_eq!(table.amount_of_rows(), 3);
    assert_eq!(quine_mccluskey::algorithm::algorithm(table), "!A");
}

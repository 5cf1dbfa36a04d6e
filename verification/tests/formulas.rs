use quine_mccluskey::algorithm::{algorithm, minimize, minterms, prime_implicants};
use quine_mccluskey::truth_table::TruthTable;

fn names(list: &[&str]) -> Vec<String> {
    list.iter().map(|name| name.to_string()).collect()
}

/// A table over the given input names whose output column is named `F`
/// and is true on exactly the rows listed.
fn table(inputs: &[&str], true_rows: &[usize]) -> TruthTable {
    let mut headers = names(inputs);
    headers.push("F".to_string());
    let width = inputs.len();
    let mut records: Vec<Vec<String>> = Vec::new();
    for row in 0..(1usize << width) {
        let mut record: Vec<String> = Vec::new();
        for bit in 0..width {
            let set = (row >> (width - 1 - bit)) & 1 == 1;
            record.push(if set { "1".to_string() } else { "0".to_string() });
        }
        record.push(if true_rows.contains(&row) { "1".to_string() } else { "0".to_string() });
        records.push(record);
    }
    match TruthTable::from_csv(headers, &records) {
        Ok(table) => table,
        Err(error) => panic!("the table was turned down: {:?}", error),
    }
}

fn patterns_of(table: &TruthTable) -> Vec<String> {
    let first = minterms(table);
    let primes = prime_implicants(&first, table.amount_of_variables());
    primes.iter().map(|prime| prime.get_binary_representation()).collect()
}

#[test]
fn the_second_variable_alone_is_left() {
    let table_a = table(&["A", "B"], &[1, 3]);
    let selected = minimize(&table_a);
    assert_eq!(selected.len(), 1);
    assert_eq!(selected[0].get_binary_representation(), "-1");
    assert!(selected[0].is_prime());
    assert_eq!(algorithm(table_a), "B");
}

#[test]
fn a_combined_minterm_of_the_last_group_stays_among_the_primes() {
    let table_a = table(&["A", "B"], &[1, 3]);
    assert_eq!(patterns_of(&table_a), vec!["-1".to_string(), "11".to_string()]);
}

#[test]
fn xor_keeps_both_minterms() {
    let table_b = table(&["A", "B"], &[1, 2]);
    assert_eq!(patterns_of(&table_b), vec!["10".to_string(), "01".to_string()]);
    let selected = minimize(&table_b);
    assert_eq!(selected.len(), 2);
    assert!(selected.iter().all(|term| term.is_prime()));
    assert_eq!(algorithm(table_b), "!A B + A !B");
}

#[test]
fn tautology_is_the_empty_text() {
    let table_c = table(&["A", "B"], &[0, 1, 2, 3]);
    let selected = minimize(&table_c);
    assert_eq!(selected.len(), 1);
    assert_eq!(selected[0].get_binary_representation(), "--");
    assert_eq!(selected[0].get_string_representation(), "");
    assert_eq!(algorithm(table_c), "");
}

#[test]
fn both_terms_of_the_highest_filled_group_are_prime() {
    let table_d = table(&["A", "B", "C"], &[3, 5]);
    let first = minterms(&table_d);
    let primes = prime_implicants(&first, 3);
    assert_eq!(primes.len(), 2);
    assert!(primes[0].is_prime());
    assert!(primes[1].is_prime());
    assert_eq!(primes[0].get_binary_representation(), "101");
    assert_eq!(primes[1].get_binary_representation(), "011");
    assert_eq!(algorithm(table_d), "!A B C + A !B C");
}

#[test]
fn contradiction_is_the_empty_sum() {
    let never = table(&["A", "B"], &[]);
    assert_eq!(minimize(&never).len(), 0);
    assert_eq!(algorithm(never), "");
}

#[test]
fn three_variable_majority() {
    let majority = table(&["A", "B", "C"], &[3, 5, 6, 7]);
    assert_eq!(algorithm(majority), "B C + A C + A B");
    let again = table(&["A", "B", "C"], &[3, 5, 6, 7]);
    assert_eq!(patterns_of(&again), vec!["11-", "1-1", "-11", "111"]);
}

#[test]
fn greedy_choice_covers_a_cycle() {
    // No prime is essential here: every minterm has two primes.
    let cycle = table(&["A", "B", "C"], &[0, 1, 2, 5, 6, 7]);
    let selected = minimize(&cycle);
    let first = minterms(&cycle);
    for minterm in first.iter() {
        assert!(selected.iter().any(|term| term.covers(minterm)));
    }
}

#[test]
fn the_formula_is_the_expression_of_the_selected_terms() {
    let table_e = table(&["A", "B", "C"], &[0, 1, 2, 5, 6, 7]);
    let selected = minimize(&table_e);
    let references: Vec<&quine_mccluskey::implicant::Implicant> = selected.iter().collect();
    let text = quine_mccluskey::algorithm::assemble_expression(&references);
    assert_eq!(text, "!A !C + !B C + A B");
    assert_eq!(algorithm(table_e), text);
}

#[test]
fn an_expression_of_no_term_is_empty_and_of_one_term_has_no_plus() {
    assert_eq!(quine_mccluskey::algorithm::assemble_expression(&[]), "");
    let one = table(&["A", "B"], &[2]);
    let selected = minimize(&one);
    assert_eq!(selected.len(), 1);
    let references: Vec<&quine_mccluskey::implicant::Implicant> = selected.iter().collect();
    assert_eq!(quine_mccluskey::algorithm::assemble_expression(&references), "A !B");
}

#[test]
fn minterms_follow_the_rows_that_are_true() {
    let table_f = table(&["A", "B", "C"], &[6, 1, 3]);
    let first = minterms(&table_f);
    let patterns: Vec<String> =
        first.iter().map(|term| term.get_binary_representation()).collect();
    assert_eq!(patterns, vec!["001", "011", "110"]);
    let numbers: Vec<usize> = first.iter().map(|term| term.minterm_number()).collect();
    assert_eq!(numbers, vec![1, 3, 6]);
    assert_eq!(first[0].get_string_representation(), "!A !B C");
}

#[test]
fn xor_has_two_essential_primes() {
    let table_b = table(&["A", "B"], &[1, 2]);
    let first = minterms(&table_b);
    let primes = prime_implicants(&first, 2);
    let mut map = quine_mccluskey::coverage_map::CoverageMap::new(&primes, &first);
    assert_eq!(map.find_essentials(), 2);
    map.choose_remaining_primes();
    assert_eq!(map.get_selected_implicants().len(), 2);
}

#[test]
fn every_function_of_three_variables_keeps_its_truth_table() {
    for function in 0..256usize {
        let true_rows: Vec<usize> = (0..8).filter(|row| (function >> row) & 1 == 1).collect();
        let given = table(&["A", "B", "C"], &true_rows);
        let selected = minimize(&given);
        for (row, inputs) in given.input_rows().iter().enumerate() {
            let probe = quine_mccluskey::implicant::Implicant::from_input(
                inputs,
                names(&["A", "B", "C"]),
            );
            let covered = selected.iter().any(|term| term.covers(&probe));
            assert_eq!(covered, given.row_value(row));
        }
        assert!(selected.iter().all(|term| term.is_prime()));
    }
}

#[test]
fn four_variables_with_a_shared_prime() {
    let given = table(&["A", "B", "C", "D"], &[4, 8, 10, 11, 12, 15]);
    let selected = minimize(&given);
    let patterns: Vec<String> =
        selected.iter().map(|term| term.get_binary_representation()).collect();
    // -100 alone covers 0100. Of the primes of 1000, 10-0 newly covers two
    // minterms and 1-00 one; of those of 1011, 1-11 two and 101- one.
    assert_eq!(patterns, vec!["-100", "10-0", "1-11"]);
    assert_eq!(algorithm(given), "B !C !D + A !B !D + A C D");
}

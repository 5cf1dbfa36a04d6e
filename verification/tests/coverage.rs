use quine_mccluskey::algorithm::{agroup, solve};
use quine_mccluskey::coverage_map::CoverageMap;
use quine_mccluskey::implicant::Implicant;

fn names(list: &[&str]) -> Vec<String> {
    list.iter().map(|name| name.to_string()).collect()
}

fn minterm(bits: &[bool]) -> Implicant {
    let letters = ["A", "B", "C", "D", "E", "F"];
    Implicant::from_input(&bits.to_vec(), names(&letters[..bits.len()]))
}

fn minterms(width: usize, rows: &[usize]) -> Vec<Implicant> {
    rows.iter()
        .map(|row| {
            let bits: Vec<bool> =
                (0..width).map(|bit| (row >> (width - 1 - bit)) & 1 == 1).collect();
            minterm(&bits)
        })
        .collect()
}

fn primes(width: usize, rows: &[usize]) -> Vec<Implicant> {
    let mut groups = agroup(minterms(width, rows), width);
    groups.combine_until_stable();
    groups.extract_primes()
}

fn patterns(terms: &[Implicant]) -> Vec<String> {
    terms.iter().map(|term| term.get_binary_representation()).collect()
}

#[test]
fn the_map_says_which_prime_covers_which_minterm() {
    let first = minterms(2, &[1, 3]);
    let found = primes(2, &[1, 3]);
    assert_eq!(patterns(&found), vec!["-1", "11"]);
    let map = CoverageMap::new(&found, &first);
    assert_eq!(map.amount_of_primes(), 2);
    assert_eq!(map.amount_of_minterms(), 2);
    assert!(map.covers(0, 0));
    assert!(map.covers(0, 1));
    assert!(!map.covers(1, 0));
    assert!(map.covers(1, 1));
    assert!(!map.covers(2, 0));
    assert!(!map.covers(0, 2));
    assert!(map.get_selected_implicants().is_empty());
    assert!(!map.is_covered(0));
    assert!(!map.is_selected(0));
}

#[test]
fn the_sole_prime_of_a_minterm_is_essential() {
    let first = minterms(2, &[1, 3]);
    let found = primes(2, &[1, 3]);
    let mut map = CoverageMap::new(&found, &first);
    assert_eq!(map.find_essentials(), 1);
    assert_eq!(map.get_selected_implicants(), &vec![0]);
    assert!(map.is_selected(0));
    assert!(!map.is_selected(1));
    assert!(map.is_covered(0));
    assert!(map.is_covered(1));
    map.choose_remaining_primes();
    assert_eq!(map.get_selected_implicants(), &vec![0]);
}

#[test]
fn both_primes_of_xor_are_essential() {
    let first = minterms(2, &[1, 2]);
    let found = primes(2, &[1, 2]);
    assert_eq!(patterns(&found), vec!["10", "01"]);
    let mut map = CoverageMap::new(&found, &first);
    assert_eq!(map.find_essentials(), 2);
    assert_eq!(map.get_selected_implicants(), &vec![1, 0]);
}

#[test]
fn an_essential_prime_is_counted_once() {
    // "--" alone covers the first minterm; it is found essential once and
    // not selected again for the minterms after it.
    let first = minterms(2, &[0, 1, 2, 3]);
    let found = primes(2, &[0, 1, 2, 3]);
    let mut map = CoverageMap::new(&found, &first);
    assert_eq!(map.find_essentials(), 1);
    assert_eq!(map.get_selected_implicants(), &vec![0]);
    assert_eq!(map.find_essentials(), 0);
    assert_eq!(map.get_selected_implicants(), &vec![0]);
}

#[test]
fn a_minterm_with_one_prime_has_it_selected_in_the_end() {
    let rows = [0usize, 1, 2, 5, 6, 7, 8, 9, 10, 14];
    let first = minterms(4, &rows);
    let found = primes(4, &rows);
    let map = solve(&found, &first);
    for column in 0..first.len() {
        let covering: Vec<usize> =
            (0..found.len()).filter(|row| map.covers(*row, column)).collect();
        assert!(!covering.is_empty());
        if covering.len() == 1 {
            assert!(map.is_selected(covering[0]));
        }
    }
}

#[test]
fn the_greedy_choice_covers_every_minterm() {
    let rows = [0usize, 1, 2, 5, 6, 7];
    let first = minterms(3, &rows);
    let found = primes(3, &rows);
    let mut map = CoverageMap::new(&found, &first);
    assert_eq!(map.find_essentials(), 0);
    assert!(map.get_selected_implicants().is_empty());
    map.choose_remaining_primes();
    for column in 0..first.len() {
        assert!(map.is_covered(column));
    }
    let selected = map.get_selected_implicants();
    for (at, index) in selected.iter().enumerate() {
        assert!(*index < found.len());
        assert!(!selected[..at].contains(index));
    }
}

#[test]
fn the_greedy_choice_takes_the_widest_prime_and_the_first_of_equals() {
    let rows = [0usize, 1, 2, 5, 6, 7];
    let first = minterms(3, &rows);
    let found = primes(3, &rows);
    assert_eq!(
        patterns(&found),
        vec!["0-0", "00-", "-10", "-01", "11-", "1-1", "111"]
    );
    let mut map = CoverageMap::new(&found, &first);
    map.choose_remaining_primes();
    // Minterm 000 has the primes 0-0 and 00-, each covering two minterms
    // anew: the first of them is taken. Minterm 001 then has 00- and -01,
    // and only -01 covers two anew. Minterm 110 has -10 and 11-, of which
    // only 11- still covers two anew.
    assert_eq!(map.get_selected_implicants(), &vec![0, 3, 4]);
}

#[test]
fn the_greedy_choice_keeps_what_is_selected() {
    let rows = [0usize, 1, 2, 5, 6, 7];
    let first = minterms(3, &rows);
    let found = primes(3, &rows);
    let mut map = CoverageMap::new(&found, &first);
    map.choose_remaining_primes();
    let once: Vec<usize> = map.get_selected_implicants().clone();
    map.choose_remaining_primes();
    assert_eq!(map.get_selected_implicants(), &once);
}

#[test]
fn a_map_without_minterms_needs_no_prime() {
    let first: Vec<Implicant> = Vec::new();
    let found: Vec<Implicant> = Vec::new();
    let mut map = CoverageMap::new(&found, &first);
    assert_eq!(map.amount_of_primes(), 0);
    assert_eq!(map.amount_of_minterms(), 0);
    assert_eq!(map.find_essentials(), 0);
    map.choose_remaining_primes();
    assert!(map.get_selected_implicants().is_empty());
}

#[test]
fn only_essential_primes_are_found_essential() {
    let rows = [4usize, 8, 10, 11, 12, 15];
    let first = minterms(4, &rows);
    let found = primes(4, &rows);
    let mut map = CoverageMap::new(&found, &first);
    assert_eq!(map.find_essentials(), 1);
    for prime in map.get_selected_implicants().iter() {
        let alone = (0..first.len()).any(|column| {
            (0..found.len()).all(|row| map.covers(row, column) == (row == *prime))
        });
        assert!(alone);
    }
    assert_eq!(patterns(&found)[map.get_selected_implicants()[0]], "-100");
}

#[test]
fn every_prime_of_the_greedy_choice_covers_something_new() {
    let rows = [0usize, 1, 2, 5, 6, 7];
    let first = minterms(3, &rows);
    let found = primes(3, &rows);
    let mut map = CoverageMap::new(&found, &first);
    map.choose_remaining_primes();
    let mut covered = vec![false; first.len()];
    for prime in map.get_selected_implicants().iter() {
        let mut anew = false;
        for column in 0..first.len() {
            if map.covers(*prime, column) && !covered[column] {
                anew = true;
                covered[column] = true;
            }
        }
        assert!(anew);
    }
    assert!(covered.iter().all(|done| *done));
}

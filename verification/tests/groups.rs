use quine_mccluskey::algorithm::agroup;
use quine_mccluskey::groups_structure::GroupStructure;
use quine_mccluskey::implicant::Implicant;

fn names(list: &[&str]) -> Vec<String> {
    list.iter().map(|name| name.to_string()).collect()
}

fn minterm(bits: &[bool]) -> Implicant {
    let letters = ["A", "B", "C", "D", "E", "F"];
    Implicant::from_input(&bits.to_vec(), names(&letters[..bits.len()]))
}

/// The minterms of the rows listed, over `width` variables.
fn minterms(width: usize, rows: &[usize]) -> Vec<Implicant> {
    rows.iter()
        .map(|row| {
            let bits: Vec<bool> =
                (0..width).map(|bit| (row >> (width - 1 - bit)) & 1 == 1).collect();
            minterm(&bits)
        })
        .collect()
}

/// Each group as the patterns of its terms, a star behind the retired.
fn snapshot(groups: &GroupStructure) -> Vec<Vec<String>> {
    groups
        .groups()
        .iter()
        .map(|group| {
            group
                .iter()
                .map(|term| {
                    let star = if term.is_prime() { "*" } else { "" };
                    format!("{}{}", term.get_binary_representation(), star)
                })
                .collect()
        })
        .collect()
}

fn strings(list: &[&[&str]]) -> Vec<Vec<String>> {
    list.iter().map(|group| group.iter().map(|text| text.to_string()).collect()).collect()
}

#[test]
fn a_new_structure_has_one_group_more_than_variables() {
    let groups = GroupStructure::new(3);
    assert_eq!(groups.amount_of_variables(), 3);
    assert_eq!(snapshot(&groups), strings(&[&[], &[], &[], &[]]));
    assert!(groups.holds_only_primes());
    let none = GroupStructure::new(0);
    assert_eq!(snapshot(&none), strings(&[&[]]));
}

#[test]
fn terms_go_to_the_group_of_their_true_count() {
    let mut groups = GroupStructure::new(2);
    groups.add_implicant(minterm(&[true, true]));
    groups.add_implicant(minterm(&[false, true]));
    groups.add_implicant(minterm(&[false, false]));
    groups.add_implicant(minterm(&[true, false]));
    assert_eq!(snapshot(&groups), strings(&[&["00"], &["01", "10"], &["11"]]));
    assert!(!groups.holds_only_primes());
}

#[test]
fn agroup_keeps_the_order_within_a_group() {
    let groups = agroup(minterms(3, &[6, 1, 5, 2, 7, 4]), 3);
    assert_eq!(snapshot(&groups), strings(&[&[], &["001", "010", "100"], &["110", "101"], &["111"]]));
}

#[test]
fn one_round_on_two_adjacent_minterms() {
    let mut groups = agroup(minterms(2, &[1, 3]), 2);
    assert!(groups.combination_step());
    assert_eq!(snapshot(&groups), strings(&[&[], &["-1"], &["11*"]]));
    assert!(!groups.holds_only_primes());
    assert!(!groups.combination_step());
    assert_eq!(snapshot(&groups), strings(&[&[], &["-1*"], &["11*"]]));
    assert!(groups.holds_only_primes());
}

#[test]
fn a_round_drops_a_combination_that_the_group_already_holds() {
    let mut groups = agroup(minterms(2, &[0, 1, 2, 3]), 2);
    assert!(groups.combination_step());
    assert_eq!(snapshot(&groups), strings(&[&["0-", "-0"], &["-1", "1-"], &["11*"]]));
    assert!(groups.combination_step());
    assert_eq!(snapshot(&groups), strings(&[&["--"], &["-1*", "1-*"], &["11*"]]));
    assert!(!groups.combination_step());
    assert_eq!(snapshot(&groups), strings(&[&["--*"], &["-1*", "1-*"], &["11*"]]));
}

#[test]
fn a_term_without_a_partner_is_carried_over_retired() {
    let mut groups = agroup(minterms(2, &[1, 2]), 2);
    assert!(!groups.combination_step());
    assert_eq!(snapshot(&groups), strings(&[&[], &["01*", "10*"], &[]]));
}

#[test]
fn every_term_of_the_last_group_is_retired() {
    let mut groups = GroupStructure::new(3);
    groups.add_implicant(minterm(&[true, true, true]));
    groups.add_implicant(minterm(&[true, true, true]));
    assert!(!groups.combination_step());
    assert_eq!(snapshot(&groups), strings(&[&[], &[], &[], &["111*", "111*"]]));
    assert!(groups.holds_only_primes());
    let primes = groups.extract_primes();
    assert_eq!(primes.len(), 2);
    assert!(primes.iter().all(|prime| prime.is_prime()));
}

#[test]
fn two_terms_of_the_highest_filled_group_are_both_retired() {
    let mut groups = agroup(minterms(3, &[3, 5]), 3);
    assert!(!groups.combination_step());
    assert_eq!(snapshot(&groups), strings(&[&[], &[], &["011*", "101*"], &[]]));
    assert!(groups.holds_only_primes());
}

#[test]
fn primes_come_out_group_by_group_from_the_last_term_to_the_first() {
    let mut groups = agroup(minterms(2, &[0, 1, 2, 3]), 2);
    let rounds = groups.combine_until_stable();
    assert_eq!(rounds, 3);
    let primes = groups.extract_primes();
    let patterns: Vec<String> =
        primes.iter().map(|prime| prime.get_binary_representation()).collect();
    assert_eq!(patterns, vec!["--", "1-", "-1", "11"]);
    assert_eq!(snapshot(&groups), strings(&[&[], &[], &[]]));
}

#[test]
fn grouping_rests_within_one_round_more_than_variables() {
    for width in 0..5usize {
        let all: Vec<usize> = (0..(1usize << width)).collect();
        let mut groups = agroup(minterms(width, &all), width);
        let rounds = groups.combine_until_stable();
        assert_eq!(rounds, width + 1);
        assert!(groups.holds_only_primes());
    }
    let mut xor = agroup(minterms(2, &[1, 2]), 2);
    assert_eq!(xor.combine_until_stable(), 1);
    let mut empty = GroupStructure::new(4);
    assert_eq!(empty.combine_until_stable(), 1);
}

#[test]
fn every_minterm_is_covered_by_a_prime() {
    let rows = [0usize, 1, 2, 5, 6, 7, 8, 9, 10, 14];
    let first = minterms(4, &rows);
    let mut groups = agroup(minterms(4, &rows), 4);
    groups.combine_until_stable();
    let primes = groups.extract_primes();
    for minterm in first.iter() {
        assert!(primes.iter().any(|prime| prime.covers(minterm)));
    }
    assert!(primes.iter().all(|prime| prime.is_prime()));
}

#[test]
fn a_stable_round_changes_no_pattern() {
    let mut groups = agroup(minterms(3, &[0, 1, 4, 5, 7]), 3);
    groups.combine_until_stable();
    let before = snapshot(&groups);
    assert!(!groups.combination_step());
    assert_eq!(snapshot(&groups), before);
}

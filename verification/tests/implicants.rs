use quine_mccluskey::implicant::{Implicant, LogicLoad};

fn names(list: &[&str]) -> Vec<String> {
    list.iter().map(|name| name.to_string()).collect()
}

fn minterm(bits: &[bool]) -> Implicant {
    let letters = ["A", "B", "C", "D", "E", "F"];
    Implicant::from_input(&bits.to_vec(), names(&letters[..bits.len()]))
}

#[test]
fn logic_loads_tell_themselves_apart() {
    assert!(LogicLoad::True.is_true());
    assert!(!LogicLoad::False.is_true());
    assert!(!LogicLoad::DontMatter.is_true());
    assert!(LogicLoad::False.is_false());
    assert!(!LogicLoad::True.is_false());
    assert!(LogicLoad::DontMatter.dont_matter());
    assert!(!LogicLoad::True.dont_matter());
}

#[test]
fn logic_loads_equal_only_their_own_variant() {
    let all = [LogicLoad::False, LogicLoad::True, LogicLoad::DontMatter];
    for (i, left) in all.iter().enumerate() {
        for (j, right) in all.iter().enumerate() {
            assert_eq!(left.equals(right), i == j);
        }
    }
}

#[test]
fn a_row_becomes_a_minterm() {
    let term = minterm(&[false, true, true]);
    assert_eq!(term.get_binary_representation(), "011");
    assert_eq!(term.get_string_representation(), "!A B C");
    assert_eq!(term.amount_of_true_variables(), 2);
    assert_eq!(term.amount_of_variables(), 3);
    assert!(!term.is_prime());
}

#[test]
fn a_minterm_may_have_more_names_than_positions() {
    let term = Implicant::from_input(&vec![true, false], names(&["x", "y", "out"]));
    assert_eq!(term.get_string_representation(), "x !y");
    assert_eq!(term.get_binary_representation(), "10");
}

#[test]
fn the_empty_term_is_the_empty_text() {
    let term = Implicant::from_input(&vec![], names(&[]));
    assert_eq!(term.get_string_representation(), "");
    assert_eq!(term.get_binary_representation(), "");
    assert_eq!(term.amount_of_true_variables(), 0);
}

#[test]
fn minterm_numbers_read_the_first_variable_as_most_significant() {
    assert_eq!(minterm(&[false, false, false]).minterm_number(), 0);
    assert_eq!(minterm(&[false, false, true]).minterm_number(), 1);
    assert_eq!(minterm(&[true, false, true]).minterm_number(), 5);
    assert_eq!(minterm(&[true, true, false]).minterm_number(), 6);
    assert_eq!(minterm(&[true, true, true, true]).minterm_number(), 15);
}

#[test]
fn terms_combine_when_one_position_differs() {
    let a = minterm(&[false, true]);
    let b = minterm(&[true, true]);
    assert!(a.check_if_combines(&b));
    assert!(b.check_if_combines(&a));
    let merged = Implicant::from_implicants(&a, &b);
    assert_eq!(merged.get_binary_representation(), "-1");
    assert_eq!(merged.get_string_representation(), "B");
    assert!(!merged.is_prime());
    assert_eq!(merged.amount_of_true_variables(), 1);
}

#[test]
fn terms_do_not_combine_when_two_positions_differ() {
    let a = minterm(&[false, true]);
    let b = minterm(&[true, false]);
    assert!(!a.check_if_combines(&b));
    assert!(Implicant::combine(&a, &b).is_none());
}

#[test]
fn a_term_does_not_combine_with_itself() {
    let a = minterm(&[true, false, true]);
    let same = minterm(&[true, false, true]);
    assert!(!a.check_if_combines(&same));
    assert!(Implicant::combine(&a, &same).is_none());
}

#[test]
fn a_dont_care_against_a_literal_does_not_combine() {
    // "-1" and "11" differ at one position only, but one of the two does
    // not care there.
    let wide = Implicant::from_implicants(&minterm(&[false, true]), &minterm(&[true, true]));
    let narrow = minterm(&[true, true]);
    assert!(!wide.check_if_combines(&narrow));
    assert!(!narrow.check_if_combines(&wide));
    assert!(Implicant::combine(&wide, &narrow).is_none());
}

#[test]
fn terms_with_dont_cares_combine_at_a_literal() {
    let low = Implicant::from_implicants(&minterm(&[false, false]), &minterm(&[false, true]));
    let high = Implicant::from_implicants(&minterm(&[true, false]), &minterm(&[true, true]));
    assert_eq!(low.get_binary_representation(), "0-");
    assert_eq!(high.get_binary_representation(), "1-");
    let all = Implicant::combine(&low, &high).expect("the two combine");
    assert_eq!(all.get_binary_representation(), "--");
    assert_eq!(all.get_string_representation(), "");
}

#[test]
fn a_retired_term_combines_with_nothing() {
    let mut a = minterm(&[false, true]);
    let b = minterm(&[true, true]);
    a.mark_as_prime();
    assert!(a.is_prime());
    assert!(!a.check_if_combines(&b));
    assert!(!b.check_if_combines(&a));
    assert!(Implicant::combine(&a, &b).is_none());
    assert!(Implicant::combine(&b, &a).is_none());
}

#[test]
fn combining_gives_one_pattern_in_either_order() {
    let a = minterm(&[true, false, true, true]);
    let b = minterm(&[true, false, false, true]);
    let one = Implicant::combine(&a, &b).expect("the two combine");
    let other = Implicant::combine(&b, &a).expect("the two combine");
    assert_eq!(one.get_binary_representation(), "10-1");
    assert_eq!(other.get_binary_representation(), "10-1");
    assert!(one == other);
}

#[test]
fn a_combination_leaves_the_other_positions_alone() {
    let a = minterm(&[true, false, true]);
    let b = minterm(&[true, true, true]);
    let merged = Implicant::combine(&a, &b).expect("the two combine");
    assert_eq!(merged.get_binary_representation(), "1-1");
    assert_eq!(merged.get_string_representation(), "A C");
}

#[test]
fn a_term_covers_what_matches_it() {
    let wide = Implicant::from_implicants(&minterm(&[false, true]), &minterm(&[true, true]));
    assert!(wide.covers(&minterm(&[false, true])));
    assert!(wide.covers(&minterm(&[true, true])));
    assert!(!wide.covers(&minterm(&[true, false])));
    assert!(!wide.covers(&minterm(&[false, false])));
    assert!(wide.covers(&wide));
}

#[test]
fn a_literal_does_not_cover_a_dont_care() {
    let wide = Implicant::from_implicants(&minterm(&[false, true]), &minterm(&[true, true]));
    let narrow = minterm(&[true, true]);
    assert!(wide.covers(&narrow));
    assert!(!narrow.covers(&wide));
}

#[test]
fn equality_looks_at_the_pattern_alone() {
    let a = minterm(&[true, false]);
    let mut b = Implicant::from_input(&vec![true, false], names(&["p", "q"]));
    b.mark_as_prime();
    assert!(a == b);
    assert!(a.equals(&b));
    assert!(a != minterm(&[true, true]));
    assert!(!a.equals(&minterm(&[false, false])));
}

#[test]
fn a_clone_is_not_retired() {
    let mut a = minterm(&[true, false]);
    a.mark_as_prime();
    let copy = a.clone();
    assert!(a.is_prime());
    assert!(!copy.is_prime());
    assert!(copy == a);
    assert_eq!(copy.get_string_representation(), "A !B");
}

#[test]
fn negated_and_plain_literals() {
    assert_eq!(minterm(&[true]).get_string_representation(), "A");
    assert_eq!(minterm(&[false]).get_string_representation(), "!A");
    assert_eq!(minterm(&[false, false]).get_string_representation(), "!A !B");
    let term = Implicant::from_input(&vec![true, false], names(&["carry", "sum"]));
    assert_eq!(term.get_string_representation(), "carry !sum");
}

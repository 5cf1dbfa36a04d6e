//! The method from end to end: from a truth table to the minimised
//! formula.
use crate::coverage_map::{coverage_matrix, Coverage, CoverageMap};
use crate::groups_structure::{
    covered_by_group, covered_by_term, drained, drained_below, fits, group_wf, implied,
    patterns_of, settled, terms_of, GroupStructure,
};
use crate::implicant::{joined, Implicant, LogicLoad, Term};
use crate::pattern::{
    is_minterm, lemma_count_bound, lemma_covers_itself, lemma_minterm_covers_itself_only,
    pattern_covers, pattern_row, row_pattern, true_count,
};
use crate::round_laws::{
    lemma_drained_keeps_cover, lemma_drained_keeps_implied, lemma_drained_origin,
    lemma_rounds_keep_meaning,
};
use crate::table_parser::{binary_value, rows};
use crate::truth_table::{Table, TruthTable};
use vstd::prelude::*;
use vstd::string::StringExecFns;

verus! {

/// The terms among `terms` that belong in group `k`, in their order.
pub open spec fn group_of(terms: Seq<Term>, k: int) -> Seq<Term> {
    terms.filter(|term: Term| true_count(term.values) == k)
}

/// The terms grouped by their number of true positions.
pub open spec fn grouped(terms: Seq<Term>, variables: nat) -> Seq<Seq<Term>> {
    Seq::new(variables + 1, |k: int| group_of(terms, k))
}

/// Every term has `variables` positions, each of them named.
pub open spec fn all_sized(terms: Seq<Term>, variables: nat) -> bool {
    forall|i: int|
        0 <= i < terms.len() ==> (#[trigger] terms[i]).values.len() == variables
            && terms[i].named()
}

/// Groups the terms by their number of true positions, keeping their
/// order within each group.
pub fn agroup(implicants: Vec<Implicant>, amount_of_variables: usize) -> (groups: GroupStructure)
    requires
        amount_of_variables < usize::MAX,
        group_wf(implicants@),
        all_sized(terms_of(implicants@), amount_of_variables as nat),
    ensures
        groups.wf(),
        groups.variables() == amount_of_variables,
        groups@ == grouped(terms_of(implicants@), amount_of_variables as nat),
{
    let ghost terms = terms_of(implicants@);
    let ghost given = implicants@;
    let mut groups = GroupStructure::new(amount_of_variables);
    assert(groups@ =~~= grouped(terms.take(0), amount_of_variables as nat)) by {
        assert forall|k: int| 0 <= k < amount_of_variables + 1 implies #[trigger] group_of(
            terms.take(0),
            k,
        ) =~= Seq::<Term>::empty() by {
            terms.take(0).lemma_filter_len(|term: Term| true_count(term.values) == k);
        }
    }
    for implicant in iter: implicants
        invariant
            given == iter.seq(),
            terms == terms_of(given),
            group_wf(given),
            all_sized(terms, amount_of_variables as nat),
            groups.wf(),
            groups.variables() == amount_of_variables,
            groups@ == grouped(terms.take(iter.index()), amount_of_variables as nat),
    {
        let ghost at = iter.index();
        assert(terms[at] == implicant@);
        groups.add_implicant(implicant);
        proof {
            assert(terms.take(at + 1) =~= terms.take(at).push(terms[at]));
            assert forall|g: int| 0 <= g < amount_of_variables + 1 implies #[trigger] groups@[g]
                == group_of(terms.take(at + 1), g) by {
                terms.take(at).lemma_filter_push(
                    terms[at],
                    |term: Term| true_count(term.values) == g,
                );
            }
        }
    }
    assert(terms.take(terms.len() as int) =~= terms);
    groups
}

/// The minterm of row `i` of the table.
pub open spec fn minterm_of(table: Table, i: int) -> Term {
    Term { names: table.variables, values: row_pattern(table.inputs[i]), prime: false }
}

/// The minterms of the first `n` rows: one for each row whose output is
/// true, in the order of the rows.
pub open spec fn minterms_below(table: Table, n: nat) -> Seq<Term>
    decreases n,
{
    if n == 0 {
        Seq::empty()
    } else {
        let before = minterms_below(table, (n - 1) as nat);
        if table.output[n - 1] {
            before.push(minterm_of(table, n - 1))
        } else {
            before
        }
    }
}

/// The minterms of the table.
pub open spec fn minterms_of(table: Table) -> Seq<Term> {
    minterms_below(table, table.inputs.len())
}

/// A row among the first `n` whose output is true has its minterm among
/// the minterms of those rows.
pub proof fn lemma_row_has_minterm(table: Table, n: nat, i: int) -> (j: int)
    requires
        n <= table.inputs.len(),
        0 <= i < n,
        table.output[i],
    ensures
        0 <= j < minterms_below(table, n).len(),
        minterms_below(table, n)[j] == minterm_of(table, i),
    decreases n,
{
    let before = minterms_below(table, (n - 1) as nat);
    if i < n - 1 {
        lemma_row_has_minterm(table, (n - 1) as nat, i)
    } else {
        before.len() as int
    }
}

/// Each minterm of the first `n` rows is the minterm of one of those rows,
/// and the output of that row is true.
pub proof fn lemma_minterm_has_row(table: Table, n: nat, j: int) -> (i: int)
    requires
        n <= table.inputs.len(),
        0 <= j < minterms_below(table, n).len(),
    ensures
        0 <= i < n,
        table.output[i],
        minterms_below(table, n)[j] == minterm_of(table, i),
    decreases n,
{
    let before = minterms_below(table, (n - 1) as nat);
    if n == 0 {
        0
    } else if j < before.len() {
        lemma_minterm_has_row(table, (n - 1) as nat, j)
    } else {
        n - 1
    }
}

/// The minterms of the table: one term for each row whose output is
/// true, in the order of the rows.
pub fn minterms(table: &TruthTable) -> (first_implicants: Vec<Implicant>)
    requires
        table.wf(),
    ensures
        group_wf(first_implicants@),
        terms_of(first_implicants@) == minterms_of(table@),
        all_sized(terms_of(first_implicants@), table@.amount_of_variables()),
        forall|i: int|
            0 <= i < first_implicants@.len() ==> is_minterm(
                (#[trigger] terms_of(first_implicants@)[i]).values,
            ) && binary_value(pattern_row(terms_of(first_implicants@)[i].values)) <= usize::MAX,
{
    proof {
        table.lemma_wf();
    }
    let ghost variables = table@.amount_of_variables();
    let input_rows = table.input_rows();
    let amount_of_rows = input_rows.len();
    proof {
        assert forall|j: int| 0 <= j < minterms_of(table@).len() implies is_minterm(
            (#[trigger] minterms_of(table@)[j]).values,
        ) && binary_value(pattern_row(minterms_of(table@)[j].values)) <= usize::MAX by {
            let i = lemma_minterm_has_row(table@, table@.inputs.len(), j);
            assert(pattern_row(row_pattern(table@.inputs[i])) =~= table@.inputs[i]);
        }
    }
    let mut first_implicants: Vec<Implicant> = Vec::new();
    let mut index: usize = 0;
    while index < amount_of_rows
        invariant
            table@.well_formed(),
            variables == table@.amount_of_variables(),
            rows(input_rows@) == table@.inputs,
            amount_of_rows == input_rows@.len(),
            index <= input_rows@.len(),
            group_wf(first_implicants@),
            terms_of(first_implicants@) == minterms_below(table@, index as nat),
            all_sized(terms_of(first_implicants@), variables),
        decreases input_rows@.len() - index,
    {
        assert(table@.inputs[index as int] == input_rows@[index as int]@);
        if table.row_value(index) {
            let names = table.variables_names();
            let implicant = Implicant::from_input(&input_rows[index], names);
            let ghost shorter = first_implicants@;
            proof {
                implicant.lemma_wf_named();
            }
            first_implicants.push(implicant);
            assert(terms_of(first_implicants@) =~= terms_of(shorter).push(implicant@));
        }
        index += 1;
    }
    first_implicants
}

/// The texts of the terms.
pub open spec fn texts_of(terms: Seq<Term>) -> Seq<Seq<char>> {
    Seq::new(terms.len(), |i: int| terms[i].text())
}

/// The sum of products that the terms stand for: their texts with ` + `
/// between each two.
pub open spec fn expression(terms: Seq<Term>) -> Seq<char> {
    joined(texts_of(terms), seq![' ', '+', ' '])
}

/// The terms that a list of references to implicants stands for.
pub open spec fn terms_of_refs(implicants: Seq<&Implicant>) -> Seq<Term> {
    Seq::new(implicants.len(), |i: int| implicants[i]@)
}

/// The sum of products that the implicants stand for.
pub fn assemble_expression(implicants: &[&Implicant]) -> (formula: String)
    requires
        forall|i: int| 0 <= i < implicants@.len() ==> (#[trigger] implicants@[i]).wf(),
    ensures
        formula@ == expression(terms_of_refs(implicants@)),
{
    let ghost parts = texts_of(terms_of_refs(implicants@));
    let ghost plus = seq![' ', '+', ' '];
    let mut formula = String::new();
    let mut index: usize = 0;
    while index < implicants.len()
        invariant
            forall|i: int| 0 <= i < implicants@.len() ==> (#[trigger] implicants@[i]).wf(),
            parts == texts_of(terms_of_refs(implicants@)),
            plus == seq![' ', '+', ' '],
            index <= implicants@.len(),
            formula@ == joined(parts.take(index as int), plus),
        decreases implicants@.len() - index,
    {
        let text = implicants[index].get_string_representation();
        if index > 0 {
            proof {
                reveal_strlit(" + ");
            }
            formula.append(" + ");
        }
        formula.append(text.as_str());
        proof {
            assert(parts.take(index + 1).drop_last() =~= parts.take(index as int));
        }
        index += 1;
    }
    assert(parts.take(index as int) =~= parts);
    formula
}

/// The primes that the selection names, in the order of their selection.
pub open spec fn selected_terms(primes: Seq<Term>, selected: Seq<usize>) -> Seq<Term> {
    Seq::new(selected.len(), |i: int| primes[selected[i] as int])
}

/// The coverage of the minterms by the primes once the essential primes
/// are selected and the greedy choice has covered the rest.
pub open spec fn solved(primes: Seq<Term>, minterms: Seq<Term>) -> Coverage {
    let blank = Coverage {
        matrix: coverage_matrix(primes, minterms),
        columns: minterms.len(),
        selected: Seq::empty(),
    };
    blank.with_essentials(minterms.len()).with_choices(minterms.len())
}

/// Every term is a minterm: none of its positions is a don't-care.
pub open spec fn all_minterms(terms: Seq<Term>) -> bool {
    forall|i: int| 0 <= i < terms.len() ==> is_minterm((#[trigger] terms[i]).values)
}

/// The same terms, none of them retired.
pub open spec fn fresh_all(terms: Seq<Term>) -> Seq<Term> {
    Seq::new(terms.len(), |i: int| terms[i].fresh())
}

/// The prime implicants of the minterms, in the order in which grouping
/// gives them out.
pub open spec fn primes_of(minterms: Seq<Term>, variables: nat) -> Seq<Term> {
    drained(settled(grouped(fresh_all(minterms), variables)))
}

/// The terms of the minimised sum of products: the selected primes, in
/// the order of their selection.
pub open spec fn minimal_terms(table: Table) -> Seq<Term> {
    let minterms = minterms_of(table);
    let primes = primes_of(minterms, table.amount_of_variables());
    selected_terms(primes, solved(primes, minterms).selected)
}

/// The minimised formula of the table.
pub open spec fn formula_of(table: Table) -> Seq<char> {
    expression(minimal_terms(table))
}

/// The prime implicants of a set of minterms: the minterms are grouped,
/// combined round after round until a round finds nothing to combine, and
/// what is left is taken out. Each minterm is covered by at least one of
/// the primes.
pub fn prime_implicants(first_implicants: &Vec<Implicant>, amount_of_variables: usize) -> (primes:
    Vec<Implicant>)
    requires
        amount_of_variables < usize::MAX,
        group_wf(first_implicants@),
        all_sized(terms_of(first_implicants@), amount_of_variables as nat),
    ensures
        group_wf(primes@),
        terms_of(primes@) == primes_of(terms_of(first_implicants@), amount_of_variables as nat),
        all_sized(terms_of(primes@), amount_of_variables as nat),
        forall|i: int| 0 <= i < primes@.len() ==> (#[trigger] terms_of(primes@)[i]).prime,
        forall|i: int|
            0 <= i < first_implicants@.len() ==> covered_by_term(
                terms_of(primes@),
                (#[trigger] terms_of(first_implicants@)[i]).values,
            ),
        all_minterms(terms_of(first_implicants@)) ==> forall|z: int|
            0 <= z < primes@.len() ==> implied(
                (#[trigger] terms_of(primes@)[z]).values,
                patterns_of(terms_of(first_implicants@)),
            ),
{
    let ghost minterms = terms_of(first_implicants@);
    let ghost variables = amount_of_variables as nat;
    let mut copies: Vec<Implicant> = Vec::new();
    let mut index: usize = 0;
    while index < first_implicants.len()
        invariant
            minterms == terms_of(first_implicants@),
            group_wf(first_implicants@),
            index <= first_implicants@.len(),
            copies@.len() == index,
            group_wf(copies@),
            forall|i: int| 0 <= i < index ==> (#[trigger] copies@[i])@ == minterms[i].fresh(),
        decreases first_implicants@.len() - index,
    {
        assert(minterms[index as int] == first_implicants@[index as int]@);
        copies.push(first_implicants[index].clone());
        index += 1;
    }
    let ghost fresh = terms_of(copies@);
    proof {
        assert(fresh =~= fresh_all(minterms));
        assert forall|i: int| 0 <= i < fresh.len() implies (#[trigger] fresh[i]).values.len()
            == variables && fresh[i].named() by {
            assert(minterms[i].values.len() == variables && minterms[i].named());
        }
    }
    let mut groups = agroup(copies, amount_of_variables);
    let ghost start = groups@;
    proof {
        groups.lemma_wf_well_grouped();
    }
    let count = groups.combine_until_stable();
    let ghost rest = groups@;
    proof {
        groups.lemma_wf_well_grouped();
    }
    let primes = groups.extract_primes();
    proof {
        let found = terms_of(primes@);
        let truths = patterns_of(minterms);
        if all_minterms(minterms) {
            assert forall|k: int, i: int|
                0 <= k < start.len() && 0 <= i < start[k].len() implies implied(
                (#[trigger] start[k][i]).values,
                truths,
            ) by {
                let term = start[k][i];
                let belongs = |other: Term| true_count(other.values) == k;
                assert(fresh.filter(belongs).contains(term));
                fresh.lemma_filter_contains_rev(belongs, term);
                let at = choose|at: int| 0 <= at < fresh.len() && fresh[at] == term;
                assert(is_minterm(minterms[at].values));
                assert(truths[at] == term.values);
                assert forall|row: Seq<LogicLoad>|
                    #![trigger pattern_covers(term.values, row)]
                    row.len() == term.values.len() && is_minterm(row) && pattern_covers(
                        term.values,
                        row,
                    ) implies truths.contains(row) by {
                    lemma_minterm_covers_itself_only(term.values, row);
                }
            }
            lemma_rounds_keep_meaning(start, variables, truths, count as nat);
            lemma_drained_keeps_implied(rest, truths);
        }
        assert forall|z: int| 0 <= z < found.len() implies (#[trigger] found[z]).prime
            && found[z].values.len() == variables && found[z].named() by {
            lemma_drained_origin(rest, rest.len(), z);
            let (k, i) = choose|k: int, i: int|
                0 <= k < rest.len() && 0 <= i < rest[k].len() && drained_below(
                    rest,
                    rest.len(),
                )[z] == #[trigger] rest[k][i];
            assert(fits(rest[k][i], variables, k));
        }
        assert forall|i: int| 0 <= i < minterms.len() implies covered_by_term(
            found,
            (#[trigger] minterms[i]).values,
        ) by {
            let term = fresh[i];
            let k = true_count(term.values) as int;
            lemma_count_bound(term.values, LogicLoad::True);
            let belongs = |other: Term| true_count(other.values) == k;
            fresh.lemma_filter_contains(belongs, i);
            let at = choose|at: int|
                0 <= at < fresh.filter(belongs).len() && fresh.filter(belongs)[at] == term;
            assert(start[k][at] == term);
            lemma_covers_itself(term.values);
            assert(covered_by_group(start, term.values));
            lemma_drained_keeps_cover(rest, term.values);
        }
    }
    primes
}

/// The coverage of the minterms by the primes, with the essential primes
/// selected and the rest of the minterms covered by the greedy choice.
/// Each minterm must be covered by at least one of the primes.
pub fn solve(primes: &Vec<Implicant>, first_implicants: &Vec<Implicant>) -> (coverage_map:
    CoverageMap)
    requires
        forall|i: int|
            0 <= i < first_implicants@.len() ==> covered_by_term(
                terms_of(primes@),
                (#[trigger] terms_of(first_implicants@)[i]).values,
            ),
    ensures
        coverage_map.wf(),
        coverage_map@ == solved(terms_of(primes@), terms_of(first_implicants@)),
        coverage_map@.matrix == coverage_matrix(terms_of(primes@), terms_of(first_implicants@)),
        coverage_map@.columns == first_implicants@.len(),
        coverage_map@.all_covered(),
        coverage_map@.essentials_selected(),
{
    let ghost found = terms_of(primes@);
    let ghost minterms = terms_of(first_implicants@);
    let mut coverage_map = CoverageMap::new(primes, first_implicants);
    let ghost blank = coverage_map@;
    proof {
        assert forall|c: int| 0 <= c < blank.columns implies blank.has_coverer(c) by {
            let r = choose|r: int|
                0 <= r < found.len() && pattern_covers(
                    (#[trigger] found[r]).values,
                    minterms[c].values,
                );
            assert(blank.covers(r, c));
        }
    }
    coverage_map.find_essentials();
    proof {
        let marked = coverage_map@;
        assert forall|c: int| 0 <= c < marked.columns implies marked.has_coverer(c) by {
            assert(blank.has_coverer(c));
            let r = choose|r: int| #[trigger] blank.covers(r, c);
            assert(marked.covers(r, c));
        }
    }
    coverage_map.choose_remaining_primes();
    coverage_map
}

/// The terms of the minimised sum of products of the table: the selected
/// prime implicants, in the order of their selection.
pub fn minimize(table: &TruthTable) -> (selected_implicants: Vec<Implicant>)
    requires
        table.wf(),
    ensures
        group_wf(selected_implicants@),
        terms_of(selected_implicants@) == minimal_terms(table@),
        forall|i: int|
            0 <= i < table@.inputs.len() ==> (table@.output[i] <==> covered_by_term(
                terms_of(selected_implicants@),
                #[trigger] row_pattern(table@.inputs[i]),
            )),
{
    let first_implicants = minterms(table);
    let amount_of_variables = table.amount_of_variables();
    let primes = prime_implicants(&first_implicants, amount_of_variables);
    let coverage_map = solve(&primes, &first_implicants);
    let selected = coverage_map.get_selected_implicants();
    let ghost found = terms_of(primes@);
    proof {
        coverage_map.lemma_wf_shaped();
    }
    let mut selected_implicants: Vec<Implicant> = Vec::new();
    let mut index: usize = 0;
    while index < selected.len()
        invariant
            found == terms_of(primes@),
            group_wf(primes@),
            forall|i: int| 0 <= i < primes@.len() ==> (#[trigger] found[i]).prime,
            coverage_map@.shaped(),
            coverage_map@.matrix.len() == primes@.len(),
            selected@ == coverage_map@.selected,
            index <= selected@.len(),
            selected_implicants@.len() == index,
            group_wf(selected_implicants@),
            forall|i: int|
                0 <= i < index ==> (#[trigger] selected_implicants@[i])@
                    == found[selected@[i] as int],
        decreases selected@.len() - index,
    {
        let prime_index = selected[index];
        let prime = &primes[prime_index];
        let mut copy = prime.clone();
        copy.mark_as_prime();
        selected_implicants.push(copy);
        index += 1;
    }
    assert(terms_of(selected_implicants@) =~= selected_terms(found, selected@));
    proof {
        table.lemma_wf();
        assert forall|i: int| 0 <= i < table@.inputs.len() implies (table@.output[i]
            <==> covered_by_term(
            terms_of(selected_implicants@),
            #[trigger] row_pattern(table@.inputs[i]),
        )) by {
            if table@.output[i] {
                lemma_true_row_is_covered(table@, found, coverage_map@, i);
            }
            if covered_by_term(terms_of(selected_implicants@), row_pattern(table@.inputs[i])) {
                lemma_covered_row_is_true(table@, found, coverage_map@, i);
            }
        }
    }
    selected_implicants
}


/// The facts about a selection of primes from which it follows that the
/// selection is true on exactly the rows on which the table is: the
/// coverage map is that of the primes and the minterms of the table, every
/// minterm is covered, and each prime stands for minterms only.
pub open spec fn selection_fits(table: Table, primes: Seq<Term>, coverage: Coverage) -> bool {
    &&& table.well_formed()
    &&& coverage.shaped()
    &&& coverage.matrix == coverage_matrix(primes, minterms_of(table))
    &&& coverage.columns == minterms_of(table).len()
    &&& coverage.all_covered()
    &&& all_sized(primes, table.amount_of_variables())
    &&& forall|z: int|
        0 <= z < primes.len() ==> implied(
            (#[trigger] primes[z]).values,
            patterns_of(minterms_of(table)),
        )
}

/// A row whose output is true is covered by one of the selected primes.
pub proof fn lemma_true_row_is_covered(table: Table, primes: Seq<Term>, coverage: Coverage, i: int)
    requires
        selection_fits(table, primes, coverage),
        0 <= i < table.inputs.len(),
        table.output[i],
    ensures
        covered_by_term(
            selected_terms(primes, coverage.selected),
            row_pattern(table.inputs[i]),
        ),
{
    let given = minterms_of(table);
    let chosen = selected_terms(primes, coverage.selected);
    let row = row_pattern(table.inputs[i]);
    let j = lemma_row_has_minterm(table, table.inputs.len(), i);
    assert(given[j].values == row);
    assert(coverage.covered(j));
    let s = choose|s: int|
        0 <= s < coverage.selected.len() && coverage.covers(
            (#[trigger] coverage.selected[s]) as int,
            j,
        );
    let r = coverage.selected[s] as int;
    assert(coverage.matrix[r][j] == primes[r].covers(given[j]));
    assert(chosen[s] == primes[r]);
    assert(pattern_covers(chosen[s].values, row));
}

/// A row that one of the selected primes covers has a true output.
pub proof fn lemma_covered_row_is_true(table: Table, primes: Seq<Term>, coverage: Coverage, i: int)
    requires
        selection_fits(table, primes, coverage),
        0 <= i < table.inputs.len(),
        covered_by_term(
            selected_terms(primes, coverage.selected),
            row_pattern(table.inputs[i]),
        ),
    ensures
        table.output[i],
{
    let given = minterms_of(table);
    let truths = patterns_of(given);
    let chosen = selected_terms(primes, coverage.selected);
    let row = row_pattern(table.inputs[i]);
    let s = choose|s: int|
        0 <= s < chosen.len() && pattern_covers((#[trigger] chosen[s]).values, row);
    let r = coverage.selected[s] as int;
    assert(0 <= r < primes.len());
    assert(chosen[s] == primes[r]);
    assert(table.inputs[i].len() + 1 == table.variables.len());
    assert(table.inputs[0].len() + 1 == table.variables.len());
    assert(primes[r].values.len() == table.amount_of_variables());
    assert(row.len() == primes[r].values.len());
    assert(is_minterm(row));
    assert(implied(primes[r].values, truths));
    assert(pattern_covers(primes[r].values, row));
    assert(truths.contains(row));
    let j = choose|j: int| 0 <= j < truths.len() && truths[j] == row;
    let other = lemma_minterm_has_row(table, table.inputs.len(), j);
    assert(given[j].values == row_pattern(table.inputs[other]));
    assert(table.inputs[other] =~= table.inputs[i]) by {
        assert(row_pattern(table.inputs[other]).len() == row.len());
        assert forall|p: int| 0 <= p < table.inputs[i].len() implies table.inputs[other][p]
            == table.inputs[i][p] by {
            assert(row_pattern(table.inputs[other])[p] == row[p]);
        }
    }
    assert(binary_value(table.inputs[other]) == other);
    assert(binary_value(table.inputs[i]) == i);
}

/// The minimised formula of the table: the sum of the selected prime
/// implicants, which between them cover the rows whose output is true and
/// no other row of the table.
pub fn algorithm(table: TruthTable) -> (final_formula: String)
    requires
        table.wf(),
    ensures
        final_formula@ == formula_of(table@),
        forall|i: int|
            0 <= i < table@.inputs.len() ==> (table@.output[i] <==> covered_by_term(
                minimal_terms(table@),
                #[trigger] row_pattern(table@.inputs[i]),
            )),
{
    let selected_implicants = minimize(&table);
    let mut references: Vec<&Implicant> = Vec::new();
    let mut index: usize = 0;
    while index < selected_implicants.len()
        invariant
            index <= selected_implicants@.len(),
            references@.len() == index,
            forall|i: int|
                0 <= i < index ==> *(#[trigger] references@[i]) == selected_implicants@[i],
        decreases selected_implicants@.len() - index,
    {
        references.push(&selected_implicants[index]);
        index += 1;
    }
    assert(terms_of_refs(references@) =~= terms_of(selected_implicants@));
    assemble_expression(references.as_slice())
}

} // verus!

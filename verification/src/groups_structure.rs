//! Terms grouped by their number of true positions, and the rounds of
//! combination that turn minterms into prime implicants.
use crate::implicant::{Implicant, LogicLoad, Term};
use crate::pattern::{dash_count, is_minterm, lemma_count_bound, pattern_covers, true_count};
use crate::round_laws::{
    lemma_absorb_without_partner, lemma_full_dashes_stable, lemma_last_round_unique,
    lemma_round_adds_dash, lemma_round_keeps_cover, lemma_round_well_grouped,
    lemma_stable_round_all_prime,
};
use vstd::prelude::*;

verus! {

/// The terms that a group of implicants stands for.
pub open spec fn terms_of(group: Seq<Implicant>) -> Seq<Term> {
    Seq::new(group.len(), |i: int| group[i]@)
}

/// Some term of `group` has the pattern of `term`.
pub open spec fn holds_pattern(group: Seq<Term>, term: Term) -> bool {
    exists|j: int| 0 <= j < group.len() && (#[trigger] group[j]).same_pattern(term)
}

/// `term` combines with one of the first `j` terms of `next`.
pub open spec fn has_partner_below(term: Term, next: Seq<Term>, j: int) -> bool {
    exists|y: int| 0 <= y < j && y < next.len() && term.combines(#[trigger] next[y])
}

/// `term` combines with some term of `next`.
pub open spec fn has_partner(term: Term, next: Seq<Term>) -> bool {
    has_partner_below(term, next, next.len() as int)
}

/// The new group `acc` after `term` has been tried against the first `j`
/// terms of `next`: each combination joins the group, in order, unless the
/// group already holds its pattern.
pub open spec fn absorb(acc: Seq<Term>, term: Term, next: Seq<Term>, j: nat) -> Seq<Term>
    decreases j,
{
    if j == 0 {
        acc
    } else {
        let before = absorb(acc, term, next, (j - 1) as nat);
        let candidate = next[j - 1];
        if term.combines(candidate) && !holds_pattern(before, term.combined(candidate)) {
            before.push(term.combined(candidate))
        } else {
            before
        }
    }
}

/// The new group `acc` after `term` has had its turn: its combinations
/// with the terms of `next` where there are any, else the term itself,
/// retired.
pub open spec fn advance(acc: Seq<Term>, term: Term, next: Seq<Term>) -> Seq<Term> {
    if has_partner(term, next) {
        absorb(acc, term, next, next.len())
    } else {
        acc.push(term.retired())
    }
}

/// The new group that the first `i` terms of `group` give against `next`.
pub open spec fn merge_groups(group: Seq<Term>, next: Seq<Term>, i: nat) -> Seq<Term>
    decreases i,
{
    if i == 0 {
        Seq::empty()
    } else {
        advance(merge_groups(group, next, (i - 1) as nat), group[i - 1], next)
    }
}

/// Every term of the group, retired.
pub open spec fn retire_all(group: Seq<Term>) -> Seq<Term> {
    Seq::new(group.len(), |i: int| group[i].retired())
}

/// The groups after one round of combination. Each group but the last is
/// merged with its successor; the last has no successor, so each of its
/// terms is carried over retired.
pub open spec fn next_groups(groups: Seq<Seq<Term>>) -> Seq<Seq<Term>> {
    Seq::new(
        groups.len(),
        |k: int|
            if k + 1 < groups.len() {
                merge_groups(groups[k], groups[k + 1], groups[k].len())
            } else {
                retire_all(groups[k])
            },
    )
}

/// Term `i` of group `k` combines with term `j` of group `k + 1`.
pub open spec fn pair_combines(groups: Seq<Seq<Term>>, k: int, i: int, j: int) -> bool {
    &&& 0 <= k && k + 1 < groups.len()
    &&& 0 <= i < groups[k].len()
    &&& 0 <= j < groups[k + 1].len()
    &&& groups[k][i].combines(groups[k + 1][j])
}

/// Some term of a group among the first `k` combines with a term of the
/// group that follows its own.
pub open spec fn finds_combination_below(groups: Seq<Seq<Term>>, k: int) -> bool {
    exists|g: int, i: int, j: int| g < k && #[trigger] pair_combines(groups, g, i, j)
}

/// A round on these groups finds at least one combination.
pub open spec fn finds_combination(groups: Seq<Seq<Term>>) -> bool {
    finds_combination_below(groups, groups.len() as int)
}

/// A term of `variables` positions, each of them named, that belongs in
/// group `k`.
pub open spec fn fits(term: Term, variables: nat, k: int) -> bool {
    &&& term.values.len() == variables
    &&& term.named()
    &&& true_count(term.values) == k
}

/// There is one group for each possible number of true positions, and
/// each term stands in the group of its own number.
pub open spec fn well_grouped(groups: Seq<Seq<Term>>, variables: nat) -> bool {
    &&& groups.len() == variables + 1
    &&& forall|k: int, i: int|
        0 <= k < groups.len() && 0 <= i < groups[k].len() ==> fits(
            #[trigger] groups[k][i],
            variables,
            k,
        )
}

/// Every term of every group is retired.
pub open spec fn all_prime(groups: Seq<Seq<Term>>) -> bool {
    forall|k: int, i: int|
        0 <= k < groups.len() && 0 <= i < groups[k].len() ==> (#[trigger] groups[k][i]).prime
}

/// The groups after `n` rounds of combination.
pub open spec fn rounds(groups: Seq<Seq<Term>>, n: nat) -> Seq<Seq<Term>>
    decreases n,
{
    if n == 0 {
        groups
    } else {
        next_groups(rounds(groups, (n - 1) as nat))
    }
}

/// Round `n`, counted from one, is the first that finds no combination.
pub open spec fn is_last_round(groups: Seq<Seq<Term>>, n: nat) -> bool {
    &&& n >= 1
    &&& !finds_combination(rounds(groups, (n - 1) as nat))
    &&& forall|r: nat| r + 1 < n ==> finds_combination(#[trigger] rounds(groups, r))
}

/// The groups once the rounds have come to rest: as they stand after the
/// first round that finds no combination.
pub open spec fn settled(groups: Seq<Seq<Term>>) -> Seq<Seq<Term>> {
    rounds(groups, choose|n: nat| is_last_round(groups, n))
}

/// Every term that is not retired has at least `least` don't-cares.
pub open spec fn dashes_at_least(groups: Seq<Seq<Term>>, least: nat) -> bool {
    forall|k: int, i: int|
        0 <= k < groups.len() && 0 <= i < groups[k].len() && !(#[trigger] groups[k][i]).prime
            ==> dash_count(groups[k][i].values) >= least
}

/// Some term of some group covers the pattern `minterm`.
pub open spec fn covered_by_group(groups: Seq<Seq<Term>>, minterm: Seq<LogicLoad>) -> bool {
    exists|k: int, i: int|
        0 <= k < groups.len() && 0 <= i < groups[k].len() && pattern_covers(
            (#[trigger] groups[k][i]).values,
            minterm,
        )
}

/// Some term of the list covers the pattern `minterm`.
pub open spec fn covered_by_term(terms: Seq<Term>, minterm: Seq<LogicLoad>) -> bool {
    exists|i: int| 0 <= i < terms.len() && pattern_covers((#[trigger] terms[i]).values, minterm)
}

/// The pattern `term` stands for rows of `truths` only: every row of its
/// length that it covers is one of them.
pub open spec fn implied(term: Seq<LogicLoad>, truths: Seq<Seq<LogicLoad>>) -> bool {
    forall|row: Seq<LogicLoad>|
        #![trigger pattern_covers(term, row)]
        row.len() == term.len() && is_minterm(row) && pattern_covers(term, row)
            ==> truths.contains(row)
}

/// Every term of every group stands for rows of `truths` only.
pub open spec fn all_implied(groups: Seq<Seq<Term>>, truths: Seq<Seq<LogicLoad>>) -> bool {
    forall|k: int, i: int|
        0 <= k < groups.len() && 0 <= i < groups[k].len() ==> implied(
            (#[trigger] groups[k][i]).values,
            truths,
        )
}

/// The patterns of the terms.
pub open spec fn patterns_of(terms: Seq<Term>) -> Seq<Seq<LogicLoad>> {
    Seq::new(terms.len(), |i: int| terms[i].values)
}

/// The terms of the first `k` groups in the order in which they are
/// drained: group by group, each group from its last term to its first.
pub open spec fn drained_below(groups: Seq<Seq<Term>>, k: nat) -> Seq<Term>
    decreases k,
{
    if k == 0 {
        Seq::empty()
    } else {
        drained_below(groups, (k - 1) as nat) + groups[k - 1].reverse()
    }
}

/// All terms in the order in which they are drained.
pub open spec fn drained(groups: Seq<Seq<Term>>) -> Seq<Term> {
    drained_below(groups, groups.len())
}

/// The working set of the method: the terms of the current round, grouped
/// by their number of true positions.
pub struct GroupStructure {
    amount_of_groups: usize,
    groups: Vec<Vec<Implicant>>,
}

impl View for GroupStructure {
    type V = Seq<Seq<Term>>;

    closed spec fn view(&self) -> Seq<Seq<Term>> {
        Seq::new(self.groups@.len(), |k: int| terms_of(self.groups@[k]@))
    }
}

/// Every implicant of the group is well formed.
pub open spec fn group_wf(group: Seq<Implicant>) -> bool {
    forall|i: int| 0 <= i < group.len() ==> (#[trigger] group[i]).wf()
}

impl GroupStructure {
    /// There is one group for each possible number of true positions, each
    /// implicant is well formed, and each stands in the group of its number
    /// of true positions.
    pub closed spec fn wf(&self) -> bool {
        &&& self.amount_of_groups >= 1
        &&& self.groups@.len() == self.amount_of_groups
        &&& forall|k: int| 0 <= k < self.groups@.len() ==> group_wf((#[trigger] self.groups@[k])@)
        &&& well_grouped(self@, (self.amount_of_groups - 1) as nat)
    }

    /// The number of variables of the terms that the structure takes.
    pub closed spec fn variables(&self) -> nat {
        (self.amount_of_groups - 1) as nat
    }

    /// A well-formed structure is well grouped for its number of variables.
    pub proof fn lemma_wf_well_grouped(&self)
        requires
            self.wf(),
        ensures
            well_grouped(self@, self.variables()),
    {
    }

    /// Empty groups for terms of `amount_of_variables` variables: one group
    /// for each possible number of true positions.
    pub fn new(amount_of_variables: usize) -> (structure: Self)
        requires
            amount_of_variables < usize::MAX,
        ensures
            structure.wf(),
            structure.variables() == amount_of_variables,
            structure@ == Seq::new(
                (amount_of_variables + 1) as nat,
                |k: int| Seq::<Term>::empty(),
            ),
    {
        let mut groups: Vec<Vec<Implicant>> = Vec::new();
        let mut index: usize = 0;
        while index < amount_of_variables + 1
            invariant
                amount_of_variables < usize::MAX,
                index <= amount_of_variables + 1,
                groups@.len() == index,
                forall|k: int| 0 <= k < index ==> (#[trigger] groups@[k])@.len() == 0,
            decreases amount_of_variables + 1 - index,
        {
            groups.push(Vec::new());
            index += 1;
        }
        let structure = GroupStructure { groups, amount_of_groups: amount_of_variables + 1 };
        assert(structure@ =~~= Seq::new(
            (amount_of_variables + 1) as nat,
            |k: int| Seq::<Term>::empty(),
        ));
        structure
    }

    /// The number of variables of the terms that the structure takes.
    pub fn amount_of_variables(&self) -> (n: usize)
        requires
            self.wf(),
        ensures
            n == self.variables(),
    {
        self.amount_of_groups - 1
    }

    /// The groups as they stand, for whoever wants to show them.
    pub fn groups(&self) -> (groups: &Vec<Vec<Implicant>>)
        ensures
            groups@.len() == self@.len(),
            forall|k: int|
                0 <= k < groups@.len() ==> terms_of((#[trigger] groups@[k])@) == self@[k],
            self.wf() ==> forall|k: int|
                0 <= k < groups@.len() ==> group_wf((#[trigger] groups@[k])@),
    {
        &self.groups
    }

    /// Puts a term at the end of the group of its number of true positions.
    pub fn add_implicant(&mut self, implicant: Implicant)
        requires
            old(self).wf(),
            implicant.wf(),
            implicant@.values.len() == old(self).variables(),
        ensures
            final(self).wf(),
            final(self).variables() == old(self).variables(),
            true_count(implicant@.values) < old(self)@.len(),
            final(self)@ == old(self)@.update(
                true_count(implicant@.values) as int,
                old(self)@[true_count(implicant@.values) as int].push(implicant@),
            ),
    {
        proof {
            lemma_count_bound(implicant@.values, LogicLoad::True);
        }
        let index = implicant.amount_of_true_variables();
        let ghost before = self.groups@[index as int]@;
        self.groups[index].push(implicant);
        proof {
            assert(terms_of(before.push(implicant)) =~= terms_of(before).push(implicant@));
            implicant.lemma_wf_named();
            let variables = old(self).variables();
            assert forall|k: int, i: int|
                0 <= k < self@.len() && 0 <= i < self@[k].len() implies fits(
                #[trigger] self@[k][i],
                variables,
                k,
            ) by {
                if k == index && i == before.len() {
                    assert(self@[k][i] == implicant@);
                } else {
                    assert(self@[k][i] == old(self)@[k][i]);
                }
            }
        }
    }

    /// One round of combination. Each term of a group is tried against
    /// every term of the next group; each combination that is new to its
    /// group joins it, and a term that found no partner is carried over
    /// retired. The terms of the last group, which has no successor, are
    /// all carried over retired. Returns whether any combination was found.
    pub fn combination_step(&mut self) -> (found: bool)
        requires
            old(self).wf(),
        ensures
            final(self).wf(),
            final(self).variables() == old(self).variables(),
            final(self)@ == next_groups(old(self)@),
            found == finds_combination(old(self)@),
            !found ==> all_prime(final(self)@),
    {
        let ghost before = self@;
        let last = self.amount_of_groups - 1;
        let mut new_groups: Vec<Vec<Implicant>> = Vec::new();
        let mut found = false;
        let mut k: usize = 0;
        while k < last
            invariant
                self.wf(),
                before == self@,
                last == self.amount_of_groups - 1,
                k <= last,
                new_groups@.len() == k,
                forall|g: int| 0 <= g < k ==> group_wf((#[trigger] new_groups@[g])@),
                forall|g: int|
                    0 <= g < k ==> terms_of((#[trigger] new_groups@[g])@) == next_groups(before)[g],
                found == finds_combination_below(before, k as int),
            decreases last - k,
        {
            assert(group_wf(self.groups@[k as int]@));
            let (new_group, found_here) = merge(&self.groups[k], &self.groups[k + 1]);
            proof {
                assert(before[k as int] == terms_of(self.groups@[k as int]@));
                if found_here {
                    let (i, j) = choose|i: int, j: int|
                        0 <= i < before[k as int].len() && 0 <= j < before[k + 1].len() && (
                        #[trigger] before[k as int][i]).combines(#[trigger] before[k + 1][j]);
                    assert(pair_combines(before, k as int, i, j));
                }
                if finds_combination_below(before, k + 1) && !found {
                    let (g, i, j) = choose|g: int, i: int, j: int|
                        g < k + 1 && #[trigger] pair_combines(before, g, i, j);
                    assert(pair_combines(before, g, i, j));
                    assert(g == k);
                }
            }
            found = found || found_here;
            new_groups.push(new_group);
            k += 1;
        }
        let carried = retire(&self.groups[last]);
        new_groups.push(carried);
        self.groups = new_groups;
        proof {
            lemma_round_well_grouped(before, old(self).variables());
            if !found {
                lemma_stable_round_all_prime(before);
            }
        }
        found
    }

    /// Whether every term is retired, as it is once a round has found no
    /// combination.
    pub fn holds_only_primes(&self) -> (r: bool)
        ensures
            r == all_prime(self@),
    {
        let mut k: usize = 0;
        while k < self.groups.len()
            invariant
                k <= self.groups@.len(),
                forall|g: int, i: int|
                    0 <= g < k && 0 <= i < self@[g].len() ==> (#[trigger] self@[g][i]).prime,
            decreases self.groups@.len() - k,
        {
            let group = &self.groups[k];
            let mut index: usize = 0;
            while index < group.len()
                invariant
                    k < self.groups@.len(),
                    group == &self.groups@[k as int],
                    index <= group@.len(),
                    forall|i: int| 0 <= i < index ==> (#[trigger] self@[k as int][i]).prime,
                decreases group@.len() - index,
            {
                assert(self@[k as int][index as int] == group@[index as int]@);
                if !group[index].is_prime() {
                    return false;
                }
                index += 1;
            }
            k += 1;
        }
        true
    }

    /// Runs rounds of combination until one finds nothing to combine, and
    /// returns how many rounds were run. No more rounds are needed than
    /// there are variables, and one: each round adds a don't-care to every
    /// term that is still to be combined.
    pub fn combine_until_stable(&mut self) -> (count: usize)
        requires
            old(self).wf(),
        ensures
            final(self).wf(),
            final(self).variables() == old(self).variables(),
            is_last_round(old(self)@, count as nat),
            count <= old(self).variables() + 1,
            final(self)@ == rounds(old(self)@, count as nat),
            final(self)@ == settled(old(self)@),
            all_prime(final(self)@),
            forall|minterm: Seq<LogicLoad>|
                covered_by_group(old(self)@, minterm) ==> covered_by_group(
                    final(self)@,
                    minterm,
                ),
    {
        let ghost start = self@;
        let ghost variables = self.variables();
        let mut count: usize = 0;
        loop
            invariant_except_break
                count <= variables,
                forall|r: nat| r < count ==> finds_combination(#[trigger] rounds(start, r)),
            invariant
                self.wf(),
                self.variables() == variables,
                variables + 1 <= usize::MAX,
                self@ == rounds(start, count as nat),
                dashes_at_least(self@, count as nat),
                forall|minterm: Seq<LogicLoad>|
                    covered_by_group(start, minterm) ==> covered_by_group(self@, minterm),
            ensures
                1 <= count <= variables + 1,
                is_last_round(start, count as nat),
                all_prime(self@),
            decreases variables - count,
        {
            let ghost before = self@;
            proof {
                lemma_round_adds_dash(before, variables, count as nat);
                assert forall|minterm: Seq<LogicLoad>|
                    covered_by_group(before, minterm) implies covered_by_group(
                    next_groups(before),
                    minterm,
                ) by {
                    lemma_round_keeps_cover(before, variables, minterm);
                }
            }
            let found = self.combination_step();
            count += 1;
            if !found {
                break ;
            }
            proof {
                if count > variables {
                    lemma_full_dashes_stable(before, variables);
                }
            }
        }
        proof {
            lemma_last_round_unique(start, count as nat);
        }
        count
    }

    /// Takes every term out, group by group and each group from its last
    /// term to its first. The terms must all be retired: they are once a
    /// round has found no combination, and then they are the prime
    /// implicants.
    pub fn extract_primes(&mut self) -> (primes: Vec<Implicant>)
        requires
            old(self).wf(),
            all_prime(old(self)@),
        ensures
            final(self).wf(),
            final(self).variables() == old(self).variables(),
            final(self)@ == Seq::new(old(self)@.len(), |k: int| Seq::<Term>::empty()),
            group_wf(primes@),
            terms_of(primes@) == drained(old(self)@),
    {
        let ghost start = self@;
        let mut primes: Vec<Implicant> = Vec::new();
        let mut k: usize = 0;
        while k < self.groups.len()
            invariant
                self.amount_of_groups == old(self).amount_of_groups,
                self.groups@.len() == old(self).groups@.len(),
                start == old(self)@,
                old(self).wf(),
                k <= self.groups@.len(),
                forall|g: int| 0 <= g < k ==> (#[trigger] self.groups@[g])@.len() == 0,
                forall|g: int|
                    k <= g < self.groups@.len() ==> (#[trigger] self.groups@[g]) == old(
                        self,
                    ).groups@[g],
                group_wf(primes@),
                terms_of(primes@) == drained_below(start, k as nat),
            decreases self.groups@.len() - k,
        {
            let ghost group = self.groups@[k as int]@;
            let ghost base = terms_of(primes@);
            let ghost turned = start[k as int].reverse();
            let ghost mut taken: int = 0;
            while self.groups[k].len() > 0
                invariant
                    self.amount_of_groups == old(self).amount_of_groups,
                    self.groups@.len() == old(self).groups@.len(),
                    k < self.groups@.len(),
                    forall|g: int| 0 <= g < k ==> (#[trigger] self.groups@[g])@.len() == 0,
                    forall|g: int|
                        k < g < self.groups@.len() ==> (#[trigger] self.groups@[g]) == old(
                            self,
                        ).groups@[g],
                    group == old(self).groups@[k as int]@,
                    group_wf(group),
                    start.len() == self.groups@.len(),
                    start[k as int] == terms_of(group),
                    turned == start[k as int].reverse(),
                    0 <= taken <= group.len(),
                    self.groups@[k as int]@ == group.take(group.len() - taken),
                    group_wf(primes@),
                    terms_of(primes@) == base + turned.take(taken),
                decreases group.len() - taken,
            {
                let ghost shorter = primes@;
                let implicant = self.groups[k].pop().unwrap();
                primes.push(implicant);
                proof {
                    assert(terms_of(primes@) =~= terms_of(shorter).push(implicant@));
                    taken = taken + 1;
                }
            }
            k += 1;
        }
        proof {
            assert(self@ =~~= Seq::new(start.len(), |k: int| Seq::<Term>::empty()));
        }
        primes
    }
}

/// Whether the group holds an implicant with the pattern of `implicant`.
fn holds(group: &Vec<Implicant>, implicant: &Implicant) -> (r: bool)
    ensures
        r == holds_pattern(terms_of(group@), implicant@),
{
    let mut index: usize = 0;
    while index < group.len()
        invariant
            index <= group@.len(),
            forall|j: int|
                0 <= j < index ==> !(#[trigger] terms_of(group@)[j]).same_pattern(implicant@),
        decreases group@.len() - index,
    {
        assert(terms_of(group@)[index as int] == group@[index as int]@);
        if group[index] == *implicant {
            return true;
        }
        index += 1;
    }
    false
}

/// The new group that `group` gives against `next`, and whether any of its
/// terms found a partner.
fn merge(group: &Vec<Implicant>, next: &Vec<Implicant>) -> (out: (Vec<Implicant>, bool))
    requires
        group_wf(group@),
    ensures
        group_wf(out.0@),
        terms_of(out.0@) == merge_groups(terms_of(group@), terms_of(next@), group@.len()),
        out.1 == (exists|i: int, j: int|
            0 <= i < group@.len() && 0 <= j < next@.len() && (#[trigger] terms_of(
                group@,
            )[i]).combines(#[trigger] terms_of(next@)[j])),
{
    let ghost lower = terms_of(group@);
    let ghost upper = terms_of(next@);
    let mut new_group: Vec<Implicant> = Vec::new();
    let mut found_some = false;
    let mut i: usize = 0;
    while i < group.len()
        invariant
            group_wf(group@),
            lower == terms_of(group@),
            upper == terms_of(next@),
            i <= group@.len(),
            group_wf(new_group@),
            terms_of(new_group@) == merge_groups(lower, upper, i as nat),
            found_some == (exists|x: int, y: int|
                0 <= x < i && 0 <= y < upper.len() && (#[trigger] lower[x]).combines(
                    #[trigger] upper[y],
                )),
        decreases group@.len() - i,
    {
        let implicant = &group[i];
        let ghost term = lower[i as int];
        let ghost base = terms_of(new_group@);
        let mut found_combinable = false;
        let mut j: usize = 0;
        while j < next.len()
            invariant
                implicant.wf(),
                term == implicant@,
                upper == terms_of(next@),
                j <= next@.len(),
                group_wf(new_group@),
                terms_of(new_group@) == absorb(base, term, upper, j as nat),
                found_combinable == has_partner_below(term, upper, j as int),
            decreases next@.len() - j,
        {
            let candidate = &next[j];
            assert(upper[j as int] == candidate@);
            if implicant.check_if_combines(candidate) {
                found_combinable = true;
                let new_implicant = Implicant::from_implicants(implicant, candidate);
                if !holds(&new_group, &new_implicant) {
                    let ghost shorter = new_group@;
                    new_group.push(new_implicant);
                    assert(terms_of(new_group@) =~= terms_of(shorter).push(new_implicant@));
                }
            }
            j += 1;
        }
        if !found_combinable {
            let mut prime_marked_clone = implicant.clone();
            prime_marked_clone.mark_as_prime();
            let ghost shorter = new_group@;
            new_group.push(prime_marked_clone);
            proof {
                lemma_absorb_without_partner(base, term, upper, upper.len());
                assert(terms_of(new_group@) =~= terms_of(shorter).push(term.retired()));
            }
        } else {
            found_some = true;
            proof {
                let y = choose|y: int| 0 <= y < upper.len() && term.combines(#[trigger] upper[y]);
                assert(lower[i as int].combines(upper[y]));
            }
        }
        i += 1;
    }
    (new_group, found_some)
}

/// A copy of the group in which every implicant is retired.
fn retire(group: &Vec<Implicant>) -> (carried: Vec<Implicant>)
    requires
        group_wf(group@),
    ensures
        group_wf(carried@),
        terms_of(carried@) == retire_all(terms_of(group@)),
{
    let mut carried: Vec<Implicant> = Vec::new();
    let mut index: usize = 0;
    while index < group.len()
        invariant
            group_wf(group@),
            index <= group@.len(),
            carried@.len() == index,
            group_wf(carried@),
            forall|i: int| 0 <= i < index ==> (#[trigger] carried@[i])@ == group@[i]@.retired(),
        decreases group@.len() - index,
    {
        let mut prime_marked_clone = group[index].clone();
        prime_marked_clone.mark_as_prime();
        carried.push(prime_marked_clone);
        index += 1;
    }
    carried
}

} // verus!

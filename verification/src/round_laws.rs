//! What rounds of combination keep and what they change: the laws of
//! grouping.
use crate::groups_structure::{
    absorb, all_implied, all_prime, covered_by_group, covered_by_term, dashes_at_least, drained,
    drained_below, finds_combination, fits, has_partner, has_partner_below, holds_pattern,
    implied, is_last_round, merge_groups, next_groups, pair_combines, rounds, settled,
    well_grouped,
};
use crate::implicant::{LogicLoad, Term};
use crate::pattern::{
    dash_count, is_minterm, lemma_agree_equal, lemma_count_bound, lemma_full_count,
    lemma_merged_counts, lemma_merged_covers, lemma_merged_covers_either, pattern_covers,
};
use vstd::prelude::*;

verus! {

/// A term without a partner among the first `j` terms of the next group
/// leaves the new group as it was.
pub proof fn lemma_absorb_without_partner(acc: Seq<Term>, term: Term, next: Seq<Term>, j: nat)
    requires
        j <= next.len(),
        !has_partner_below(term, next, j as int),
    ensures
        absorb(acc, term, next, j) == acc,
    decreases j,
{
    if j > 0 {
        lemma_absorb_without_partner(acc, term, next, (j - 1) as nat);
    }
}

/// Trying a term against the next group only ever adds to the new group.
pub proof fn lemma_absorb_extends(acc: Seq<Term>, term: Term, next: Seq<Term>, j: nat)
    ensures
        acc.len() <= absorb(acc, term, next, j).len(),
        forall|z: int| 0 <= z < acc.len() ==> absorb(acc, term, next, j)[z] == acc[z],
    decreases j,
{
    if j > 0 {
        lemma_absorb_extends(acc, term, next, (j - 1) as nat);
    }
}

/// What trying a term against the next group adds to the new group is a
/// combination of that term with a term of the next group.
pub proof fn lemma_absorb_origin(acc: Seq<Term>, term: Term, next: Seq<Term>, j: nat, z: int)
    requires
        j <= next.len(),
        acc.len() <= z < absorb(acc, term, next, j).len(),
    ensures
        exists|y: int|
            0 <= y < j && term.combines(#[trigger] next[y]) && absorb(acc, term, next, j)[z]
                == term.combined(next[y]),
    decreases j,
{
    if j > 0 {
        let before = absorb(acc, term, next, (j - 1) as nat);
        if z < before.len() {
            lemma_absorb_origin(acc, term, next, (j - 1) as nat, z);
            let y = choose|y: int|
                0 <= y < j - 1 && term.combines(#[trigger] next[y]) && before[z] == term.combined(
                    next[y],
                );
            assert(term.combines(next[y]) && absorb(acc, term, next, j)[z] == term.combined(
                next[y],
            ));
        } else {
            assert(term.combines(next[j - 1]) && absorb(acc, term, next, j)[z] == term.combined(
                next[j - 1],
            ));
        }
    }
}

/// Each combination of a term with one of the first `j` terms of the next
/// group has its pattern in the new group afterwards.
pub proof fn lemma_absorb_holds(acc: Seq<Term>, term: Term, next: Seq<Term>, j: nat, y: int)
    requires
        0 <= y < j <= next.len(),
        term.combines(next[y]),
    ensures
        holds_pattern(absorb(acc, term, next, j), term.combined(next[y])),
    decreases j,
{
    let before = absorb(acc, term, next, (j - 1) as nat);
    let after = absorb(acc, term, next, j);
    let wanted = term.combined(next[y]);
    if y == j - 1 {
        if !holds_pattern(before, wanted) {
            assert(after[before.len() as int].same_pattern(wanted));
        }
    } else {
        lemma_absorb_holds(acc, term, next, (j - 1) as nat, y);
        let w = choose|w: int| 0 <= w < before.len() && (#[trigger] before[w]).same_pattern(wanted);
        assert(after[w] == before[w]);
    }
}

/// No combination stands in the group behind a term of its own pattern:
/// each term that is not retired differs in pattern from every term
/// before it.
pub open spec fn combinations_are_new(group: Seq<Term>) -> bool {
    forall|earlier: int, later: int|
        0 <= earlier < later < group.len() && !(#[trigger] group[later]).prime ==> !(
        #[trigger] group[earlier]).same_pattern(group[later])
}

/// Trying a term against the next group adds no combination whose pattern
/// the new group already holds.
pub proof fn lemma_absorb_adds_new(acc: Seq<Term>, term: Term, next: Seq<Term>, j: nat)
    requires
        combinations_are_new(acc),
    ensures
        combinations_are_new(absorb(acc, term, next, j)),
    decreases j,
{
    if j > 0 {
        let before = absorb(acc, term, next, (j - 1) as nat);
        let after = absorb(acc, term, next, j);
        lemma_absorb_adds_new(acc, term, next, (j - 1) as nat);
        assert forall|earlier: int, later: int|
            0 <= earlier < later < after.len() && !(#[trigger] after[later]).prime implies !(
        #[trigger] after[earlier]).same_pattern(after[later]) by {
            if later < before.len() {
                assert(!before[earlier].same_pattern(before[later]));
            } else {
                assert(before[earlier] == after[earlier]);
            }
        }
    }
}

/// A new group holds each combination once: a combination whose pattern
/// the group already held did not join it.
pub proof fn lemma_merge_adds_new(group: Seq<Term>, next: Seq<Term>, i: nat)
    ensures
        combinations_are_new(merge_groups(group, next, i)),
    decreases i,
{
    if i > 0 {
        let before = merge_groups(group, next, (i - 1) as nat);
        lemma_merge_adds_new(group, next, (i - 1) as nat);
        if has_partner(group[i - 1], next) {
            lemma_absorb_adds_new(before, group[i - 1], next, next.len());
        } else {
            let after = merge_groups(group, next, i);
            assert forall|earlier: int, later: int|
                0 <= earlier < later < after.len() && !(#[trigger] after[later]).prime implies !(
            #[trigger] after[earlier]).same_pattern(after[later]) by {
                assert(!before[earlier].same_pattern(before[later]));
            }
        }
    }
}

/// `term` is one of the first `i` terms of `group`, retired for want of a
/// partner in `next`.
pub open spec fn carried_from(term: Term, group: Seq<Term>, next: Seq<Term>, i: int) -> bool {
    exists|x: int|
        0 <= x < i && x < group.len() && !has_partner(#[trigger] group[x], next) && term
            == group[x].retired()
}

/// `term` is the combination of one of the first `i` terms of `group` with
/// a term of `next`.
pub open spec fn combined_from(term: Term, group: Seq<Term>, next: Seq<Term>, i: int) -> bool {
    exists|x: int, y: int|
        0 <= x < i && x < group.len() && 0 <= y < next.len() && (#[trigger] group[x]).combines(
            #[trigger] next[y],
        ) && term == group[x].combined(next[y])
}

/// Giving one more term its turn only ever adds to the new group.
pub proof fn lemma_merge_extends(group: Seq<Term>, next: Seq<Term>, i: nat, more: nat)
    requires
        i <= more,
    ensures
        merge_groups(group, next, i).len() <= merge_groups(group, next, more).len(),
        forall|z: int|
            0 <= z < merge_groups(group, next, i).len() ==> merge_groups(group, next, more)[z]
                == merge_groups(group, next, i)[z],
    decreases more - i,
{
    if i < more {
        lemma_merge_extends(group, next, i, (more - 1) as nat);
        lemma_absorb_extends(
            merge_groups(group, next, (more - 1) as nat),
            group[more - 1],
            next,
            next.len(),
        );
    }
}

/// Every term of a new group is either a term of the old group that found
/// no partner, retired, or the combination of a term of the old group with
/// a term of the next.
pub proof fn lemma_merge_origin(group: Seq<Term>, next: Seq<Term>, i: nat, z: int)
    requires
        i <= group.len(),
        0 <= z < merge_groups(group, next, i).len(),
    ensures
        carried_from(merge_groups(group, next, i)[z], group, next, i as int) || combined_from(
            merge_groups(group, next, i)[z],
            group,
            next,
            i as int,
        ),
    decreases i,
{
    if i > 0 {
        let before = merge_groups(group, next, (i - 1) as nat);
        let after = merge_groups(group, next, i);
        let term = group[i - 1];
        lemma_merge_extends(group, next, (i - 1) as nat, i);
        if z < before.len() {
            lemma_merge_origin(group, next, (i - 1) as nat, z);
            if carried_from(before[z], group, next, i - 1) {
                let x = choose|x: int|
                    0 <= x < i - 1 && x < group.len() && !has_partner(#[trigger] group[x], next)
                        && before[z] == group[x].retired();
                assert(!has_partner(group[x], next) && after[z] == group[x].retired());
            } else {
                let (x, y) = choose|x: int, y: int|
                    0 <= x < i - 1 && x < group.len() && 0 <= y < next.len() && (
                    #[trigger] group[x]).combines(#[trigger] next[y]) && before[z]
                        == group[x].combined(next[y]);
                assert(group[x].combines(next[y]) && after[z] == group[x].combined(next[y]));
            }
        } else if has_partner(term, next) {
            lemma_absorb_origin(before, term, next, next.len(), z);
            let y = choose|y: int|
                0 <= y < next.len() && term.combines(#[trigger] next[y]) && after[z]
                    == term.combined(next[y]);
            assert(group[i - 1].combines(next[y]) && after[z] == group[i - 1].combined(next[y]));
        } else {
            assert(!has_partner(group[i - 1], next) && after[z] == group[i - 1].retired());
        }
    }
}

/// A round keeps the groups well grouped.
pub proof fn lemma_round_well_grouped(groups: Seq<Seq<Term>>, variables: nat)
    requires
        well_grouped(groups, variables),
    ensures
        well_grouped(next_groups(groups), variables),
{
    let after = next_groups(groups);
    assert forall|k: int, z: int| 0 <= k < after.len() && 0 <= z < after[k].len() implies fits(
        #[trigger] after[k][z],
        variables,
        k,
    ) by {
        if k + 1 < groups.len() {
            let group = groups[k];
            let next = groups[k + 1];
            lemma_merge_origin(group, next, group.len(), z);
            if carried_from(after[k][z], group, next, group.len() as int) {
                let x = choose|x: int|
                    0 <= x < group.len() && !has_partner(#[trigger] group[x], next) && after[k][z]
                        == group[x].retired();
                assert(fits(groups[k][x], variables, k));
            } else {
                let (x, y) = choose|x: int, y: int|
                    0 <= x < group.len() && 0 <= y < next.len() && (#[trigger] group[x]).combines(
                        #[trigger] next[y],
                    ) && after[k][z] == group[x].combined(next[y]);
                lemma_merged_counts(group[x].values, next[y].values);
            }
        } else {
            assert(fits(groups[k][z], variables, k));
        }
    }
}

/// A round that finds no combination leaves every term retired.
pub proof fn lemma_stable_round_all_prime(groups: Seq<Seq<Term>>)
    requires
        !finds_combination(groups),
    ensures
        all_prime(next_groups(groups)),
{
    let after = next_groups(groups);
    assert forall|k: int, z: int| 0 <= k < after.len() && 0 <= z < after[k].len() implies (
    #[trigger] after[k][z]).prime by {
        if k + 1 < groups.len() {
            let group = groups[k];
            let next = groups[k + 1];
            lemma_merge_origin(group, next, group.len(), z);
            if combined_from(after[k][z], group, next, group.len() as int) {
                let (x, y) = choose|x: int, y: int|
                    0 <= x < group.len() && 0 <= y < next.len() && (#[trigger] group[x]).combines(
                        #[trigger] next[y],
                    ) && after[k][z] == group[x].combined(next[y]);
                assert(pair_combines(groups, k, x, y));
            }
        }
    }
}

/// Each of the first `i` terms of a group leaves its trace in the new
/// group: itself, retired, where it found no partner, and else the pattern
/// of each of its combinations.
pub proof fn lemma_merge_keeps(group: Seq<Term>, next: Seq<Term>, i: nat, x: int)
    requires
        0 <= x < i <= group.len(),
    ensures
        !has_partner(group[x], next) ==> exists|z: int|
            0 <= z < merge_groups(group, next, i).len() && #[trigger] merge_groups(
                group,
                next,
                i,
            )[z] == group[x].retired(),
        forall|y: int|
            0 <= y < next.len() && group[x].combines(#[trigger] next[y]) ==> holds_pattern(
                merge_groups(group, next, i),
                group[x].combined(next[y]),
            ),
{
    let before = merge_groups(group, next, x as nat);
    let turn = merge_groups(group, next, (x + 1) as nat);
    let after = merge_groups(group, next, i);
    let term = group[x];
    lemma_merge_extends(group, next, (x + 1) as nat, i);
    if !has_partner(term, next) {
        assert(turn[before.len() as int] == term.retired());
    }
    assert forall|y: int|
        0 <= y < next.len() && term.combines(#[trigger] next[y]) implies holds_pattern(
        after,
        term.combined(next[y]),
    ) by {
        lemma_absorb_holds(before, term, next, next.len(), y);
        let wanted = term.combined(next[y]);
        let w = choose|w: int| 0 <= w < turn.len() && (#[trigger] turn[w]).same_pattern(wanted);
        assert(after[w] == turn[w]);
    }
}

/// What the terms cover before a round, they cover after it.
pub proof fn lemma_round_keeps_cover(
    groups: Seq<Seq<Term>>,
    variables: nat,
    minterm: Seq<LogicLoad>,
)
    requires
        well_grouped(groups, variables),
        covered_by_group(groups, minterm),
    ensures
        covered_by_group(next_groups(groups), minterm),
{
    let after = next_groups(groups);
    let (k, x) = choose|k: int, x: int|
        0 <= k < groups.len() && 0 <= x < groups[k].len() && pattern_covers(
            (#[trigger] groups[k][x]).values,
            minterm,
        );
    let term = groups[k][x];
    if k + 1 < groups.len() {
        let group = groups[k];
        let next = groups[k + 1];
        lemma_merge_keeps(group, next, group.len(), x);
        if has_partner(term, next) {
            let y = choose|y: int| 0 <= y < next.len() && term.combines(#[trigger] next[y]);
            let wanted = term.combined(next[y]);
            let w = choose|w: int|
                0 <= w < after[k].len() && (#[trigger] after[k][w]).same_pattern(wanted);
            lemma_round_well_grouped(groups, variables);
            assert(fits(after[k][w], variables, k));
            assert(fits(groups[k][x], variables, k));
            assert(fits(groups[k + 1][y], variables, k + 1));
            lemma_agree_equal(after[k][w].values, wanted.values);
            lemma_merged_covers(term.values, next[y].values, minterm);
            assert(pattern_covers(after[k][w].values, minterm));
        } else {
            let z = choose|z: int|
                0 <= z < after[k].len() && #[trigger] merge_groups(group, next, group.len())[z]
                    == term.retired();
            assert(pattern_covers(after[k][z].values, minterm));
        }
    } else {
        assert(pattern_covers(after[k][x].values, minterm));
    }
}

/// Against whatever group, a group of retired terms gives itself: its
/// first `i` terms give its first `i` terms.
pub proof fn lemma_merge_of_retired(group: Seq<Term>, next: Seq<Term>, i: nat)
    requires
        i <= group.len(),
        forall|x: int| 0 <= x < group.len() ==> (#[trigger] group[x]).prime,
    ensures
        merge_groups(group, next, i) == group.take(i as int),
    decreases i,
{
    if i > 0 {
        lemma_merge_of_retired(group, next, (i - 1) as nat);
    } else {
        assert(group.take(0) =~= Seq::<Term>::empty());
    }
}

/// Rest is final: once every term is retired, a round finds nothing to
/// combine and leaves the groups as they are.
pub proof fn lemma_rest_is_final(groups: Seq<Seq<Term>>)
    requires
        all_prime(groups),
    ensures
        !finds_combination(groups),
        next_groups(groups) == groups,
{
    if finds_combination(groups) {
        let (k, i, j) = choose|k: int, i: int, j: int|
            k < groups.len() && #[trigger] pair_combines(groups, k, i, j);
        assert(groups[k][i].prime);
    }
    let after = next_groups(groups);
    assert forall|k: int| 0 <= k < groups.len() implies #[trigger] after[k] == groups[k] by {
        let group = groups[k];
        if k + 1 < groups.len() {
            lemma_merge_of_retired(group, groups[k + 1], group.len());
        } else {
            assert forall|x: int| 0 <= x < group.len() implies group[x].retired() == group[x] by {
                assert(groups[k][x].prime);
            }
        }
    }
}

/// Each round adds a don't-care to every term that is not retired.
pub proof fn lemma_round_adds_dash(groups: Seq<Seq<Term>>, variables: nat, least: nat)
    requires
        well_grouped(groups, variables),
        dashes_at_least(groups, least),
    ensures
        dashes_at_least(next_groups(groups), least + 1),
{
    let after = next_groups(groups);
    assert forall|k: int, z: int|
        0 <= k < after.len() && 0 <= z < after[k].len() && !(
        #[trigger] after[k][z]).prime implies dash_count(after[k][z].values) >= least + 1 by {
        if k + 1 < groups.len() {
            let group = groups[k];
            let next = groups[k + 1];
            lemma_merge_origin(group, next, group.len(), z);
            let (x, y) = choose|x: int, y: int|
                0 <= x < group.len() && 0 <= y < next.len() && (#[trigger] group[x]).combines(
                    #[trigger] next[y],
                ) && after[k][z] == group[x].combined(next[y]);
            lemma_merged_counts(group[x].values, next[y].values);
        }
    }
}

/// Where every term that is not retired cares about no variable at all,
/// nothing combines.
pub proof fn lemma_full_dashes_stable(groups: Seq<Seq<Term>>, variables: nat)
    requires
        well_grouped(groups, variables),
        dashes_at_least(groups, variables),
    ensures
        !finds_combination(groups),
{
    if finds_combination(groups) {
        let (k, i, j) = choose|k: int, i: int, j: int|
            k < groups.len() && #[trigger] pair_combines(groups, k, i, j);
        let term = groups[k][i];
        lemma_count_bound(term.values, LogicLoad::DontMatter);
        lemma_full_count(term.values, LogicLoad::DontMatter);
    }
}

/// After `n` rounds the groups are still well grouped, and every term
/// that is not retired has at least `n` don't-cares.
pub proof fn lemma_rounds_add_dashes(groups: Seq<Seq<Term>>, variables: nat, n: nat)
    requires
        well_grouped(groups, variables),
    ensures
        well_grouped(rounds(groups, n), variables),
        dashes_at_least(rounds(groups, n), n),
    decreases n,
{
    if n > 0 {
        lemma_rounds_add_dashes(groups, variables, (n - 1) as nat);
        lemma_round_well_grouped(rounds(groups, (n - 1) as nat), variables);
        lemma_round_adds_dash(rounds(groups, (n - 1) as nat), variables, (n - 1) as nat);
    }
}

/// Grouping comes to rest within as many rounds as there are variables,
/// and one: after as many rounds as there are variables, the next finds
/// nothing to combine.
pub proof fn lemma_stable_within(groups: Seq<Seq<Term>>, variables: nat)
    requires
        well_grouped(groups, variables),
    ensures
        !finds_combination(rounds(groups, variables)),
        exists|n: nat| n <= variables + 1 && is_last_round(groups, n),
{
    lemma_rounds_add_dashes(groups, variables, variables);
    lemma_full_dashes_stable(rounds(groups, variables), variables);
    lemma_first_stable(groups, variables);
}

/// Where the round after the first `n` finds no combination, one of the
/// rounds up to it is the last.
proof fn lemma_first_stable(groups: Seq<Seq<Term>>, n: nat)
    requires
        !finds_combination(rounds(groups, n)),
    ensures
        exists|c: nat| c <= n + 1 && is_last_round(groups, c),
    decreases n,
{
    if forall|r: nat| r < n ==> finds_combination(#[trigger] rounds(groups, r)) {
        assert(is_last_round(groups, n + 1));
    } else {
        let r = choose|r: nat| r < n && !finds_combination(#[trigger] rounds(groups, r));
        lemma_first_stable(groups, r);
    }
}

/// Only one round is the first to find no combination.
pub proof fn lemma_last_round_unique(groups: Seq<Seq<Term>>, n: nat)
    requires
        is_last_round(groups, n),
    ensures
        (choose|c: nat| is_last_round(groups, c)) == n,
        settled(groups) == rounds(groups, n),
{
    let c = choose|c: nat| is_last_round(groups, c);
    if c < n {
        assert(finds_combination(rounds(groups, (c - 1) as nat)));
    }
    if n < c {
        assert(finds_combination(rounds(groups, (n - 1) as nat)));
    }
}

/// Every term of the first `n` groups is among the terms drained from
/// them.
pub proof fn lemma_drained_holds(groups: Seq<Seq<Term>>, n: nat, k: int, i: int)
    requires
        0 <= k < n <= groups.len(),
        0 <= i < groups[k].len(),
    ensures
        exists|z: int|
            0 <= z < drained_below(groups, n).len() && #[trigger] drained_below(groups, n)[z]
                == groups[k][i],
    decreases n,
{
    let before = drained_below(groups, (n - 1) as nat);
    let after = drained_below(groups, n);
    let turned = groups[n - 1].reverse();
    if k == n - 1 {
        let z = before.len() + groups[k].len() - 1 - i;
        assert(turned[groups[k].len() - 1 - i] == groups[k][i]);
        assert(after[z] == groups[k][i]);
    } else {
        lemma_drained_holds(groups, (n - 1) as nat, k, i);
        let z = choose|z: int| 0 <= z < before.len() && #[trigger] before[z] == groups[k][i];
        assert(after[z] == groups[k][i]);
    }
}

/// Every term drained from the first `n` groups is a term of one of them.
pub proof fn lemma_drained_origin(groups: Seq<Seq<Term>>, n: nat, z: int)
    requires
        n <= groups.len(),
        0 <= z < drained_below(groups, n).len(),
    ensures
        exists|k: int, i: int|
            0 <= k < n && 0 <= i < groups[k].len() && drained_below(groups, n)[z]
                == #[trigger] groups[k][i],
    decreases n,
{
    if n > 0 {
        let before = drained_below(groups, (n - 1) as nat);
        let turned = groups[n - 1].reverse();
        if z < before.len() {
            lemma_drained_origin(groups, (n - 1) as nat, z);
            let (k, i) = choose|k: int, i: int|
                0 <= k < n - 1 && 0 <= i < groups[k].len() && before[z] == #[trigger] groups[k][i];
            assert(drained_below(groups, n)[z] == groups[k][i]);
        } else {
            let i = groups[n - 1].len() - 1 - (z - before.len());
            assert(turned[z - before.len()] == groups[n - 1][i]);
        }
    }
}

/// What the groups cover, the terms drained from them cover.
pub proof fn lemma_drained_keeps_cover(groups: Seq<Seq<Term>>, minterm: Seq<LogicLoad>)
    requires
        covered_by_group(groups, minterm),
    ensures
        covered_by_term(drained(groups), minterm),
{
    let (k, i) = choose|k: int, i: int|
        0 <= k < groups.len() && 0 <= i < groups[k].len() && pattern_covers(
            (#[trigger] groups[k][i]).values,
            minterm,
        );
    lemma_drained_holds(groups, groups.len(), k, i);
    let z = choose|z: int|
        0 <= z < drained(groups).len() && #[trigger] drained_below(groups, groups.len())[z]
            == groups[k][i];
    assert(pattern_covers(drained(groups)[z].values, minterm));
}

/// A round makes no term stand for a row that no term stood for before.
pub proof fn lemma_round_keeps_implied(
    groups: Seq<Seq<Term>>,
    variables: nat,
    truths: Seq<Seq<LogicLoad>>,
)
    requires
        well_grouped(groups, variables),
        all_implied(groups, truths),
    ensures
        all_implied(next_groups(groups), truths),
{
    let after = next_groups(groups);
    assert forall|k: int, z: int| 0 <= k < after.len() && 0 <= z < after[k].len() implies implied(
        (#[trigger] after[k][z]).values,
        truths,
    ) by {
        if k + 1 < groups.len() {
            let group = groups[k];
            let next = groups[k + 1];
            lemma_merge_origin(group, next, group.len(), z);
            if carried_from(after[k][z], group, next, group.len() as int) {
                let x = choose|x: int|
                    0 <= x < group.len() && !has_partner(#[trigger] group[x], next) && after[k][z]
                        == group[x].retired();
                assert(implied(groups[k][x].values, truths));
            } else {
                let (x, y) = choose|x: int, y: int|
                    0 <= x < group.len() && 0 <= y < next.len() && (#[trigger] group[x]).combines(
                        #[trigger] next[y],
                    ) && after[k][z] == group[x].combined(next[y]);
                let a = group[x].values;
                let b = next[y].values;
                assert(fits(groups[k][x], variables, k));
                assert(fits(groups[k + 1][y], variables, k + 1));
                assert(implied(groups[k][x].values, truths));
                assert(implied(groups[k + 1][y].values, truths));
                let both = after[k][z].values;
                assert forall|row: Seq<LogicLoad>|
                    #![trigger pattern_covers(both, row)]
                    row.len() == both.len() && is_minterm(row) && pattern_covers(
                        both,
                        row,
                    ) implies truths.contains(row) by {
                    lemma_merged_covers_either(a, b, row);
                }
            }
        } else {
            assert(implied(groups[k][z].values, truths));
        }
    }
}

/// However many rounds are run, no term comes to stand for a row that no
/// term stood for at the start, and what was covered stays covered.
pub proof fn lemma_rounds_keep_meaning(
    groups: Seq<Seq<Term>>,
    variables: nat,
    truths: Seq<Seq<LogicLoad>>,
    n: nat,
)
    requires
        well_grouped(groups, variables),
        all_implied(groups, truths),
    ensures
        well_grouped(rounds(groups, n), variables),
        all_implied(rounds(groups, n), truths),
        forall|minterm: Seq<LogicLoad>|
            covered_by_group(groups, minterm) ==> covered_by_group(rounds(groups, n), minterm),
    decreases n,
{
    if n > 0 {
        let before = rounds(groups, (n - 1) as nat);
        lemma_rounds_keep_meaning(groups, variables, truths, (n - 1) as nat);
        lemma_round_well_grouped(before, variables);
        lemma_round_keeps_implied(before, variables, truths);
        assert forall|minterm: Seq<LogicLoad>|
            covered_by_group(groups, minterm) implies covered_by_group(
            rounds(groups, n),
            minterm,
        ) by {
            lemma_round_keeps_cover(before, variables, minterm);
        }
    }
}

/// The terms drained from groups that stand for rows of `truths` only
/// stand for rows of `truths` only.
pub proof fn lemma_drained_keeps_implied(groups: Seq<Seq<Term>>, truths: Seq<Seq<LogicLoad>>)
    requires
        all_implied(groups, truths),
    ensures
        forall|z: int|
            0 <= z < drained(groups).len() ==> implied(
                (#[trigger] drained(groups)[z]).values,
                truths,
            ),
{
    assert forall|z: int| 0 <= z < drained(groups).len() implies implied(
        (#[trigger] drained(groups)[z]).values,
        truths,
    ) by {
        lemma_drained_origin(groups, groups.len(), z);
        let (k, i) = choose|k: int, i: int|
            0 <= k < groups.len() && 0 <= i < groups[k].len() && drained_below(
                groups,
                groups.len(),
            )[z] == #[trigger] groups[k][i];
        assert(implied(groups[k][i].values, truths));
    }
}

} // verus!

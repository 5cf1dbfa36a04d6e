//! Patterns: one load for each variable, and the rules by which two
//! patterns are adjacent, merge, and cover one another.
use crate::implicant::LogicLoad;
use vstd::prelude::*;

verus! {

/// The number of positions that two patterns have in common.
pub open spec fn overlap(a: Seq<LogicLoad>, b: Seq<LogicLoad>) -> int {
    if a.len() <= b.len() {
        a.len() as int
    } else {
        b.len() as int
    }
}

/// The two patterns hold the same load at every common position.
pub open spec fn agree(a: Seq<LogicLoad>, b: Seq<LogicLoad>) -> bool {
    forall|i: int| 0 <= i < overlap(a, b) ==> a[i] == b[i]
}

/// Position `i` is the one and only common position at which the two
/// patterns differ.
pub open spec fn sole_difference(a: Seq<LogicLoad>, b: Seq<LogicLoad>, i: int) -> bool {
    &&& 0 <= i < overlap(a, b)
    &&& a[i] != b[i]
    &&& forall|j: int| 0 <= j < overlap(a, b) && j != i ==> a[j] == b[j]
}

/// The two patterns differ at exactly one common position, and there one
/// holds true and the other false.
pub open spec fn adjacent(a: Seq<LogicLoad>, b: Seq<LogicLoad>) -> bool {
    exists|i: int|
        #![trigger sole_difference(a, b, i)]
        sole_difference(a, b, i) && !(a[i] is DontMatter) && !(b[i] is DontMatter)
}

/// The pattern that keeps what two patterns agree on and does not care
/// about the rest.
pub open spec fn merged(a: Seq<LogicLoad>, b: Seq<LogicLoad>) -> Seq<LogicLoad> {
    Seq::new(
        overlap(a, b) as nat,
        |i: int|
            if a[i] == b[i] {
                a[i]
            } else {
                LogicLoad::DontMatter
            },
    )
}

/// At every common position the first pattern either does not care or
/// holds what the second holds.
pub open spec fn pattern_covers(a: Seq<LogicLoad>, b: Seq<LogicLoad>) -> bool {
    forall|i: int| 0 <= i < overlap(a, b) ==> (a[i] is DontMatter || a[i] == b[i])
}

/// How many positions of the pattern hold `load`.
pub open spec fn count_of(a: Seq<LogicLoad>, load: LogicLoad) -> nat
    decreases a.len(),
{
    if a.len() == 0 {
        0
    } else {
        count_of(a.drop_last(), load) + if a.last() == load {
            1nat
        } else {
            0nat
        }
    }
}

/// How many positions of the pattern are true.
pub open spec fn true_count(a: Seq<LogicLoad>) -> nat {
    count_of(a, LogicLoad::True)
}

/// How many positions of the pattern do not matter.
pub open spec fn dash_count(a: Seq<LogicLoad>) -> nat {
    count_of(a, LogicLoad::DontMatter)
}

/// No position of the pattern is a don't-care: it stands for one row.
pub open spec fn is_minterm(a: Seq<LogicLoad>) -> bool {
    forall|i: int| 0 <= i < a.len() ==> !(a[i] is DontMatter)
}

/// The row that a pattern without don't-care positions stands for.
pub open spec fn pattern_row(a: Seq<LogicLoad>) -> Seq<bool> {
    Seq::new(a.len(), |i: int| a[i] is True)
}

/// The pattern of a truth-table row.
pub open spec fn row_pattern(row: Seq<bool>) -> Seq<LogicLoad> {
    Seq::new(row.len(), |i: int| LogicLoad::of_bit(row[i]))
}

/// No load is counted more often than the pattern has positions.
pub proof fn lemma_count_bound(a: Seq<LogicLoad>, load: LogicLoad)
    ensures
        count_of(a, load) <= a.len(),
    decreases a.len(),
{
    if a.len() > 0 {
        lemma_count_bound(a.drop_last(), load);
    }
}

/// Changing one position changes each count by what leaves and what
/// comes.
pub proof fn lemma_count_update(a: Seq<LogicLoad>, i: int, value: LogicLoad, load: LogicLoad)
    requires
        0 <= i < a.len(),
    ensures
        count_of(a.update(i, value), load) + (if a[i] == load {
            1nat
        } else {
            0nat
        }) == count_of(a, load) + (if value == load {
            1nat
        } else {
            0nat
        }),
    decreases a.len(),
{
    if i == a.len() - 1 {
        assert(a.update(i, value).drop_last() =~= a.drop_last());
    } else {
        assert(a.update(i, value).drop_last() =~= a.drop_last().update(i, value));
        lemma_count_update(a.drop_last(), i, value, load);
    }
}

/// A pattern counts as many of a load as it has positions exactly when
/// every one of its positions holds that load.
pub proof fn lemma_full_count(a: Seq<LogicLoad>, load: LogicLoad)
    ensures
        count_of(a, load) == a.len() <==> (forall|i: int| 0 <= i < a.len() ==> a[i] == load),
    decreases a.len(),
{
    if a.len() > 0 {
        lemma_full_count(a.drop_last(), load);
        lemma_count_bound(a.drop_last(), load);
        if count_of(a, load) == a.len() {
            assert forall|i: int| 0 <= i < a.len() implies a[i] == load by {
                if i < a.len() - 1 {
                    assert(a.drop_last()[i] == a[i]);
                }
            }
        }
        if forall|i: int| 0 <= i < a.len() ==> a[i] == load {
            assert forall|i: int| 0 <= i < a.drop_last().len() implies a.drop_last()[i]
                == load by {
                assert(a.drop_last()[i] == a[i]);
            }
        }
    }
}

/// Where two patterns differ at one position only, their merge does not
/// care about that position and holds at every other what both hold.
pub proof fn lemma_merged_at_sole_difference(a: Seq<LogicLoad>, b: Seq<LogicLoad>, i: int)
    requires
        sole_difference(a, b, i),
    ensures
        merged(a, b).len() == overlap(a, b),
        merged(a, b)[i] is DontMatter,
        forall|j: int|
            0 <= j < overlap(a, b) && j != i ==> merged(a, b)[j] == a[j] && merged(a, b)[j]
                == b[j],
{
}

/// Where two patterns of one length differ at one position only, merging
/// them is the same as not caring about that position in either.
pub proof fn lemma_merged_is_update(a: Seq<LogicLoad>, b: Seq<LogicLoad>, i: int)
    requires
        a.len() == b.len(),
        sole_difference(a, b, i),
    ensures
        merged(a, b) == a.update(i, LogicLoad::DontMatter),
        merged(a, b) == b.update(i, LogicLoad::DontMatter),
{
    assert(merged(a, b) =~= a.update(i, LogicLoad::DontMatter));
}

/// Merging two adjacent patterns of one length adds one don't-care and
/// keeps the smaller of the two numbers of true positions, which differ
/// by one.
pub proof fn lemma_merged_counts(a: Seq<LogicLoad>, b: Seq<LogicLoad>)
    requires
        a.len() == b.len(),
        adjacent(a, b),
    ensures
        merged(a, b).len() == a.len(),
        dash_count(merged(a, b)) == dash_count(a) + 1,
        dash_count(merged(a, b)) == dash_count(b) + 1,
        true_count(a) + true_count(b) == 2 * true_count(merged(a, b)) + 1,
        true_count(merged(a, b)) <= true_count(a),
        true_count(merged(a, b)) <= true_count(b),
{
    let i = choose|i: int|
        #![trigger sole_difference(a, b, i)]
        sole_difference(a, b, i) && !(a[i] is DontMatter) && !(b[i] is DontMatter);
    lemma_merged_is_update(a, b, i);
    lemma_count_update(a, i, LogicLoad::DontMatter, LogicLoad::DontMatter);
    lemma_count_update(b, i, LogicLoad::DontMatter, LogicLoad::DontMatter);
    lemma_count_update(a, i, LogicLoad::DontMatter, LogicLoad::True);
    lemma_count_update(b, i, LogicLoad::DontMatter, LogicLoad::True);
}

/// What either of two patterns covers, their merge covers too.
pub proof fn lemma_merged_covers(a: Seq<LogicLoad>, b: Seq<LogicLoad>, m: Seq<LogicLoad>)
    requires
        pattern_covers(a, m) || pattern_covers(b, m),
    ensures
        pattern_covers(merged(a, b), m),
{
}

/// A row that the merge of two adjacent patterns covers is covered by one
/// of the two.
pub proof fn lemma_merged_covers_either(a: Seq<LogicLoad>, b: Seq<LogicLoad>, m: Seq<LogicLoad>)
    requires
        a.len() == b.len(),
        m.len() == a.len(),
        adjacent(a, b),
        is_minterm(m),
        pattern_covers(merged(a, b), m),
    ensures
        pattern_covers(a, m) || pattern_covers(b, m),
{
    let p = choose|i: int|
        #![trigger sole_difference(a, b, i)]
        sole_difference(a, b, i) && !(a[i] is DontMatter) && !(b[i] is DontMatter);
    if m[p] == a[p] {
        assert forall|i: int| 0 <= i < overlap(a, m) implies (a[i] is DontMatter || a[i]
            == m[i]) by {
            if i != p {
                assert(merged(a, b)[i] == a[i]);
            }
        }
    } else {
        assert(m[p] == b[p]);
    }
}

/// A row covers no row of its length but itself.
pub proof fn lemma_minterm_covers_itself_only(a: Seq<LogicLoad>, m: Seq<LogicLoad>)
    requires
        a.len() == m.len(),
        is_minterm(a),
        pattern_covers(a, m),
    ensures
        a == m,
{
    assert(a =~= m);
}

/// Every pattern covers itself.
pub proof fn lemma_covers_itself(a: Seq<LogicLoad>)
    ensures
        pattern_covers(a, a),
{
}

/// Patterns of one length that agree are one pattern.
pub proof fn lemma_agree_equal(a: Seq<LogicLoad>, b: Seq<LogicLoad>)
    requires
        a.len() == b.len(),
        agree(a, b),
    ensures
        a == b,
{
    assert(a =~= b);
}

/// Whether two patterns are adjacent does not depend on their order, and
/// neither does their merge.
pub proof fn lemma_adjacent_symmetric(a: Seq<LogicLoad>, b: Seq<LogicLoad>)
    ensures
        adjacent(a, b) == adjacent(b, a),
        merged(a, b) == merged(b, a),
{
    if adjacent(a, b) {
        let i = choose|i: int|
            #![trigger sole_difference(a, b, i)]
            sole_difference(a, b, i) && !(a[i] is DontMatter) && !(b[i] is DontMatter);
        assert(sole_difference(b, a, i));
    }
    if adjacent(b, a) {
        let i = choose|i: int|
            #![trigger sole_difference(b, a, i)]
            sole_difference(b, a, i) && !(a[i] is DontMatter) && !(b[i] is DontMatter);
        assert(sole_difference(a, b, i));
    }
}

} // verus!

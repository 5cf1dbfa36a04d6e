//! Which prime implicant covers which minterm, and the choice of primes
//! that together cover every minterm.
use crate::implicant::{Implicant, Term};
use crate::groups_structure::terms_of;
use vstd::prelude::*;

verus! {

/// The relation between primes and minterms: row `r`, column `c` says
/// whether prime `r` covers minterm `c`.
pub open spec fn coverage_matrix(primes: Seq<Term>, minterms: Seq<Term>) -> Seq<Seq<bool>> {
    Seq::new(
        primes.len(),
        |r: int| Seq::new(minterms.len(), |c: int| primes[r].covers(minterms[c])),
    )
}

/// A coverage map as contracts see it: the matrix, its number of columns,
/// and the primes selected so far, in the order of their selection.
pub ghost struct Coverage {
    pub matrix: Seq<Seq<bool>>,
    pub columns: nat,
    pub selected: Seq<usize>,
}

impl Coverage {
    /// Every row has one cell for each column, and the selection names
    /// rows of the matrix, none of them twice.
    pub open spec fn shaped(self) -> bool {
        &&& forall|r: int|
            0 <= r < self.matrix.len() ==> (#[trigger] self.matrix[r]).len() == self.columns
        &&& forall|i: int|
            0 <= i < self.selected.len() ==> (#[trigger] self.selected[i]) < self.matrix.len()
        &&& forall|i: int, j: int|
            0 <= i < j < self.selected.len() ==> (#[trigger] self.selected[i]) != (
            #[trigger] self.selected[j])
    }

    /// Prime `r` covers minterm `c`.
    pub open spec fn covers(self, r: int, c: int) -> bool {
        0 <= r < self.matrix.len() && 0 <= c < self.columns && self.matrix[r][c]
    }

    /// Prime `r` is selected.
    pub open spec fn is_selected(self, r: int) -> bool {
        exists|i: int| 0 <= i < self.selected.len() && (#[trigger] self.selected[i]) == r
    }

    /// Some selected prime covers minterm `c`.
    pub open spec fn covered(self, c: int) -> bool {
        exists|i: int|
            0 <= i < self.selected.len() && self.covers((#[trigger] self.selected[i]) as int, c)
    }

    /// Every minterm is covered by a selected prime.
    pub open spec fn all_covered(self) -> bool {
        forall|c: int| 0 <= c < self.columns ==> self.covered(c)
    }

    /// Some prime covers minterm `c`.
    pub open spec fn has_coverer(self, c: int) -> bool {
        exists|r: int| #[trigger] self.covers(r, c)
    }

    /// Prime `r` covers minterm `c`, and no other prime does.
    pub open spec fn sole_coverer(self, r: int, c: int) -> bool {
        &&& self.covers(r, c)
        &&& forall|other: int| #[trigger] self.covers(other, c) ==> other == r
    }

    /// Exactly one prime covers minterm `c`.
    pub open spec fn has_sole_coverer(self, c: int) -> bool {
        exists|r: int| #[trigger] self.sole_coverer(r, c)
    }

    /// Prime `r` is essential: it alone covers some minterm.
    pub open spec fn is_essential(self, r: int) -> bool {
        exists|c: int| #[trigger] self.sole_coverer(r, c)
    }

    /// Prime `r` covers some minterm that no selected prime covers.
    pub open spec fn covers_anew(self, r: int) -> bool {
        exists|c: int| #[trigger] self.covers(r, c) && !self.covered(c)
    }

    /// Every prime that alone covers some minterm is selected.
    pub open spec fn essentials_selected(self) -> bool {
        forall|r: int, c: int| #[trigger] self.sole_coverer(r, c) ==> self.is_selected(r)
    }

    /// The map with prime `r` selected: put last, unless it is selected
    /// already.
    pub open spec fn select(self, r: usize) -> Coverage {
        if self.is_selected(r as int) {
            self
        } else {
            Coverage { matrix: self.matrix, columns: self.columns, selected: self.selected.push(r) }
        }
    }

    /// The map after column `c` has been looked at for an essential prime:
    /// the prime that alone covers minterm `c` is selected.
    pub open spec fn with_essential(self, c: int) -> Coverage {
        if self.has_sole_coverer(c) {
            self.select((choose|r: int| #[trigger] self.sole_coverer(r, c)) as usize)
        } else {
            self
        }
    }

    /// The map after the first `c` columns have been looked at for
    /// essential primes.
    pub open spec fn with_essentials(self, c: nat) -> Coverage
        decreases c,
    {
        if c == 0 {
            self
        } else {
            self.with_essentials((c - 1) as nat).with_essential(c - 1)
        }
    }

    /// How many of the first `c` minterms prime `r` would newly cover.
    pub open spec fn gain_below(self, r: int, c: nat) -> nat
        decreases c,
    {
        if c == 0 {
            0
        } else {
            self.gain_below(r, (c - 1) as nat) + if self.covers(r, c - 1) && !self.covered(c - 1) {
                1nat
            } else {
                0nat
            }
        }
    }

    /// How many minterms prime `r` would newly cover.
    pub open spec fn gain(self, r: int) -> nat {
        self.gain_below(r, self.columns)
    }

    /// Prime `r` is the one to select for minterm `c`: among the primes
    /// that cover `c`, none would newly cover more minterms, and none that
    /// would cover as many comes before it.
    pub open spec fn best_for(self, r: int, c: int) -> bool {
        &&& self.covers(r, c)
        &&& forall|other: int|
            #[trigger] self.covers(other, c) ==> self.gain(other) < self.gain(r) || (self.gain(
                other,
            ) == self.gain(r) && r <= other)
    }

    /// The map after column `c` has had its turn in the greedy choice: if
    /// no selected prime covers minterm `c`, the best prime for it is
    /// selected.
    pub open spec fn with_choice(self, c: int) -> Coverage {
        if self.covered(c) {
            self
        } else {
            self.select((choose|r: int| #[trigger] self.best_for(r, c)) as usize)
        }
    }

    /// The map after the first `c` columns have had their turn in the
    /// greedy choice.
    pub open spec fn with_choices(self, c: nat) -> Coverage
        decreases c,
    {
        if c == 0 {
            self
        } else {
            self.with_choices((c - 1) as nat).with_choice(c - 1)
        }
    }
}

/// The coverage of minterms by prime implicants, and the primes selected
/// so far.
pub struct CoverageMap {
    map: Vec<Vec<bool>>,
    amount_of_minterms: usize,
    selected_primes: Vec<usize>,
    covered_minterms: Vec<usize>,
}

impl View for CoverageMap {
    type V = Coverage;

    closed spec fn view(&self) -> Coverage {
        Coverage {
            matrix: Seq::new(self.map@.len(), |r: int| self.map@[r]@),
            columns: self.amount_of_minterms as nat,
            selected: self.selected_primes@,
        }
    }
}

impl CoverageMap {
    /// The map is shaped, and the minterms it records as covered are those
    /// that a selected prime covers.
    pub closed spec fn wf(&self) -> bool {
        &&& self@.shaped()
        &&& forall|i: int|
            0 <= i < self.covered_minterms@.len() ==> (#[trigger] self.covered_minterms@[i])
                < self.amount_of_minterms
        &&& forall|c: int|
            0 <= c < self.amount_of_minterms ==> (self.covered_minterms@.contains(c as usize)
                <==> #[trigger] self@.covered(c))
    }

    /// A well-formed map is shaped.
    pub proof fn lemma_wf_shaped(&self)
        requires
            self.wf(),
        ensures
            self@.shaped(),
    {
    }

    /// The map of which prime covers which minterm, with no prime selected.
    pub fn new(prime_implicants: &Vec<Implicant>, basic_implicants: &Vec<Implicant>) -> (map: Self)
        ensures
            map.wf(),
            map@.matrix == coverage_matrix(
                terms_of(prime_implicants@),
                terms_of(basic_implicants@),
            ),
            map@.columns == basic_implicants@.len(),
            map@.selected == Seq::<usize>::empty(),
    {
        let ghost primes = terms_of(prime_implicants@);
        let ghost minterms = terms_of(basic_implicants@);
        let mut map: Vec<Vec<bool>> = Vec::new();
        let mut r: usize = 0;
        while r < prime_implicants.len()
            invariant
                primes == terms_of(prime_implicants@),
                minterms == terms_of(basic_implicants@),
                r <= prime_implicants@.len(),
                map@.len() == r,
                forall|x: int|
                    0 <= x < r ==> (#[trigger] map@[x])@ == coverage_matrix(primes, minterms)[x],
            decreases prime_implicants@.len() - r,
        {
            let prime = &prime_implicants[r];
            let mut row: Vec<bool> = Vec::new();
            let mut c: usize = 0;
            while c < basic_implicants.len()
                invariant
                    primes == terms_of(prime_implicants@),
                    minterms == terms_of(basic_implicants@),
                    r < prime_implicants@.len(),
                    prime == &prime_implicants@[r as int],
                    c <= basic_implicants@.len(),
                    row@.len() == c,
                    forall|y: int| 0 <= y < c ==> row@[y] == primes[r as int].covers(minterms[y]),
                decreases basic_implicants@.len() - c,
            {
                row.push(prime.covers(&basic_implicants[c]));
                c += 1;
            }
            map.push(row);
            r += 1;
        }
        CoverageMap {
            map,
            amount_of_minterms: basic_implicants.len(),
            selected_primes: Vec::new(),
            covered_minterms: Vec::new(),
        }
    }

    /// The number of primes, the rows of the map.
    pub fn amount_of_primes(&self) -> (n: usize)
        ensures
            n == self@.matrix.len(),
    {
        self.map.len()
    }

    /// The number of minterms, the columns of the map.
    pub fn amount_of_minterms(&self) -> (n: usize)
        ensures
            n == self@.columns,
    {
        self.amount_of_minterms
    }

    /// Whether prime `prime_index` covers minterm `minterm_index`.
    pub fn covers(&self, prime_index: usize, minterm_index: usize) -> (r: bool)
        requires
            self.wf(),
        ensures
            r == self@.covers(prime_index as int, minterm_index as int),
    {
        if prime_index < self.map.len() && minterm_index < self.amount_of_minterms {
            assert(self@.matrix[prime_index as int].len() == self@.columns);
            self.map[prime_index][minterm_index]
        } else {
            false
        }
    }

    /// Whether prime `prime_index` is selected.
    pub fn is_selected(&self, prime_index: usize) -> (r: bool)
        ensures
            r == self@.is_selected(prime_index as int),
    {
        let r = contains_index(&self.selected_primes, prime_index);
        proof {
            if r {
                let i = choose|i: int|
                    0 <= i < self.selected_primes@.len() && self.selected_primes@[i] == prime_index;
                assert(self@.selected[i] == prime_index);
            }
        }
        r
    }

    /// Whether some selected prime covers minterm `minterm_index`.
    pub fn is_covered(&self, minterm_index: usize) -> (r: bool)
        requires
            self.wf(),
        ensures
            r == self@.covered(minterm_index as int),
    {
        if minterm_index < self.amount_of_minterms {
            contains_index(&self.covered_minterms, minterm_index)
        } else {
            false
        }
    }

    /// Selects prime `index`, unless it is selected already, and records
    /// the minterms that it covers as covered.
    fn select_implicant(&mut self, index: usize)
        requires
            old(self).wf(),
            index < old(self)@.matrix.len(),
        ensures
            final(self).wf(),
            final(self)@ == old(self)@.select(index),
    {
        let selected = self.is_selected(index);
        if selected {
            return ;
        }
        let ghost before = self@;
        self.selected_primes.push(index);
        let ghost after = self@;
        proof {
            assert forall|x: int| 0 <= x < before.columns implies (#[trigger] after.covered(x)
                <==> (before.covered(x) || before.covers(index as int, x))) by {
                if before.covered(x) {
                    let i = choose|i: int|
                        0 <= i < before.selected.len() && before.covers(
                            (#[trigger] before.selected[i]) as int,
                            x,
                        );
                    assert(after.covers(after.selected[i] as int, x));
                }
                if before.covers(index as int, x) {
                    assert(after.covers(after.selected[before.selected.len() as int] as int, x));
                }
                if after.covered(x) {
                    let i = choose|i: int|
                        0 <= i < after.selected.len() && after.covers(
                            (#[trigger] after.selected[i]) as int,
                            x,
                        );
                    if i < before.selected.len() {
                        assert(before.covers(before.selected[i] as int, x));
                    }
                }
            }
        }
        let mut column: usize = 0;
        while column < self.amount_of_minterms
            invariant
                old(self).wf(),
                before == old(self)@,
                after == self@,
                after.shaped(),
                index < before.matrix.len(),
                self.map == old(self).map,
                self.amount_of_minterms == old(self).amount_of_minterms,
                column <= self.amount_of_minterms,
                forall|i: int|
                    0 <= i < self.covered_minterms@.len() ==> (#[trigger] self.covered_minterms@[i])
                        < self.amount_of_minterms,
                forall|x: int|
                    0 <= x < self.amount_of_minterms ==> (
                    #[trigger] self.covered_minterms@.contains(x as usize) <==> (before.covered(x)
                        || (x < column && before.covers(index as int, x)))),
            decreases self.amount_of_minterms - column,
        {
            assert(before.matrix[index as int].len() == before.columns);
            let ghost list = self.covered_minterms@;
            if self.map[index][column] && !contains_index(&self.covered_minterms, column) {
                self.covered_minterms.push(column);
                proof {
                    assert forall|x: int| 0 <= x < self.amount_of_minterms implies (
                    #[trigger] self.covered_minterms@.contains(x as usize) <==> (before.covered(x)
                        || (x < column + 1 && before.covers(index as int, x)))) by {
                        vstd::seq_lib::lemma_seq_contains_after_push(list, column, x as usize);
                        assert(list.contains(x as usize) <==> (before.covered(x) || (x < column
                            && before.covers(index as int, x))));
                    }
                }
            } else {
                proof {
                    assert forall|x: int| 0 <= x < self.amount_of_minterms implies (
                    #[trigger] self.covered_minterms@.contains(x as usize) <==> (before.covered(x)
                        || (x < column + 1 && before.covers(index as int, x)))) by {
                        assert(list.contains(x as usize) <==> (before.covered(x) || (x < column
                            && before.covers(index as int, x))));
                    }
                }
            }
            column += 1;
        }
        proof {
            assert forall|c: int| 0 <= c < self.amount_of_minterms implies (
            self.covered_minterms@.contains(c as usize) <==> #[trigger] self@.covered(c)) by {
                assert(self.covered_minterms@.contains(c as usize) <==> (before.covered(c) || (c
                    < column && before.covers(index as int, c))));
            }
        }
    }

    /// How many minterms that no selected prime covers yet the prime
    /// `implicant_index` covers.
    fn covers_how_many_uncovered(&self, implicant_index: usize) -> (count: usize)
        requires
            self.wf(),
            implicant_index < self@.matrix.len(),
        ensures
            count == self@.gain(implicant_index as int),
    {
        let mut count: usize = 0;
        let mut column: usize = 0;
        while column < self.amount_of_minterms
            invariant
                self.wf(),
                implicant_index < self@.matrix.len(),
                column <= self.amount_of_minterms,
                count <= column,
                count == self@.gain_below(implicant_index as int, column as nat),
            decreases self.amount_of_minterms - column,
        {
            if self.map[implicant_index][column] && !self.is_covered(column) {
                count += 1;
            }
            column += 1;
        }
        count
    }

    /// Selects every essential prime: for each minterm in turn, the prime
    /// that covers it where no other does. Returns how many primes this
    /// selected. Every minterm must have a prime that covers it, as it has
    /// when the primes come from grouping the minterms.
    pub fn find_essentials(&mut self) -> (essentials_found: usize)
        requires
            old(self).wf(),
            forall|c: int| 0 <= c < old(self)@.columns ==> old(self)@.has_coverer(c),
        ensures
            final(self).wf(),
            final(self)@.matrix == old(self)@.matrix,
            final(self)@.columns == old(self)@.columns,
            final(self)@ == old(self)@.with_essentials(old(self)@.columns),
            final(self)@.selected.len() == old(self)@.selected.len() + essentials_found,
            final(self)@.essentials_selected(),
            forall|r: int|
                final(self)@.is_selected(r) ==> old(self)@.is_selected(r) || old(
                    self,
                )@.is_essential(r),
    {
        let ghost start = self@;
        let mut essentials_found: usize = 0;
        let mut column: usize = 0;
        while column < self.amount_of_minterms
            invariant
                self.wf(),
                start == old(self)@,
                self@.matrix == start.matrix,
                self@.columns == start.columns,
                self.amount_of_minterms == start.columns,
                forall|c: int| 0 <= c < start.columns ==> start.has_coverer(c),
                column <= self.amount_of_minterms,
                self@ == start.with_essentials(column as nat),
                essentials_found <= column,
                self@.selected.len() == start.selected.len() + essentials_found,
                forall|r: int, c: int|
                    0 <= c < column && #[trigger] self@.sole_coverer(r, c) ==> self@.is_selected(r),
                forall|r: int| self@.is_selected(r) ==> start.is_selected(r) || start.is_essential(r),
            decreases self.amount_of_minterms - column,
        {
            let ghost before = self@;
            let mut covering_prime: Option<usize> = None;
            let mut found_multiple_covering_primes = false;
            let mut row: usize = 0;
            while row < self.map.len()
                invariant
                    self.wf(),
                    before == self@,
                    column < self.amount_of_minterms,
                    row <= self.map@.len(),
                    covering_prime is None ==> !found_multiple_covering_primes && forall|r: int|
                        0 <= r < row ==> !#[trigger] before.covers(r, column as int),
                    covering_prime matches Some(first) ==> first < row && before.covers(
                        first as int,
                        column as int,
                    ) && forall|r: int|
                        0 <= r < first ==> !#[trigger] before.covers(r, column as int),
                    covering_prime matches Some(first) ==> (found_multiple_covering_primes
                        <==> exists|r: int|
                        first < r < row && #[trigger] before.covers(r, column as int)),
                decreases self.map@.len() - row,
            {
                if self.covers(row, column) {
                    if covering_prime.is_some() {
                        found_multiple_covering_primes = true;
                    } else {
                        covering_prime = Some(row);
                    }
                }
                row += 1;
            }
            proof {
                assert(start.has_coverer(column as int));
                let r = choose|r: int| #[trigger] start.covers(r, column as int);
                assert(before.covers(r, column as int));
            }
            if !found_multiple_covering_primes {
                match covering_prime {
                    Some(prime_index) => {
                        proof {
                            assert(before.sole_coverer(prime_index as int, column as int));
                        }
                        let selected = self.is_selected(prime_index);
                        if !selected {
                            self.select_implicant(prime_index);
                            essentials_found += 1;
                        }
                    },
                    None => {},
                }
            }
            proof {
                let after = self@;
                lemma_select_grows(before, after);
                assert forall|r: int, c: int|
                    0 <= c < column + 1 && #[trigger] after.sole_coverer(
                        r,
                        c,
                    ) implies after.is_selected(r) by {
                    assert(before.sole_coverer(r, c)) by {
                        assert forall|other: int| #[trigger]
                            before.covers(other, c) implies other == r by {
                            assert(after.covers(other, c));
                        }
                    }
                    if c < column {
                        assert(before.is_selected(r));
                    } else {
                        let chosen = choose|x: int| #[trigger] before.sole_coverer(x, c);
                        assert(before.sole_coverer(chosen, c));
                        if !before.is_selected(r) {
                            assert(after.selected[before.selected.len() as int] == r);
                        }
                    }
                }
                assert forall|r: int| after.is_selected(r) implies start.is_selected(r)
                    || start.is_essential(r) by {
                    if !before.is_selected(r) {
                        assert(after == before.with_essential(column as int));
                        let chosen = choose|x: int| #[trigger] before.sole_coverer(x, column as int);
                        assert(before.sole_coverer(chosen, column as int));
                        assert(after.selected[before.selected.len() as int] == r);
                        assert(start.sole_coverer(r, column as int)) by {
                            assert forall|other: int| #[trigger]
                                start.covers(other, column as int) implies other == r by {
                                assert(before.covers(other, column as int));
                            }
                        }
                    }
                }
            }
            column += 1;
        }
        proof {
            assert forall|r: int, c: int| #[trigger]
                self@.sole_coverer(r, c) implies self@.is_selected(r) by {
                assert(self@.covers(r, c));
            }
        }
        essentials_found
    }

    /// Covers the minterms that the selection leaves uncovered. For each
    /// such minterm in turn, one prime that covers it is selected: the one
    /// that newly covers the most minterms, and among several of those the
    /// one of least index. Every minterm not yet covered must have a prime
    /// that covers it.
    pub fn choose_remaining_primes(&mut self)
        requires
            old(self).wf(),
            forall|c: int|
                0 <= c < old(self)@.columns && !old(self)@.covered(c) ==> old(self)@.has_coverer(c),
        ensures
            final(self).wf(),
            final(self)@.matrix == old(self)@.matrix,
            final(self)@.columns == old(self)@.columns,
            final(self)@ == old(self)@.with_choices(old(self)@.columns),
            final(self)@.all_covered(),
            forall|r: int| old(self)@.is_selected(r) ==> final(self)@.is_selected(r),
            forall|r: int|
                final(self)@.is_selected(r) ==> old(self)@.is_selected(r) || old(
                    self,
                )@.covers_anew(r),
            old(self)@.essentials_selected() ==> final(self)@.essentials_selected(),
    {
        let ghost start = self@;
        let mut minterm_index: usize = 0;
        while minterm_index < self.amount_of_minterms
            invariant
                self.wf(),
                start == old(self)@,
                self@.matrix == start.matrix,
                self@.columns == start.columns,
                self.amount_of_minterms == start.columns,
                forall|c: int| 0 <= c < start.columns && !start.covered(c) ==> start.has_coverer(c),
                minterm_index <= self.amount_of_minterms,
                self@ == start.with_choices(minterm_index as nat),
                forall|c: int| 0 <= c < minterm_index ==> self@.covered(c),
                forall|r: int| start.is_selected(r) ==> self@.is_selected(r),
                forall|r: int| self@.is_selected(r) ==> start.is_selected(r) || start.covers_anew(r),
                forall|c: int| start.covered(c) ==> self@.covered(c),
            decreases self.amount_of_minterms - minterm_index,
        {
            let ghost before = self@;
            let covered = self.is_covered(minterm_index);
            if !covered {
                let mut best: Option<(usize, usize)> = None;
                let mut row: usize = 0;
                while row < self.map.len()
                    invariant
                        self.wf(),
                        before == self@,
                        minterm_index < self.amount_of_minterms,
                        row <= self.map@.len(),
                        best is None ==> forall|r: int|
                            0 <= r < row ==> !#[trigger] before.covers(r, minterm_index as int),
                        best matches Some((prime, gain)) ==> prime < row && before.covers(
                            prime as int,
                            minterm_index as int,
                        ) && gain == before.gain(prime as int) && forall|r: int|
                            0 <= r < row && #[trigger] before.covers(r, minterm_index as int)
                                ==> before.gain(r) < gain || (before.gain(r) == gain && prime
                                <= r),
                    decreases self.map@.len() - row,
                {
                    if self.covers(row, minterm_index) {
                        let new_covertures = self.covers_how_many_uncovered(row);
                        match best {
                            None => {
                                best = Some((row, new_covertures));
                            },
                            Some((_, max_new_covertures)) => {
                                if new_covertures > max_new_covertures {
                                    best = Some((row, new_covertures));
                                }
                            },
                        }
                    }
                    row += 1;
                }
                proof {
                    assert(start.has_coverer(minterm_index as int));
                    let r = choose|r: int| #[trigger] start.covers(r, minterm_index as int);
                    assert(before.covers(r, minterm_index as int));
                }
                match best {
                    Some((candidate_to_be_selected, _)) => {
                        proof {
                            let c = minterm_index as int;
                            let b = candidate_to_be_selected as int;
                            assert(before.best_for(b, c));
                            let chosen = choose|r: int| #[trigger] before.best_for(r, c);
                            assert(before.best_for(chosen, c));
                        }
                        self.select_implicant(candidate_to_be_selected);
                        proof {
                            let after = self@;
                            let c = minterm_index as int;
                            if !before.is_selected(candidate_to_be_selected as int) {
                                assert(after.covers(
                                    after.selected[before.selected.len() as int] as int,
                                    c,
                                ));
                            } else {
                                let i = choose|i: int|
                                    0 <= i < before.selected.len() && (
                                    #[trigger] before.selected[i]) == candidate_to_be_selected;
                                assert(before.covers(before.selected[i] as int, c));
                            }
                            assert forall|r: int| after.is_selected(r) implies start.is_selected(r)
                                || start.covers_anew(r) by {
                                if !before.is_selected(r) {
                                    assert(after.selected[before.selected.len() as int] == r);
                                    assert(start.covers(r, c) && !start.covered(c));
                                }
                            }
                        }
                    },
                    None => {},
                }
            }
            proof {
                lemma_select_grows(before, self@);
            }
            minterm_index += 1;
        }
        proof {
            if start.essentials_selected() {
                assert forall|r: int, c: int| #[trigger]
                    self@.sole_coverer(r, c) implies self@.is_selected(r) by {
                    assert(start.sole_coverer(r, c)) by {
                        assert forall|other: int| #[trigger]
                            start.covers(other, c) implies other == r by {
                            assert(self@.covers(other, c));
                        }
                    }
                }
            }
        }
    }

    /// The selected primes, in the order of their selection.
    pub fn get_selected_implicants(&self) -> (selected: &Vec<usize>)
        ensures
            selected@ == self@.selected,
    {
        &self.selected_primes
    }
}

/// Whether the list holds the index.
fn contains_index(list: &Vec<usize>, index: usize) -> (r: bool)
    ensures
        r == list@.contains(index),
{
    let mut at: usize = 0;
    while at < list.len()
        invariant
            at <= list@.len(),
            forall|i: int| 0 <= i < at ==> list@[i] != index,
        decreases list@.len() - at,
    {
        if list[at] == index {
            return true;
        }
        at += 1;
    }
    false
}

/// Selecting keeps the matrix, and keeps what was selected selected, and
/// what was covered covered.
pub proof fn lemma_select_grows(before: Coverage, after: Coverage)
    requires
        after.matrix == before.matrix,
        after.columns == before.columns,
        before.selected.len() <= after.selected.len(),
        forall|i: int| 0 <= i < before.selected.len() ==> after.selected[i] == before.selected[i],
    ensures
        forall|r: int| before.is_selected(r) ==> after.is_selected(r),
        forall|c: int| before.covered(c) ==> after.covered(c),
{
    assert forall|r: int| before.is_selected(r) implies after.is_selected(r) by {
        let i = choose|i: int|
            0 <= i < before.selected.len() && (#[trigger] before.selected[i]) == r;
        assert(after.selected[i] == r);
    }
}

} // verus!

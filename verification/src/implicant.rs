//! Ternary terms over a fixed, ordered list of variables.
use crate::pattern::{
    adjacent, agree, is_minterm, lemma_adjacent_symmetric, lemma_merged_at_sole_difference,
    merged, overlap, pattern_covers, pattern_row, row_pattern, sole_difference, true_count,
};
use crate::table_parser::{binary_value, convert_boolean_row_to_number};
use vstd::prelude::*;
use vstd::string::StringExecFns;

verus! {

/// What a term says about one variable.
#[derive(Clone, Copy, Debug, PartialEq, Eq, Structural)]
pub enum LogicLoad {
    False,
    True,
    DontMatter,
}

impl LogicLoad {
    /// Whether the variable must be true.
    pub fn is_true(&self) -> (r: bool)
        ensures
            r == (*self is True),
    {
        match self {
            Self::True => true,
            _ => false,
        }
    }

    /// Whether the variable may be either.
    pub fn dont_matter(&self) -> (r: bool)
        ensures
            r == (*self is DontMatter),
    {
        match self {
            Self::DontMatter => true,
            _ => false,
        }
    }

    /// Whether the variable must be false.
    pub fn is_false(&self) -> (r: bool)
        ensures
            r == (*self is False),
    {
        match self {
            Self::False => true,
            _ => false,
        }
    }

    /// Two loads are equal exactly when they are the same variant.
    pub fn equals(&self, other: &LogicLoad) -> (r: bool)
        ensures
            r == (*self == *other),
    {
        let both_true = self.is_true() && other.is_true();
        let both_dont_matter = self.dont_matter() && other.dont_matter();
        let both_false = self.is_false() && other.is_false();
        both_true || both_dont_matter || both_false
    }

    /// The load that stands for one cell of a truth-table row.
    pub open spec fn of_bit(bit: bool) -> LogicLoad {
        if bit {
            LogicLoad::True
        } else {
            LogicLoad::False
        }
    }

    /// The character that shows this load in a pattern: `0`, `1` or `-`.
    pub open spec fn digit(self) -> char {
        match self {
            LogicLoad::False => '0',
            LogicLoad::True => '1',
            LogicLoad::DontMatter => '-',
        }
    }

    /// This load as a literal of the variable `name`: the name itself, the
    /// name behind `!`, or nothing where the variable does not matter.
    pub open spec fn literal(self, name: Seq<char>) -> Seq<char> {
        match self {
            LogicLoad::False => seq!['!'] + name,
            LogicLoad::True => name,
            LogicLoad::DontMatter => Seq::empty(),
        }
    }
}

/// The texts in `parts`, with `separator` between each two of them.
pub open spec fn joined(parts: Seq<Seq<char>>, separator: Seq<char>) -> Seq<char>
    decreases parts.len(),
{
    if parts.len() == 0 {
        Seq::empty()
    } else if parts.len() == 1 {
        parts[0]
    } else {
        joined(parts.drop_last(), separator) + separator + parts.last()
    }
}

/// The literals of the first `n` positions, in order, leaving out the
/// positions that do not matter.
pub open spec fn literals(names: Seq<Seq<char>>, values: Seq<LogicLoad>, n: nat) -> Seq<Seq<char>>
    decreases n,
{
    if n == 0 {
        Seq::empty()
    } else {
        let head = literals(names, values, (n - 1) as nat);
        if values[n - 1] is DontMatter {
            head
        } else {
            head.push(values[n - 1].literal(names[n - 1]))
        }
    }
}

/// A term as contracts see it: the names of the variables, one load for
/// each of the leading variables, and the mark that retires a term.
pub ghost struct Term {
    pub names: Seq<Seq<char>>,
    pub values: Seq<LogicLoad>,
    pub prime: bool,
}

impl Term {
    /// Every position of the pattern has a variable to name it.
    pub open spec fn named(self) -> bool {
        self.values.len() <= self.names.len()
    }

    /// Two terms combine when neither is retired and their patterns are
    /// adjacent.
    pub open spec fn combines(self, other: Term) -> bool {
        !self.prime && !other.prime && adjacent(self.values, other.values)
    }

    /// The term that two combining terms give: a fresh, unretired term
    /// over the first term's variables.
    pub open spec fn combined(self, other: Term) -> Term {
        Term { names: self.names, values: merged(self.values, other.values), prime: false }
    }

    /// The same term, retired.
    pub open spec fn retired(self) -> Term {
        Term { names: self.names, values: self.values, prime: true }
    }

    /// The same term, not retired.
    pub open spec fn fresh(self) -> Term {
        Term { names: self.names, values: self.values, prime: false }
    }

    /// This term covers the other: at every position it either does not
    /// care or holds what the other holds.
    pub open spec fn covers(self, other: Term) -> bool {
        pattern_covers(self.values, other.values)
    }

    /// The two terms have the same pattern, whatever their names and
    /// whether or not they are retired.
    pub open spec fn same_pattern(self, other: Term) -> bool {
        agree(self.values, other.values)
    }

    /// The term as a conjunction: its literals with one space between each
    /// two. A term that cares about no variable is the empty text.
    pub open spec fn text(self) -> Seq<char> {
        joined(literals(self.names, self.values, self.values.len()), seq![' '])
    }

    /// The term's pattern, one character for each position.
    pub open spec fn pattern_text(self) -> Seq<char> {
        Seq::new(self.values.len(), |i: int| self.values[i].digit())
    }
}

/// Whether two terms combine does not depend on their order, and neither
/// does the pattern of their combination.
pub proof fn lemma_combination_commutes(a: Term, b: Term)
    ensures
        a.combines(b) == b.combines(a),
        a.combined(b).values == b.combined(a).values,
        a.combined(b).prime == b.combined(a).prime,
{
    lemma_adjacent_symmetric(a.values, b.values);
}

/// Two terms combine exactly when neither is retired and one position,
/// at which neither is a don't-care, is the only one at which they
/// differ. Their combination is a don't-care at that position, holds at
/// every other what both hold, and is not retired.
pub proof fn lemma_combination_rule(a: Term, b: Term)
    ensures
        a.combines(b) <==> !a.prime && !b.prime && exists|i: int|
            #![trigger sole_difference(a.values, b.values, i)]
            sole_difference(a.values, b.values, i) && !(a.values[i] is DontMatter) && !(
            b.values[i] is DontMatter),
        forall|i: int|
            #![trigger sole_difference(a.values, b.values, i)]
            sole_difference(a.values, b.values, i) ==> a.combined(b).values[i] is DontMatter
                && forall|j: int|
                0 <= j < overlap(a.values, b.values) && j != i ==> a.combined(b).values[j]
                    == a.values[j] && a.combined(b).values[j] == b.values[j],
        !a.combined(b).prime,
{
    assert forall|i: int|
        #![trigger sole_difference(a.values, b.values, i)]
        sole_difference(a.values, b.values, i) implies a.combined(b).values[i] is DontMatter
        && forall|j: int|
        0 <= j < overlap(a.values, b.values) && j != i ==> a.combined(b).values[j] == a.values[j]
            && a.combined(b).values[j] == b.values[j] by {
        lemma_merged_at_sole_difference(a.values, b.values, i);
    }
}

/// One position of a term: a variable's name and what the term says about
/// that variable.
struct MintermFragment {
    variable_name: String,
    logic_load: LogicLoad,
}

impl MintermFragment {
    /// The fragment as a literal.
    fn get_string_representation(&self) -> (text: String)
        ensures
            text@ == self.logic_load.literal(self.variable_name@),
    {
        match self.logic_load {
            LogicLoad::False => {
                let mut text = String::from_str("!");
                proof {
                    reveal_strlit("!");
                }
                text.append(self.variable_name.as_str());
                text
            },
            LogicLoad::DontMatter => String::new(),
            LogicLoad::True => self.variable_name.clone(),
        }
    }

    /// The fragment as one character of a pattern.
    fn get_binary_representation(&self) -> (text: String)
        ensures
            text@ == seq![self.logic_load.digit()],
    {
        match self.logic_load {
            LogicLoad::False => {
                proof {
                    reveal_strlit("0");
                }
                let text = String::from_str("0");
                text
            },
            LogicLoad::DontMatter => {
                proof {
                    reveal_strlit("-");
                }
                let text = String::from_str("-");
                text
            },
            LogicLoad::True => {
                proof {
                    reveal_strlit("1");
                }
                let text = String::from_str("1");
                text
            },
        }
    }
}

/// A ternary term together with the names of the variables it speaks of.
pub struct Implicant {
    variables_names: Vec<String>,
    fragments: Vec<MintermFragment>,
    marked_as_prime: bool,
}

impl View for Implicant {
    type V = Term;

    closed spec fn view(&self) -> Term {
        Term {
            names: Seq::new(self.variables_names@.len(), |i: int| self.variables_names@[i]@),
            values: Seq::new(self.fragments@.len(), |i: int| self.fragments@[i].logic_load),
            prime: self.marked_as_prime,
        }
    }
}

impl Implicant {
    /// Each fragment carries the name of the variable at its position.
    pub closed spec fn wf(&self) -> bool {
        &&& self.fragments@.len() <= self.variables_names@.len()
        &&& forall|i: int|
            0 <= i < self.fragments@.len() ==> (#[trigger] self.fragments@[i]).variable_name@
                == self.variables_names@[i]@
    }

    /// A well-formed implicant has a name for each position.
    pub proof fn lemma_wf_named(&self)
        requires
            self.wf(),
        ensures
            self@.named(),
    {
    }

    /// Whether the term is retired: it found no partner in some round, and
    /// takes part in no further combination.
    pub fn is_prime(&self) -> (r: bool)
        ensures
            r == self@.prime,
    {
        self.marked_as_prime
    }

    /// Retires the term.
    pub fn mark_as_prime(&mut self)
        ensures
            final(self)@ == old(self)@.retired(),
            old(self).wf() ==> final(self).wf(),
    {
        self.marked_as_prime = true;
    }

    /// The number of positions of the term.
    pub fn amount_of_variables(&self) -> (n: usize)
        ensures
            n == self@.values.len(),
    {
        self.fragments.len()
    }

    /// The minterm of one truth-table row: true where the row holds true,
    /// false where it holds false, and not retired.
    pub fn from_input(row_of_inputs: &Vec<bool>, variables_names: Vec<String>) -> (implicant: Self)
        requires
            row_of_inputs@.len() <= variables_names@.len(),
        ensures
            implicant.wf(),
            implicant@.names == Seq::new(variables_names@.len(), |i: int| variables_names@[i]@),
            implicant@.values == row_pattern(row_of_inputs@),
            !implicant@.prime,
    {
        let mut fragments: Vec<MintermFragment> = Vec::new();
        let mut index: usize = 0;
        while index < row_of_inputs.len()
            invariant
                index <= row_of_inputs@.len() <= variables_names@.len(),
                fragments@.len() == index,
                forall|i: int|
                    0 <= i < index ==> (#[trigger] fragments@[i]).variable_name@
                        == variables_names@[i]@,
                forall|i: int|
                    0 <= i < index ==> (#[trigger] fragments@[i]).logic_load == LogicLoad::of_bit(
                        row_of_inputs@[i],
                    ),
            decreases row_of_inputs@.len() - index,
        {
            let logic_load = if row_of_inputs[index] {
                LogicLoad::True
            } else {
                LogicLoad::False
            };
            fragments.push(
                MintermFragment { variable_name: variables_names[index].clone(), logic_load },
            );
            index += 1;
        }
        Implicant { variables_names, fragments, marked_as_prime: false }
    }

    /// Whether the two terms combine: neither is retired, and their
    /// patterns differ at exactly one position, where one is true and the
    /// other false.
    pub fn check_if_combines(&self, other: &Implicant) -> (r: bool)
        ensures
            r == self@.combines(other@),
    {
        if self.marked_as_prime || other.marked_as_prime {
            return false;
        }
        let ghost a = self@.values;
        let ghost b = other@.values;
        let n = if self.fragments.len() <= other.fragments.len() {
            self.fragments.len()
        } else {
            other.fragments.len()
        };
        let mut differences: usize = 0;
        let mut opposite = false;
        let ghost mut first: int = 0;
        let mut index: usize = 0;
        while index < n
            invariant
                a == self@.values,
                b == other@.values,
                n == overlap(a, b),
                index <= n,
                differences <= index,
                differences == 0 ==> forall|j: int| 0 <= j < index ==> a[j] == b[j],
                differences >= 1 ==> 0 <= first < index && a[first] != b[first] && opposite == (
                !(a[first] is DontMatter) && !(b[first] is DontMatter)),
                differences >= 1 ==> forall|j: int| 0 <= j < first ==> a[j] == b[j],
                differences == 1 ==> forall|j: int| first < j < index ==> a[j] == b[j],
                differences >= 2 ==> exists|j: int| first < j < index && a[j] != b[j],
            decreases n - index,
        {
            let mine = self.fragments[index].logic_load;
            let theirs = other.fragments[index].logic_load;
            assert(mine == a[index as int] && theirs == b[index as int]);
            if !mine.equals(&theirs) {
                if differences == 0 {
                    opposite = !mine.dont_matter() && !theirs.dont_matter();
                    proof {
                        first = index as int;
                    }
                }
                differences += 1;
            }
            index += 1;
        }
        proof {
            if differences == 1 && opposite {
                assert(sole_difference(a, b, first));
            }
            if adjacent(a, b) {
                let w = choose|i: int|
                    #![trigger sole_difference(a, b, i)]
                    sole_difference(a, b, i) && !(a[i] is DontMatter) && !(b[i] is DontMatter);
                assert(sole_difference(a, b, w));
            }
        }
        differences == 1 && opposite
    }

    /// The term that two combining terms give. It keeps what the two agree
    /// on, does not care about the one position where they differ, names
    /// its variables as the first term does, and is not retired.
    pub fn from_implicants(impl_a: &Implicant, impl_b: &Implicant) -> (implicant: Self)
        requires
            impl_a.wf(),
            impl_a@.combines(impl_b@),
        ensures
            implicant.wf(),
            implicant@ == impl_a@.combined(impl_b@),
    {
        let n = if impl_a.fragments.len() <= impl_b.fragments.len() {
            impl_a.fragments.len()
        } else {
            impl_b.fragments.len()
        };
        let mut new_fragments: Vec<MintermFragment> = Vec::new();
        let mut index: usize = 0;
        while index < n
            invariant
                impl_a.wf(),
                n == overlap(impl_a@.values, impl_b@.values),
                index <= n,
                new_fragments@.len() == index,
                forall|i: int|
                    0 <= i < index ==> (#[trigger] new_fragments@[i]).variable_name@
                        == impl_a.variables_names@[i]@,
                forall|i: int|
                    0 <= i < index ==> (#[trigger] new_fragments@[i]).logic_load == merged(
                        impl_a@.values,
                        impl_b@.values,
                    )[i],
            decreases n - index,
        {
            let frag_a = &impl_a.fragments[index];
            let frag_b = &impl_b.fragments[index];
            let variable_name = frag_a.variable_name.clone();
            let logic_load = if frag_a.logic_load.equals(&frag_b.logic_load) {
                frag_a.logic_load
            } else {
                LogicLoad::DontMatter
            };
            new_fragments.push(MintermFragment { variable_name, logic_load });
            index += 1;
        }
        let implicant = Implicant {
            variables_names: copy_names(&impl_a.variables_names),
            fragments: new_fragments,
            marked_as_prime: false,
        };
        assert(implicant@.values =~= merged(impl_a@.values, impl_b@.values));
        assert(implicant@.names =~= impl_a@.names);
        implicant
    }

    /// The combination of two terms where they combine, and nothing where
    /// they do not.
    pub fn combine(impl_a: &Implicant, impl_b: &Implicant) -> (implicant: Option<Self>)
        requires
            impl_a.wf(),
        ensures
            implicant is Some <==> impl_a@.combines(impl_b@),
            implicant matches Some(merged) ==> merged.wf() && merged@ == impl_a@.combined(impl_b@),
    {
        if impl_a.check_if_combines(impl_b) {
            Some(Self::from_implicants(impl_a, impl_b))
        } else {
            None
        }
    }

    /// A copy of the term that is not retired, whether or not the term is.
    pub fn clone(&self) -> (copy: Self)
        ensures
            copy@ == self@.fresh(),
            self.wf() ==> copy.wf(),
    {
        let mut fragments: Vec<MintermFragment> = Vec::new();
        let mut index: usize = 0;
        while index < self.fragments.len()
            invariant
                index <= self.fragments@.len(),
                fragments@.len() == index,
                forall|i: int|
                    0 <= i < index ==> (#[trigger] fragments@[i]).variable_name@
                        == self.fragments@[i].variable_name@,
                forall|i: int|
                    0 <= i < index ==> (#[trigger] fragments@[i]).logic_load
                        == self.fragments@[i].logic_load,
            decreases self.fragments@.len() - index,
        {
            let fragment = &self.fragments[index];
            fragments.push(
                MintermFragment {
                    variable_name: fragment.variable_name.clone(),
                    logic_load: fragment.logic_load,
                },
            );
            index += 1;
        }
        let copy = Implicant {
            variables_names: copy_names(&self.variables_names),
            fragments,
            marked_as_prime: false,
        };
        assert(copy@.values =~= self@.values);
        assert(copy@.names =~= self@.names);
        copy
    }

    /// Whether this term covers the other: at every position it either
    /// does not care or holds what the other holds.
    pub fn covers(&self, other: &Implicant) -> (r: bool)
        ensures
            r == self@.covers(other@),
    {
        let n = if self.fragments.len() <= other.fragments.len() {
            self.fragments.len()
        } else {
            other.fragments.len()
        };
        let mut index: usize = 0;
        while index < n
            invariant
                n == overlap(self@.values, other@.values),
                index <= n,
                forall|j: int|
                    0 <= j < index ==> (self@.values[j] is DontMatter || self@.values[j]
                        == other@.values[j]),
            decreases n - index,
        {
            let mine = self.fragments[index].logic_load;
            let theirs = other.fragments[index].logic_load;
            assert(mine == self@.values[index as int] && theirs == other@.values[index as int]);
            if !mine.dont_matter() && !mine.equals(&theirs) {
                return false;
            }
            index += 1;
        }
        true
    }

    /// Whether the two terms have the same pattern.
    pub fn equals(&self, other: &Implicant) -> (r: bool)
        ensures
            r == self@.same_pattern(other@),
    {
        let n = if self.fragments.len() <= other.fragments.len() {
            self.fragments.len()
        } else {
            other.fragments.len()
        };
        let mut index: usize = 0;
        while index < n
            invariant
                n == overlap(self@.values, other@.values),
                index <= n,
                forall|j: int| 0 <= j < index ==> self@.values[j] == other@.values[j],
            decreases n - index,
        {
            let mine = self.fragments[index].logic_load;
            let theirs = other.fragments[index].logic_load;
            assert(mine == self@.values[index as int] && theirs == other@.values[index as int]);
            if !mine.equals(&theirs) {
                return false;
            }
            index += 1;
        }
        true
    }

    /// The number of true positions, by which terms are grouped.
    pub fn amount_of_true_variables(&self) -> (count: usize)
        ensures
            count == true_count(self@.values),
    {
        let ghost values = self@.values;
        let mut count: usize = 0;
        let mut index: usize = 0;
        while index < self.fragments.len()
            invariant
                values == self@.values,
                index <= values.len(),
                count <= index,
                count == true_count(values.take(index as int)),
            decreases values.len() - index,
        {
            assert(values.take(index + 1).drop_last() =~= values.take(index as int));
            if self.fragments[index].logic_load.is_true() {
                count += 1;
            }
            index += 1;
        }
        assert(values.take(index as int) =~= values);
        count
    }

    /// The index of the truth-table row that this minterm stands for, the
    /// first variable being the most significant.
    pub fn minterm_number(&self) -> (number: usize)
        requires
            is_minterm(self@.values),
            binary_value(pattern_row(self@.values)) <= usize::MAX,
        ensures
            number == binary_value(pattern_row(self@.values)),
    {
        let mut logic_loads: Vec<bool> = Vec::new();
        let mut index: usize = 0;
        while index < self.fragments.len()
            invariant
                index <= self@.values.len(),
                logic_loads@.len() == index,
                forall|i: int| 0 <= i < index ==> logic_loads@[i] == (self@.values[i] is True),
            decreases self@.values.len() - index,
        {
            logic_loads.push(self.fragments[index].logic_load.is_true());
            index += 1;
        }
        assert(logic_loads@ =~= pattern_row(self@.values));
        convert_boolean_row_to_number(logic_loads.as_slice())
    }

    /// The term as a conjunction of literals: the variable's name where the
    /// term holds true, the name behind `!` where it holds false, nothing
    /// where it does not care, and one space between two literals.
    pub fn get_string_representation(&self) -> (rep: String)
        requires
            self.wf(),
        ensures
            rep@ == self@.text(),
    {
        let ghost term = self@;
        let ghost space = seq![' '];
        let mut rep = String::new();
        let mut any = false;
        let mut index: usize = 0;
        while index < self.fragments.len()
            invariant
                self.wf(),
                term == self@,
                space == seq![' '],
                index <= term.values.len(),
                any == (literals(term.names, term.values, index as nat).len() > 0),
                rep@ == joined(literals(term.names, term.values, index as nat), space),
            decreases term.values.len() - index,
        {
            let fragment = &self.fragments[index];
            let ghost parts = literals(term.names, term.values, index as nat);
            if !fragment.logic_load.dont_matter() {
                let literal = fragment.get_string_representation();
                if any {
                    proof {
                        reveal_strlit(" ");
                    }
                    rep.append(" ");
                }
                rep.append(literal.as_str());
                proof {
                    assert(parts.push(literal@).drop_last() =~= parts);
                }
                any = true;
            }
            index += 1;
        }
        rep
    }

    /// The term's pattern: `1`, `0` or `-` for each position.
    pub fn get_binary_representation(&self) -> (rep: String)
        ensures
            rep@ == self@.pattern_text(),
    {
        let ghost term = self@;
        let mut rep = String::new();
        let mut index: usize = 0;
        while index < self.fragments.len()
            invariant
                term == self@,
                index <= term.values.len(),
                rep@ == term.pattern_text().take(index as int),
            decreases term.values.len() - index,
        {
            let fragment = &self.fragments[index];
            let digit = fragment.get_binary_representation();
            rep.append(digit.as_str());
            index += 1;
        }
        rep
    }
}

impl PartialEq for Implicant {
    /// Two implicants are equal when their patterns are: names and the
    /// retirement mark play no part.
    fn eq(&self, other: &Self) -> (r: bool) {
        self.equals(other)
    }
}

impl vstd::std_specs::cmp::PartialEqSpecImpl for Implicant {
    open spec fn obeys_eq_spec() -> bool {
        true
    }

    open spec fn eq_spec(&self, other: &Self) -> bool {
        self@.same_pattern(other@)
    }
}

/// A copy of a list of names.
fn copy_names(names: &Vec<String>) -> (copy: Vec<String>)
    ensures
        copy@.len() == names@.len(),
        forall|i: int| 0 <= i < names@.len() ==> (#[trigger] copy@[i])@ == names@[i]@,
{
    let mut copy: Vec<String> = Vec::new();
    let mut index: usize = 0;
    while index < names.len()
        invariant
            index <= names@.len(),
            copy@.len() == index,
            forall|i: int| 0 <= i < index ==> (#[trigger] copy@[i])@ == names@[i]@,
        decreases names@.len() - index,
    {
        copy.push(names[index].clone());
        index += 1;
    }
    copy
}

} // verus!

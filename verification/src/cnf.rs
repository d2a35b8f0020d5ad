//! Variables, literals, clauses, and the formula that collects them.

use crate::comparator::meaning::value;
use crate::logic::{clause_within, lemma_within_more, variables_within, within};
use vstd::prelude::*;

verus! {

/// A propositional variable: a positive index, issued by one [`CNF`].
#[derive(Clone, Copy, Debug)]
pub struct Variable(usize);

/// A variable or its negation: the variable's index, negative when negated.
#[derive(Clone, Copy, Debug)]
pub struct Literal(isize);

/// A disjunction of literals, in the order in which they were added. Nothing
/// is simplified: a literal may occur twice, or beside its complement.
#[derive(Debug)]
pub struct Clause(Vec<Literal>);

impl View for Variable {
    type V = int;

    closed spec fn view(&self) -> int {
        self.0 as int
    }
}

impl View for Literal {
    type V = int;

    closed spec fn view(&self) -> int {
        self.0 as int
    }
}

impl View for Clause {
    type V = Seq<int>;

    closed spec fn view(&self) -> Seq<int> {
        self.0@.map_values(|l: Literal| l@)
    }
}

/// A formula as a mathematical value: how many variables have been issued,
/// the clauses in the order in which they were added, and the names given to
/// variables, each with its variable's index, in the order of naming.
pub struct Formula {
    pub variables: nat,
    pub clauses: Seq<Seq<int>>,
    pub names: Seq<(int, Seq<char>)>,
}

/// A formula under construction. It grows by new variables and new clauses
/// only; nothing in it is ever changed or removed.
#[allow(non_camel_case_types)]
pub struct CNF {
    variable_count: usize,
    clauses: Vec<Clause>,
    names: Vec<(Variable, String)>,
}

impl View for CNF {
    type V = Formula;

    closed spec fn view(&self) -> Formula {
        Formula {
            variables: self.variable_count as nat,
            clauses: self.clauses@.map_values(|c: Clause| c@),
            names: self.names@.map_values(|n: (Variable, String)| (n.0@, n.1@)),
        }
    }
}

/// The indices of a sequence of variables.
pub open spec fn indices(vs: Seq<Variable>) -> Seq<int> {
    vs.map_values(|v: Variable| v@)
}

/// The signed indices of a sequence of literals.
pub open spec fn signed_indices(ls: Seq<Literal>) -> Seq<int> {
    ls.map_values(|l: Literal| l@)
}

impl Variable {
    #[verifier::type_invariant]
    spec fn in_range(self) -> bool {
        1 <= self.0 <= isize::MAX
    }

    pub(crate) fn new(index: usize) -> (v: Variable)
        requires
            1 <= index <= isize::MAX,
        ensures
            v@ == index,
    {
        Variable(index)
    }

    /// The variable's index.
    pub fn index(self) -> (i: usize)
        ensures
            i == self@,
            1 <= i <= isize::MAX,
    {
        proof {
            use_type_invariant(&self);
        }
        self.0
    }

    /// The literal that asserts this variable.
    pub fn literal(self) -> (l: Literal)
        ensures
            l@ == self@,
    {
        proof {
            use_type_invariant(&self);
        }
        Literal(self.0 as isize)
    }

    /// The literal that denies this variable.
    pub fn negated(self) -> (l: Literal)
        ensures
            l@ == -self@,
    {
        proof {
            use_type_invariant(&self);
        }
        Literal(-(self.0 as isize))
    }
}

impl Variable {
    /// The clause of this variable alone.
    pub fn clause(self) -> (c: Clause)
        ensures
            c@ == seq![self@],
    {
        self.literal().clause()
    }

    /// The clause `self or rhs`.
    pub fn or(self, rhs: Variable) -> (c: Clause)
        ensures
            c@ == seq![self@, rhs@],
    {
        self.literal().or(rhs)
    }

    /// The clause `self or not rhs`.
    pub fn or_not(self, rhs: Variable) -> (c: Clause)
        ensures
            c@ == seq![self@, -rhs@],
    {
        self.literal().or_not(rhs)
    }
}

impl Literal {
    #[verifier::type_invariant]
    spec fn in_range(self) -> bool {
        self.0 != 0 && -isize::MAX <= self.0 <= isize::MAX
    }

    /// The literal as a signed index: never zero, and never the least of all
    /// machine integers.
    pub fn value(self) -> (i: isize)
        ensures
            i == self@,
            i != 0,
            i > isize::MIN,
    {
        proof {
            use_type_invariant(&self);
        }
        self.0
    }

    /// The clause of this literal alone.
    pub fn clause(self) -> (c: Clause)
        ensures
            c@ == seq![self@],
    {
        let c = Clause(vec![self]);
        assert(c@ =~= seq![self@]);
        c
    }

    /// The clause `self or rhs`.
    pub fn or(self, rhs: Variable) -> (c: Clause)
        ensures
            c@ == seq![self@, rhs@],
    {
        self.or_literal(rhs.literal())
    }

    /// The clause `self or not rhs`.
    pub fn or_not(self, rhs: Variable) -> (c: Clause)
        ensures
            c@ == seq![self@, -rhs@],
    {
        self.or_literal(rhs.negated())
    }

    /// The clause `self or rhs`, for two literals.
    pub fn or_literal(self, rhs: Literal) -> (c: Clause)
        ensures
            c@ == seq![self@, rhs@],
    {
        let c = Clause(vec![self, rhs]);
        assert(c@ =~= seq![self@, rhs@]);
        c
    }
}

impl Clause {
    /// The empty clause, which no assignment satisfies.
    pub fn new() -> (c: Clause)
        ensures
            c@ == Seq::<int>::empty(),
    {
        let c = Clause(Vec::new());
        assert(c@ =~= Seq::<int>::empty());
        c
    }

    /// The clause of the given literals, in their order.
    pub fn of(literals: Vec<Literal>) -> (c: Clause)
        ensures
            c@ == signed_indices(literals@),
    {
        Clause(literals)
    }

    /// The clause that asserts each of the given variables, in their order.
    pub fn of_variables(variables: &[Variable]) -> (c: Clause)
        ensures
            c@ == indices(variables@),
    {
        let mut literals: Vec<Literal> = Vec::new();
        for i in 0..variables.len()
            invariant
                literals@.len() == i,
                forall|k: int| 0 <= k < i ==> (#[trigger] literals@[k])@ == variables@[k]@,
        {
            literals.push(variables[i].literal());
        }
        let c = Clause(literals);
        assert(c@ =~= indices(variables@));
        c
    }

    /// This clause with one more literal at its end.
    pub fn with(self, literal: Literal) -> (c: Clause)
        ensures
            c@ == self@.push(literal@),
    {
        let mut literals = self.0;
        literals.push(literal);
        let c = Clause(literals);
        assert(c@ =~= self@.push(literal@));
        c
    }

    /// This clause with the given variable asserted at its end.
    pub fn with_variable(self, variable: Variable) -> (c: Clause)
        ensures
            c@ == self@.push(variable@),
    {
        self.with(variable.literal())
    }

    /// This clause with the given variable denied at its end.
    pub fn with_negated(self, variable: Variable) -> (c: Clause)
        ensures
            c@ == self@.push(-variable@),
    {
        self.with(variable.negated())
    }

    /// The number of literals.
    pub fn len(&self) -> (n: usize)
        ensures
            n == self@.len(),
    {
        self.0.len()
    }

    /// The literal at position `i`.
    pub fn literal(&self, i: usize) -> (l: Literal)
        requires
            i < self@.len(),
        ensures
            l@ == self@[i as int],
    {
        self.0[i]
    }
}

impl Formula {
    /// The formula with no variables, no clauses and no names.
    pub open spec fn empty() -> Formula {
        Formula { variables: 0, clauses: Seq::empty(), names: Seq::empty() }
    }

    /// `v` is the index of a variable that this formula has issued.
    pub open spec fn owns(self, v: int) -> bool {
        1 <= v <= self.variables
    }

    /// Every element of `vs` is a variable of this formula.
    pub open spec fn owns_all(self, vs: Seq<int>) -> bool {
        variables_within(vs, self.variables)
    }

    /// Every literal of `c` is a variable of this formula or the negation of
    /// one.
    pub open spec fn admits(self, c: Seq<int>) -> bool {
        clause_within(c, self.variables)
    }

    /// No clause and no name refers to a variable that was not issued.
    #[verifier::opaque]
    pub open spec fn wf(self) -> bool {
        &&& within(self.clauses, self.variables)
        &&& forall|k: int| 0 <= k < self.names.len() ==> self.owns((#[trigger] self.names[k]).0)
    }

    /// This formula with `c` added as its last clause.
    pub open spec fn with_clause(self, c: Seq<int>) -> Formula {
        Formula { clauses: self.clauses.push(c), ..self }
    }

    /// This formula with the clauses `cs` added at the end, in their order.
    pub open spec fn with_clauses(self, cs: Seq<Seq<int>>) -> Formula {
        Formula { clauses: self.clauses + cs, ..self }
    }

    /// This formula after `n` more variables were issued.
    pub open spec fn with_variables(self, n: nat) -> Formula {
        Formula { variables: self.variables + n, ..self }
    }

    /// This formula after the variables of `names` were issued, each under its
    /// name.
    pub open spec fn with_names(self, names: Seq<(int, Seq<char>)>) -> Formula {
        Formula {
            variables: self.variables + names.len(),
            names: self.names + names,
            ..self
        }
    }

    /// This formula after one more variable was issued under the name `name`.
    pub open spec fn with_named(self, name: Seq<char>) -> Formula {
        Formula {
            variables: self.variables + 1,
            names: self.names.push((self.variables + 1 as int, name)),
            ..self
        }
    }
}

impl Formula {
    /// Variables of a formula are variables of every formula with at least
    /// as many.
    pub proof fn lemma_owns_all_more(self, other: Formula, vs: Seq<int>)
        requires
            self.owns_all(vs),
            self.variables <= other.variables,
        ensures
            other.owns_all(vs),
    {
        assert forall|k: int| 0 <= k < vs.len() implies 1 <= #[trigger] vs[k]
            <= other.variables by {
            assert(1 <= vs[k] <= self.variables);
        }
    }

    /// A formula that owns a list of variables owns each part of it.
    pub proof fn lemma_owns_all_subrange(self, vs: Seq<int>, i: int, j: int)
        requires
            self.owns_all(vs),
            0 <= i <= j <= vs.len(),
        ensures
            self.owns_all(vs.subrange(i, j)),
    {
        assert forall|k: int| 0 <= k < j - i implies 1 <= #[trigger] vs.subrange(i, j)[k]
            <= self.variables by {
            assert(1 <= vs[i + k] <= self.variables);
        }
    }

    /// Issuing variables keeps a formula well-formed.
    pub proof fn lemma_wf_more_variables(self, other: Formula)
        requires
            self.wf(),
            self.variables <= other.variables,
            other.clauses == self.clauses,
            other.names == self.names || (other.names.len() == self.names.len() + 1
                && other.names.drop_last() == self.names && other.owns(other.names.last().0)),
        ensures
            other.wf(),
    {
        reveal(Formula::wf);
        lemma_within_more(self.clauses, self.variables, other.variables);
        assert forall|k: int| 0 <= k < other.names.len() implies other.owns(
            (#[trigger] other.names[k]).0,
        ) by {
            if k < self.names.len() {
                if other.names != self.names {
                    assert(other.names.drop_last()[k] == other.names[k]);
                }
                assert(self.owns(self.names[k].0));
            }
        }
    }

    /// The names of a well-formed formula are names of its own variables.
    pub proof fn lemma_wf_names(self)
        requires
            self.wf(),
        ensures
            forall|k: int| 0 <= k < self.names.len() ==> self.owns((#[trigger] self.names[k]).0),
    {
        reveal(Formula::wf);
    }

    /// A well-formed formula speaks of its own variables only.
    pub proof fn lemma_wf_within(self)
        requires
            self.wf(),
        ensures
            within(self.clauses, self.variables),
    {
        reveal(Formula::wf);
    }
}

impl CNF {
    /// The formula keeps its invariant, and its variables can be written as
    /// literals.
    pub open spec fn wf(&self) -> bool {
        self@.wf() && self@.variables <= isize::MAX
    }

    /// An empty formula.
    pub fn new() -> (cnf: CNF)
        ensures
            cnf@ == Formula::empty(),
            cnf.wf(),
    {
        let cnf = CNF { variable_count: 0, clauses: Vec::new(), names: Vec::new() };
        proof {
            reveal(Formula::wf);
            assert(cnf@.clauses =~= Seq::empty());
            assert(cnf@.names =~= Seq::empty());
        }
        cnf
    }

    /// Adds `clause` as the last clause.
    pub fn add_clause(&mut self, clause: Clause)
        requires
            old(self).wf(),
            old(self)@.admits(clause@),
        ensures
            final(self)@ == old(self)@.with_clause(clause@),
            final(self).wf(),
    {
        self.clauses.push(clause);
        proof {
            reveal(Formula::wf);
            assert(self@.clauses =~= old(self)@.clauses.push(clause@));
        }
    }

    /// Issues the next variable, without a name.
    pub fn new_variable(&mut self) -> (v: Variable)
        requires
            old(self).wf(),
            old(self)@.variables < isize::MAX,
        ensures
            final(self)@ == old(self)@.with_variables(1),
            v@ == final(self)@.variables,
            final(self).wf(),
    {
        self.variable_count += 1;
        proof {
            old(self)@.lemma_wf_more_variables(self@);
        }
        Variable::new(self.variable_count)
    }

    /// Issues the next variable and records `name` for it. Names need not be
    /// distinct.
    pub fn new_named_variable(&mut self, name: String) -> (v: Variable)
        requires
            old(self).wf(),
            old(self)@.variables < isize::MAX,
        ensures
            final(self)@ == old(self)@.with_named(name@),
            v@ == final(self)@.variables,
            final(self).wf(),
    {
        self.variable_count += 1;
        let variable = Variable::new(self.variable_count);
        self.names.push((variable, name));
        proof {
            assert(self@.names =~= old(self)@.names.push((variable@, name@)));
            assert(self@.names.drop_last() =~= old(self)@.names);
            old(self)@.lemma_wf_more_variables(self@);
        }
        variable
    }
}

impl CNF {
    /// How many variables have been issued.
    pub fn variable_count(&self) -> (n: usize)
        ensures
            n == self@.variables,
    {
        self.variable_count
    }

    /// How many clauses the formula has.
    pub fn clause_count(&self) -> (n: usize)
        ensures
            n == self@.clauses.len(),
    {
        self.clauses.len()
    }

    /// The clause at position `i`.
    pub fn clause(&self, i: usize) -> (c: &Clause)
        requires
            i < self@.clauses.len(),
        ensures
            c@ == self@.clauses[i as int],
    {
        &self.clauses[i]
    }

    /// How many variables were given a name.
    pub fn name_count(&self) -> (n: usize)
        ensures
            n == self@.names.len(),
    {
        self.names.len()
    }

    /// The variable that was named at position `i`.
    pub fn named_variable(&self, i: usize) -> (v: Variable)
        requires
            i < self@.names.len(),
        ensures
            v@ == self@.names[i as int].0,
    {
        self.names[i].0
    }

    /// The name that was given at position `i`.
    pub fn name(&self, i: usize) -> (name: &str)
        requires
            i < self@.names.len(),
        ensures
            name@ == self@.names[i as int].1,
    {
        self.names[i].1.as_str()
    }
}

impl Default for Clause {
    fn default() -> (c: Clause)
        ensures
            c@ == Seq::<int>::empty(),
    {
        Clause::new()
    }
}

impl Default for CNF {
    fn default() -> (cnf: CNF)
        ensures
            cnf@ == Formula::empty(),
            cnf.wf(),
    {
        CNF::new()
    }
}

} // verus!

//! A formula written out in the DIMACS format for conjunctive normal forms.

use crate::cnf::{Clause, Formula, Literal, Variable, CNF};
use crate::logic::{joined, lemma_append_assoc, lemma_join_next};
use crate::text::{decimal, push_decimal, push_signed_decimal, signed_decimal};
use vstd::prelude::*;
use vstd::string::StringExecFns;

verus! {

/// Literal `k` of a clause, followed by a space, as a function of `k`.
pub open spec fn literal_text_at(c: Seq<int>) -> spec_fn(int) -> Seq<char> {
    |k: int| signed_decimal(c[k]) + " "@
}

/// The line of a clause: its literals, each followed by a space, and a zero.
pub open spec fn clause_text(c: Seq<int>) -> Seq<char> {
    joined(c.len(), literal_text_at(c)) + "0"@
}

/// The comment line that gives a variable's name, with the end of the line.
pub open spec fn comment_text(name: (int, Seq<char>)) -> Seq<char> {
    "c "@ + name.1 + " := "@ + decimal(name.0 as nat) + "\n"@
}

/// The comment line of name `k`, as a function of `k`.
pub open spec fn comment_text_at(names: Seq<(int, Seq<char>)>) -> spec_fn(int) -> Seq<char> {
    |k: int| comment_text(names[k])
}

/// The header line, which gives the numbers of variables and of clauses.
pub open spec fn header_text(variables: nat, clauses: nat) -> Seq<char> {
    "p cnf "@ + decimal(variables) + " "@ + decimal(clauses)
}

/// The line of clause `k`, with the end of the line before it, as a function
/// of `k`.
pub open spec fn clause_line_at(clauses: Seq<Seq<int>>) -> spec_fn(int) -> Seq<char> {
    |k: int| "\n"@ + clause_text(clauses[k])
}

/// The formula in the DIMACS format: one comment line for each name, the
/// header line, and one line for each clause. The last line is not ended.
pub open spec fn dimacs(f: Formula) -> Seq<char> {
    joined(f.names.len(), comment_text_at(f.names)) + header_text(f.variables, f.clauses.len())
        + joined(f.clauses.len(), clause_line_at(f.clauses))
}

impl Variable {
    /// The variable as it is written in the DIMACS format: its index in
    /// decimal.
    pub fn to_dimacs(&self) -> (text: String)
        ensures
            text@ == decimal(self@ as nat),
    {
        let mut text = String::new();
        push_decimal(&mut text, self.index());
        assert(text@ =~= decimal(self@ as nat));
        text
    }
}

impl Literal {
    /// The literal as it is written in the DIMACS format: its variable's
    /// index in decimal, with a minus sign before it if the variable is
    /// denied.
    pub fn to_dimacs(&self) -> (text: String)
        ensures
            text@ == signed_decimal(self@),
    {
        let mut text = String::new();
        push_signed_decimal(&mut text, self.value());
        assert(text@ =~= signed_decimal(self@));
        text
    }
}

impl Clause {
    /// Appends the line of this clause to `out`.
    fn write_dimacs(&self, out: &mut String)
        ensures
            final(out)@ == old(out)@ + clause_text(self@),
    {
        let ghost start = out@;
        let ghost part = literal_text_at(self@);
        assert(out@ =~= start + joined(0, part));
        let n = self.len();
        for k in 0..n
            invariant
                n == self@.len(),
                start == old(out)@,
                part == literal_text_at(self@),
                out@ == start + joined(k as nat, part),
        {
            let ghost before = out@;
            push_signed_decimal(out, self.literal(k).value());
            out.append(" ");
            proof {
                lemma_append_assoc(before, signed_decimal(self@[k as int]), " "@);
                lemma_join_next(start, k as nat, part);
            }
        }
        out.append("0");
        proof {
            lemma_append_assoc(start, joined(self@.len(), part), "0"@);
        }
    }

    /// The line of this clause in the DIMACS format: its literals, each
    /// followed by a space, and a zero.
    pub fn to_dimacs(&self) -> (text: String)
        ensures
            text@ == clause_text(self@),
    {
        let mut text = String::new();
        self.write_dimacs(&mut text);
        assert(text@ =~= clause_text(self@));
        text
    }
}

impl CNF {
    /// The formula in the DIMACS format: one comment line for each name, then
    /// the header line, then one line for each clause.
    pub fn to_dimacs(&self) -> (text: String)
        ensures
            text@ == dimacs(self@),
    {
        let mut text = String::new();
        let ghost comments = comment_text_at(self@.names);
        assert(text@ =~= joined(0, comments));
        let named_count = self.name_count();
        for k in 0..named_count
            invariant
                named_count == self@.names.len(),
                comments == comment_text_at(self@.names),
                text@ == joined(k as nat, comments),
        {
            let ghost before = text@;
            text.append("c ");
            text.append(self.name(k));
            text.append(" := ");
            push_decimal(&mut text, self.named_variable(k).index());
            text.append("\n");
            proof {
                let name = self@.names[k as int];
                assert(text@ =~= before + comment_text(name));
                lemma_join_next(Seq::<char>::empty(), k as nat, comments);
                assert(Seq::<char>::empty() + joined(k as nat, comments) =~= joined(
                    k as nat,
                    comments,
                ));
                assert(Seq::<char>::empty() + joined((k + 1) as nat, comments) =~= joined(
                    (k + 1) as nat,
                    comments,
                ));
            }
        }
        let ghost named = text@;
        text.append("p cnf ");
        push_decimal(&mut text, self.variable_count());
        text.append(" ");
        push_decimal(&mut text, self.clause_count());
        let ghost headed = named + header_text(self@.variables, self@.clauses.len());
        assert(text@ =~= headed);

        let ghost lines = clause_line_at(self@.clauses);
        assert(text@ =~= headed + joined(0, lines));
        let clause_count = self.clause_count();
        for k in 0..clause_count
            invariant
                clause_count == self@.clauses.len(),
                lines == clause_line_at(self@.clauses),
                text@ == headed + joined(k as nat, lines),
        {
            let ghost before = text@;
            text.append("\n");
            self.clause(k).write_dimacs(&mut text);
            proof {
                lemma_append_assoc(before, "\n"@, clause_text(self@.clauses[k as int]));
                lemma_join_next(headed, k as nat, lines);
            }
        }
        text
    }
}

} // verus!

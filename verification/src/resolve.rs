//! Reading a solver's answer back into the names of a formula.
//!
//! The formula is given as its text in the DIMACS format, of which only the
//! comment lines at its head are read: each has the form
//! `c <name> := <variable>`. The answer is a list of tokens, set apart by
//! white space, in which the token at position `v - 1` speaks of variable
//! `v`: a token that starts with a minus sign says that the variable is
//! false, any other that it is true.

use vstd::prelude::*;
use vstd::slice::{slice_subrange, slice_to_vec};

verus! {

/// Why an answer could not be read back.
#[derive(Debug, PartialEq, Eq)]
pub enum ResolveError {
    /// The comment line that starts at this place of the text does not have
    /// the form `c <name> := <variable>`, or its variable is not a number
    /// that this machine can hold.
    Malformed(usize),
    /// The comment line that starts at this place of the text names variable
    /// zero, which no formula has.
    NoVariable(usize),
    /// The answer is too short: it gives no value to this variable.
    Unassigned(usize),
}

/// The line feed, which ends a line.
pub const LINE_FEED: u8 = 10;

/// The carriage return, which may stand before a line feed.
pub const CARRIAGE_RETURN: u8 = 13;

/// The letter that a comment line starts with.
pub const COMMENT: u8 = 99;

/// The space.
pub const SPACE: u8 = 32;

/// The colon.
pub const COLON: u8 = 58;

/// The sign of equality.
pub const EQUALS: u8 = 61;

/// The plus sign.
pub const PLUS: u8 = 43;

/// The minus sign.
pub const MINUS: u8 = 45;

/// The digit zero.
pub const ZERO: u8 = 48;

/// White space: a space, a tab, a line feed, a vertical tab, a form feed or
/// a carriage return.
pub open spec fn is_space(byte: u8) -> bool {
    byte == 32 || (9 <= byte <= 13)
}

/// Where the line that starts at `from` ends: at the next line feed, or at
/// the end of the text.
pub open spec fn line_end(text: Seq<u8>, from: int) -> int
    decreases text.len() - from,
{
    if from >= text.len() || text[from] == LINE_FEED {
        from
    } else {
        line_end(text, from + 1)
    }
}

/// The line of the text from `from` to its end at `end`, without the
/// carriage return before a line feed.
pub open spec fn line_at(text: Seq<u8>, from: int, end: int) -> Seq<u8> {
    if from < end < text.len() && text[end - 1] == CARRIAGE_RETURN {
        text.subrange(from, end - 1)
    } else {
        text.subrange(from, end)
    }
}

/// The four characters ` := ` stand in `line` from position `p` on.
pub open spec fn separates(line: Seq<u8>, p: int) -> bool {
    &&& 0 <= p
    &&& p + 4 <= line.len()
    &&& line[p] == SPACE
    &&& line[p + 1] == COLON
    &&& line[p + 2] == EQUALS
    &&& line[p + 3] == SPACE
}

/// The characters are decimal digits.
pub open spec fn all_digits(digits: Seq<u8>) -> bool {
    forall|k: int| 0 <= k < digits.len() ==> ZERO <= #[trigger] digits[k] <= ZERO + 9
}

/// The number that decimal digits spell.
pub open spec fn number(digits: Seq<u8>) -> nat
    decreases digits.len(),
{
    if digits.len() == 0 {
        0
    } else {
        10 * number(digits.drop_last()) + (digits.last() - ZERO) as nat
    }
}

/// The digits of a number that may have a plus sign before it.
pub open spec fn unsigned(word: Seq<u8>) -> Seq<u8> {
    if word.len() > 0 && word[0] == PLUS {
        word.drop_first()
    } else {
        word
    }
}

/// A number as this machine reads it: at least one decimal digit, with or
/// without a plus sign before, and a value that a machine word can hold.
pub open spec fn is_number(word: Seq<u8>) -> bool {
    &&& unsigned(word).len() > 0
    &&& all_digits(unsigned(word))
    &&& number(unsigned(word)) <= usize::MAX
}

/// The place `p` is where a comment line of the form
/// `c <name> := <variable>` is cut: the line starts with `c` and a space, the
/// first ` := ` of the line stands at `p`, and a number follows it.
pub open spec fn binds(line: Seq<u8>, p: int) -> bool {
    &&& 2 <= p
    &&& line[0] == COMMENT
    &&& line[1] == SPACE
    &&& separates(line, p)
    &&& forall|q: int| 0 <= q < p ==> !separates(line, q)
    &&& is_number(line.subrange(p + 4, line.len() as int))
}

/// The line has the form `c <name> := <variable>`.
pub open spec fn well_formed(line: Seq<u8>) -> bool {
    exists|p: int| binds(line, p)
}

/// Where a well-formed comment line is cut.
pub open spec fn cut(line: Seq<u8>) -> int {
    choose|p: int| binds(line, p)
}

/// The name that a well-formed comment line gives.
pub open spec fn name_of(line: Seq<u8>) -> Seq<u8> {
    line.subrange(2, cut(line))
}

/// The variable that a well-formed comment line names.
pub open spec fn variable_of(line: Seq<u8>) -> nat {
    number(unsigned(line.subrange(cut(line) + 4, line.len() as int)))
}

/// The values that the tokens of an answer give, from the place `from` of
/// its text on: one for each token, `false` for a token that starts with a
/// minus sign and `true` for any other.
pub open spec fn values_from(text: Seq<u8>, from: int) -> Seq<bool>
    decreases text.len() - from, 1int,
{
    if from >= text.len() {
        Seq::empty()
    } else if is_space(text[from]) {
        values_from(text, from + 1)
    } else {
        seq![text[from] != MINUS] + rest_from(text, from + 1)
    }
}

/// The values of the tokens after the one that the place `from` lies in.
pub open spec fn rest_from(text: Seq<u8>, from: int) -> Seq<bool>
    decreases text.len() - from, 0int,
{
    if from >= text.len() {
        Seq::empty()
    } else if is_space(text[from]) {
        values_from(text, from + 1)
    } else {
        rest_from(text, from + 1)
    }
}

/// The values that an answer gives to the variables, the value of variable
/// `v` at position `v - 1`.
pub open spec fn values(answer: Seq<u8>) -> Seq<bool> {
    values_from(answer, 0)
}

/// What is wrong with the comment line that starts at `from`, if anything.
pub open spec fn fault(text: Seq<u8>, answer: Seq<u8>, from: int) -> Option<ResolveError> {
    let line = line_at(text, from, line_end(text, from));
    if !well_formed(line) {
        Some(ResolveError::Malformed(from as usize))
    } else if variable_of(line) == 0 {
        Some(ResolveError::NoVariable(from as usize))
    } else if variable_of(line) > values(answer).len() {
        Some(ResolveError::Unassigned(variable_of(line) as usize))
    } else {
        None
    }
}

/// The name of the comment line that starts at `from`, with the value that
/// the answer gives to its variable.
pub open spec fn reading(text: Seq<u8>, answer: Seq<u8>, from: int) -> (Seq<u8>, bool) {
    let line = line_at(text, from, line_end(text, from));
    (name_of(line), values(answer)[variable_of(line) - 1])
}

/// What resolving gives for the comment lines from the place `from` of the
/// text on: what is wrong with the first line at fault, or else the name of
/// each line with the value of its variable. The comment lines end at the
/// first line that does not start with `c`.
pub open spec fn resolved_from(text: Seq<u8>, answer: Seq<u8>, from: int) -> Result<
    Seq<(Seq<u8>, bool)>,
    ResolveError,
>
    decreases text.len() + 1 - from,
    when from >= 0
{
    if from >= text.len() || text[from] != COMMENT {
        Ok(Seq::empty())
    } else {
        proof {
            lemma_line_end(text, from);
        }
        match fault(text, answer, from) {
            Some(e) => Err(e),
            None => match resolved_from(text, answer, line_end(text, from) + 1) {
                Err(e) => Err(e),
                Ok(rest) => Ok(seq![reading(text, answer, from)] + rest),
            },
        }
    }
}

/// The names of a list with their values, as mathematical sequences.
pub open spec fn readings(values: Seq<(Vec<u8>, bool)>) -> Seq<(Seq<u8>, bool)> {
    values.map_values(|v: (Vec<u8>, bool)| (v.0@, v.1))
}

/// A line ends at or after its start, and within the text.
pub proof fn lemma_line_end(text: Seq<u8>, from: int)
    requires
        0 <= from <= text.len(),
    ensures
        from <= line_end(text, from) <= text.len(),
        line_end(text, from) < text.len() ==> text[line_end(text, from)] == LINE_FEED,
        forall|k: int| from <= k < line_end(text, from) ==> text[k] != LINE_FEED,
    decreases text.len() - from,
{
    if from < text.len() && text[from] != LINE_FEED {
        lemma_line_end(text, from + 1);
    }
}

/// A line is cut at one place at most.
pub proof fn lemma_one_cut(line: Seq<u8>, p: int, q: int)
    requires
        binds(line, p),
        binds(line, q),
    ensures
        p == q,
{
    if p < q {
        assert(!separates(line, p));
    }
    if q < p {
        assert(!separates(line, q));
    }
}

/// The digits at the head of a number spell a number that is not larger.
pub proof fn lemma_number_grows(digits: Seq<u8>, k: int)
    requires
        0 <= k <= digits.len(),
        all_digits(digits),
    ensures
        number(digits.take(k)) <= number(digits),
    decreases digits.len() - k,
{
    if k < digits.len() {
        lemma_number_grows(digits, k + 1);
        assert(digits.take(k + 1).drop_last() =~= digits.take(k));
        assert(ZERO <= digits[k] <= ZERO + 9);
    } else {
        assert(digits.take(k) =~= digits);
    }
}

/// Finds the end of the line that starts at `from`.
fn find_line_end(text: &[u8], from: usize) -> (end: usize)
    requires
        from <= text@.len(),
    ensures
        end == line_end(text@, from as int),
        from <= end <= text@.len(),
{
    let mut end = from;
    while end < text.len() && text[end] != LINE_FEED
        invariant
            from <= end <= text@.len(),
            line_end(text@, end as int) == line_end(text@, from as int),
        decreases text@.len() - end,
    {
        end += 1;
    }
    end
}

/// Finds the first place of a line where ` := ` stands.
fn find_separator(line: &[u8]) -> (place: Option<usize>)
    ensures
        match place {
            Some(p) => separates(line@, p as int) && forall|q: int|
                0 <= q < p ==> !separates(line@, q),
            None => forall|q: int| 0 <= q ==> !separates(line@, q),
        },
{
    let mut p: usize = 0;
    while line.len() >= 4 && p <= line.len() - 4
        invariant
            forall|q: int| 0 <= q < p ==> !separates(line@, q),
            p <= line@.len(),
        decreases line@.len() - p,
    {
        if line[p] == SPACE && line[p + 1] == COLON && line[p + 2] == EQUALS && line[p + 3]
            == SPACE {
            return Some(p);
        }
        p += 1;
    }
    None
}

/// Reads a number as this machine reads one.
fn read_number(word: &[u8]) -> (value: Option<usize>)
    ensures
        match value {
            Some(n) => is_number(word@) && n == number(unsigned(word@)),
            None => !is_number(word@),
        },
{
    let start: usize = if word.len() > 0 && word[0] == PLUS {
        1
    } else {
        0
    };
    let ghost digits = unsigned(word@);
    assert(digits =~= word@.subrange(start as int, word@.len() as int));
    if start == word.len() {
        return None;
    }
    let mut value: usize = 0;
    assert(digits.take(0) =~= Seq::<u8>::empty());
    for k in start..word.len()
        invariant
            start <= word@.len(),
            digits == unsigned(word@),
            digits == word@.subrange(start as int, word@.len() as int),
            all_digits(digits.take(k - start)),
            value == number(digits.take(k - start)),
    {
        let byte = word[k];
        let ghost head = digits.take(k - start);
        let ghost longer = digits.take(k - start + 1);
        assert(longer.drop_last() =~= head);
        assert(longer.last() == byte);
        if byte < ZERO || byte > ZERO + 9 {
            assert(!all_digits(digits)) by {
                assert(digits[k - start] == byte);
            }
            return None;
        }
        assert(all_digits(longer)) by {
            assert forall|j: int| 0 <= j < longer.len() implies ZERO <= #[trigger] longer[j]
                <= ZERO + 9 by {
                if j < head.len() {
                    assert(head[j] == longer[j]);
                }
            }
        }
        let shifted = match value.checked_mul(10) {
            Some(s) => s,
            None => {
                proof {
                    if all_digits(digits) {
                        lemma_number_grows(digits, k - start + 1);
                    }
                }
                return None;
            },
        };
        value = match shifted.checked_add((byte - ZERO) as usize) {
            Some(s) => s,
            None => {
                proof {
                    if all_digits(digits) {
                        lemma_number_grows(digits, k - start + 1);
                    }
                }
                return None;
            },
        };
    }
    assert(digits.take(word@.len() - start) =~= digits);
    Some(value)
}

/// Reads a comment line: where it is cut, and the variable that it names.
fn read_binding(line: &[u8]) -> (binding: Option<(usize, usize)>)
    ensures
        match binding {
            Some((p, v)) => well_formed(line@) && p == cut(line@) && v == variable_of(line@) && 2
                <= p <= line@.len(),
            None => !well_formed(line@),
        },
{
    if line.len() < 2 || line[0] != COMMENT || line[1] != SPACE {
        return None;
    }
    let p = match find_separator(line) {
        Some(p) => p,
        None => {
            return None;
        },
    };
    if p < 2 {
        assert forall|q: int| !binds(line@, q) by {
            if binds(line@, q) {
                if p < q {
                    assert(!separates(line@, p as int));
                }
            }
        }
        return None;
    }
    match read_number(slice_subrange(line, p + 4, line.len())) {
        Some(v) => {
            proof {
                assert(binds(line@, p as int));
                lemma_one_cut(line@, p as int, cut(line@));
            }
            Some((p, v))
        },
        None => {
            assert forall|q: int| !binds(line@, q) by {
                if binds(line@, q) {
                    if p < q {
                        assert(!separates(line@, p as int));
                    }
                    if q < p {
                        assert(!separates(line@, q));
                    }
                }
            }
            None
        },
    }
}

/// Reads the values that an answer gives to the variables: one for each
/// token, `false` for a token that starts with a minus sign and `true` for
/// any other.
pub fn read_answer(answer: &[u8]) -> (read: Vec<bool>)
    ensures
        read@ == values(answer@),
{
    let mut read: Vec<bool> = Vec::new();
    let mut inside = false;
    assert(read@ + values_from(answer@, 0) =~= values(answer@));
    for k in 0..answer.len()
        invariant
            values(answer@) == read@ + (if inside {
                rest_from(answer@, k as int)
            } else {
                values_from(answer@, k as int)
            }),
    {
        let byte = answer[k];
        let space = byte == 32 || (9 <= byte && byte <= 13);
        let ghost before = read@;
        if space {
            inside = false;
        } else if !inside {
            read.push(byte != MINUS);
            inside = true;
            assert(read@ + rest_from(answer@, k + 1) =~= before + values_from(answer@, k as int));
        }
    }
    assert(read@ + Seq::<bool>::empty() =~= read@);
    read
}

/// Gives each name of a formula the value of its variable in a solver's
/// answer. `formula` is the text of the formula, of which the comment lines
/// at its head are read; `answer` is the text of the answer. The names come
/// out in the order of their lines. Fails at the first comment line that is
/// malformed or whose variable the answer does not reach.
pub fn resolve(formula: &[u8], answer: &[u8]) -> (result: Result<
    Vec<(Vec<u8>, bool)>,
    ResolveError,
>)
    ensures
        match resolved_from(formula@, answer@, 0) {
            Ok(named) => result.is_ok() && readings(result.unwrap()@) == named,
            Err(e) => result == Err::<Vec<(Vec<u8>, bool)>, ResolveError>(e),
        },
{
    let assignments = read_answer(answer);
    let mut named: Vec<(Vec<u8>, bool)> = Vec::new();
    let mut from: usize = 0;
    let ghost whole = resolved_from(formula@, answer@, 0);
    assert(readings(named@) + Seq::<(Seq<u8>, bool)>::empty() =~= readings(named@));
    assert(match resolved_from(formula@, answer@, 0) {
        Ok(rest) => whole == Ok::<Seq<(Seq<u8>, bool)>, ResolveError>(readings(named@) + rest),
        Err(e) => whole == Err::<Seq<(Seq<u8>, bool)>, ResolveError>(e),
    }) by {
        match resolved_from(formula@, answer@, 0) {
            Ok(rest) => {
                assert(readings(named@) + rest =~= rest);
            },
            Err(e) => {},
        }
    }
    while from < formula.len() && formula[from] == COMMENT
        invariant
            from <= formula@.len(),
            assignments@ == values(answer@),
            whole == resolved_from(formula@, answer@, 0),
            match resolved_from(formula@, answer@, from as int) {
                Ok(rest) => whole == Ok::<Seq<(Seq<u8>, bool)>, ResolveError>(
                    readings(named@) + rest,
                ),
                Err(e) => whole == Err::<Seq<(Seq<u8>, bool)>, ResolveError>(e),
            },
        decreases formula@.len() - from,
    {
        let end = find_line_end(formula, from);
        let stop = if from < end && end < formula.len() && formula[end - 1] == CARRIAGE_RETURN {
            end - 1
        } else {
            end
        };
        let line = slice_subrange(formula, from, stop);
        assert(line@ == line_at(formula@, from as int, end as int));
        let (p, variable) = match read_binding(line) {
            Some(binding) => binding,
            None => {
                return Err(ResolveError::Malformed(from));
            },
        };
        if variable == 0 {
            return Err(ResolveError::NoVariable(from));
        }
        if variable > assignments.len() {
            return Err(ResolveError::Unassigned(variable));
        }
        let name = slice_to_vec(slice_subrange(line, 2, p));
        let value = assignments[variable - 1];
        let ghost before = readings(named@);
        named.push((name, value));
        proof {
            let next = resolved_from(formula@, answer@, end + 1);
            let this = reading(formula@, answer@, from as int);
            assert(readings(named@) =~= before.push(this));
            match next {
                Ok(rest) => {
                    assert(before + (seq![this] + rest) =~= readings(named@) + rest);
                },
                Err(e) => {},
            }
        }
        from = if end < formula.len() {
            end + 1
        } else {
            end
        };
    }
    proof {
        match resolved_from(formula@, answer@, from as int) {
            Ok(rest) => {
                assert(readings(named@) + rest =~= readings(named@));
            },
            Err(e) => {},
        }
    }
    Ok(named)
}

} // verus!

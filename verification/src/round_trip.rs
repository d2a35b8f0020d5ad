//! What is written is read back: the names of a formula, written out in the
//! DIMACS format and resolved against an answer, come back with the values
//! that the answer gives to their variables. The text is taken as its bytes
//! in UTF-8, which are what a file of it holds.

use crate::cnf::Formula;
use crate::dimacs::{clause_line_at, comment_text, comment_text_at, dimacs, header_text};
use crate::logic::joined;
use crate::resolve::{
    all_digits, binds, cut, fault, lemma_one_cut, line_at, line_end, name_of, number, reading,
    resolved_from, separates, unsigned, values, variable_of, well_formed, ResolveError,
    CARRIAGE_RETURN, COLON, COMMENT, EQUALS, LINE_FEED, SPACE, ZERO,
};
use crate::text::{decimal, digit};
use vstd::prelude::*;
use vstd::utf8::{encode_scalar, encode_utf8, is_ascii_chars, is_ascii_chars_encode_utf8};

verus! {

/// The number `n` in decimal, as bytes.
pub open spec fn decimal_bytes(n: nat) -> Seq<u8>
    decreases n,
{
    if n < 10 {
        seq![(ZERO + n) as u8]
    } else {
        decimal_bytes(n / 10).push((ZERO + n % 10) as u8)
    }
}

/// The start of a comment line: the letter `c` and a space.
pub open spec fn opening() -> Seq<u8> {
    seq![COMMENT, SPACE]
}

/// What stands between a name and its variable: ` := `.
pub open spec fn separator() -> Seq<u8> {
    seq![SPACE, COLON, EQUALS, SPACE]
}

/// The comment line that gives the name `name` to variable `v`, without the
/// end of the line.
#[verifier::opaque]
pub open spec fn comment_bytes(name: Seq<u8>, v: nat) -> Seq<u8> {
    opening() + name + separator() + decimal_bytes(v)
}

/// A name that can be read back: it holds no line feed, and ` := ` stands
/// nowhere in it, nor across its ends in a comment line.
#[verifier::opaque]
pub open spec fn plain(name: Seq<u8>) -> bool {
    &&& forall|k: int| 0 <= k < name.len() ==> #[trigger] name[k] != LINE_FEED
    &&& forall|q: int| 0 <= q < 2 + name.len() ==> !separates(opening() + name + separator(), q)
}

/// A number in decimal is made of digits, and spells the number.
pub proof fn lemma_decimal_bytes(n: nat)
    ensures
        decimal_bytes(n).len() > 0,
        all_digits(decimal_bytes(n)),
        number(decimal_bytes(n)) == n,
    decreases n,
{
    let d = decimal_bytes(n);
    if n < 10 {
        assert(d.drop_last() =~= Seq::<u8>::empty());
        assert(number(d.drop_last()) == 0);
    } else {
        lemma_decimal_bytes(n / 10);
        let head = decimal_bytes(n / 10);
        assert(d.drop_last() =~= head);
        assert forall|k: int| 0 <= k < d.len() implies ZERO <= #[trigger] d[k] <= ZERO + 9 by {
            if k < head.len() {
                assert(d[k] == head[k]);
            }
        }
    }
}

/// A comment line as it is written is well-formed, and gives its name and
/// its variable when it is read.
pub proof fn lemma_comment_read(name: Seq<u8>, v: nat)
    requires
        plain(name),
        v <= usize::MAX,
    ensures
        well_formed(comment_bytes(name, v)),
        name_of(comment_bytes(name, v)) == name,
        variable_of(comment_bytes(name, v)) == v,
        forall|k: int|
            0 <= k < comment_bytes(name, v).len() ==> #[trigger] comment_bytes(name, v)[k]
                != LINE_FEED,
        comment_bytes(name, v).len() > 0,
        comment_bytes(name, v)[0] == COMMENT,
        comment_bytes(name, v).last() != CARRIAGE_RETURN,
{
    reveal(comment_bytes);
    reveal(plain);
    let line = comment_bytes(name, v);
    let head = opening() + name + separator();
    let p = 2 + name.len() as int;
    lemma_decimal_bytes(v);
    let digits = decimal_bytes(v);
    assert(line =~= head + digits);
    assert(line.subrange(p + 4, line.len() as int) =~= digits);
    assert(ZERO <= digits[0] <= ZERO + 9);
    assert(unsigned(digits) == digits);
    assert(separates(line, p));
    assert forall|q: int| 0 <= q < p implies !separates(line, q) by {
        assert(!separates(head, q));
        assert(q + 4 <= head.len());
        assert(line[q] == head[q] && line[q + 1] == head[q + 1] && line[q + 2] == head[q + 2]
            && line[q + 3] == head[q + 3]);
    }
    assert(binds(line, p));
    lemma_one_cut(line, p, cut(line));
    assert(line.subrange(2, p) =~= name);
    assert forall|k: int| 0 <= k < line.len() implies #[trigger] line[k] != LINE_FEED by {
        if 2 <= k < p {
            assert(line[k] == name[k - 2]);
        } else if k >= p + 4 {
            assert(line[k] == digits[k - p - 4]);
            assert(ZERO <= digits[k - p - 4] <= ZERO + 9);
        }
    }
    assert(line.last() == digits.last());
    assert(ZERO <= digits[digits.len() - 1] <= ZERO + 9);
}

/// A line that stands in a text before a line feed ends at that line feed.
pub proof fn lemma_line_found(text: Seq<u8>, from: int, line: Seq<u8>)
    requires
        0 <= from,
        from + line.len() < text.len(),
        text.subrange(from, from + line.len()) == line,
        text[from + line.len()] == LINE_FEED,
        forall|k: int| 0 <= k < line.len() ==> #[trigger] line[k] != LINE_FEED,
    ensures
        line_end(text, from) == from + line.len(),
    decreases line.len(),
{
    if line.len() > 0 {
        assert(text[from] == line[0]);
        let rest = line.drop_first();
        assert(text.subrange(from + 1, from + 1 + rest.len()) =~= rest);
        assert forall|k: int| 0 <= k < rest.len() implies #[trigger] rest[k] != LINE_FEED by {
            assert(rest[k] == line[k + 1]);
        }
        lemma_line_found(text, from + 1, rest);
    }
}

/// Where part `k` of lists that are put together stands: after the parts
/// before it.
pub proof fn lemma_joined_at<A>(n: nat, k: int, part: spec_fn(int) -> Seq<A>)
    requires
        0 <= k < n,
    ensures
        joined((k + 1) as nat, part).len() == joined(k as nat, part).len() + part(k).len(),
        joined((k + 1) as nat, part).len() <= joined(n, part).len(),
        joined(n, part).subrange(
            joined(k as nat, part).len() as int,
            joined((k + 1) as nat, part).len() as int,
        ) == part(k),
    decreases n,
{
    if k == n - 1 {
        assert(joined(n, part).subrange(
            joined(k as nat, part).len() as int,
            joined(n, part).len() as int,
        ) =~= part(k));
    } else {
        lemma_joined_at((n - 1) as nat, k, part);
        let shorter = joined((n - 1) as nat, part);
        let lo = joined(k as nat, part).len() as int;
        let hi = joined((k + 1) as nat, part).len() as int;
        assert(joined(n, part).subrange(lo, hi) =~= shorter.subrange(lo, hi));
    }
}

/// The comment line of name `k`, with the end of the line, as a function of
/// `k`.
pub open spec fn comment_line_at(names: Seq<(int, Seq<u8>)>) -> spec_fn(int) -> Seq<u8> {
    |k: int| comment_bytes(names[k].1, names[k].0 as nat).push(LINE_FEED)
}

/// The comment lines of all names, one after the other.
pub open spec fn comment_lines(names: Seq<(int, Seq<u8>)>) -> Seq<u8> {
    joined(names.len(), comment_line_at(names))
}

/// The names can be read back, and the answer gives a value to the variable
/// of each.
pub open spec fn answered(names: Seq<(int, Seq<u8>)>, answer: Seq<u8>) -> bool {
    forall|k: int|
        0 <= k < names.len() ==> plain((#[trigger] names[k]).1) && 1 <= names[k].0 <= values(
            answer,
        ).len() && names[k].0 <= usize::MAX
}

/// The names from the one at position `k` on, each with the value that the
/// answer gives to its variable.
pub open spec fn answers_from(names: Seq<(int, Seq<u8>)>, answer: Seq<u8>, k: int) -> Seq<
    (Seq<u8>, bool),
> {
    Seq::new(
        (names.len() - k) as nat,
        |j: int| (names[k + j].1, values(answer)[names[k + j].0 - 1]),
    )
}

/// A comment line that stands in a text as it was written, before a line
/// feed, is read without fault, and gives its name with the value of its
/// variable.
pub proof fn lemma_line_resolved(
    text: Seq<u8>,
    answer: Seq<u8>,
    from: int,
    name: Seq<u8>,
    v: nat,
)
    requires
        0 <= from,
        plain(name),
        1 <= v <= values(answer).len(),
        v <= usize::MAX,
        from + comment_bytes(name, v).len() < text.len(),
        text.subrange(from, from + comment_bytes(name, v).len()) == comment_bytes(name, v),
        text[from + comment_bytes(name, v).len()] == LINE_FEED,
    ensures
        text[from] == COMMENT,
        line_end(text, from) == from + comment_bytes(name, v).len(),
        fault(text, answer, from).is_none(),
        reading(text, answer, from) == (name, values(answer)[v - 1]),
{
    let line = comment_bytes(name, v);
    lemma_comment_read(name, v);
    lemma_line_found(text, from, line);
    let end = from + line.len();
    assert(text[end - 1] == line.last()) by {
        assert(text.subrange(from, from + line.len())[line.len() - 1] == line[line.len() - 1]);
    }
    assert(line_at(text, from, end) == line);
    assert(text[from] == COMMENT) by {
        assert(text.subrange(from, from + line.len())[0] == line[0]);
    }
}

/// In lists that are put together and followed by more, part `k` stands
/// after the parts before it.
pub proof fn lemma_part_found<A>(n: nat, k: int, part: spec_fn(int) -> Seq<A>, tail: Seq<A>)
    requires
        0 <= k < n,
        part(k).len() > 0,
    ensures
        joined((k + 1) as nat, part).len() == joined(k as nat, part).len() + part(k).len(),
        joined((k + 1) as nat, part).len() <= joined(n, part).len(),
        (joined(n, part) + tail).subrange(
            joined(k as nat, part).len() as int,
            joined((k + 1) as nat, part).len() - 1,
        ) == part(k).drop_last(),
        (joined(n, part) + tail)[joined((k + 1) as nat, part).len() - 1] == part(k).last(),
{
    lemma_joined_at(n, k, part);
    let head = joined(n, part);
    let lo = joined(k as nat, part).len() as int;
    let hi = joined((k + 1) as nat, part).len() as int;
    assert((head + tail).subrange(lo, hi - 1) =~= head.subrange(lo, hi).drop_last());
    assert((head + tail)[hi - 1] == head.subrange(lo, hi)[hi - 1 - lo]);
}

/// Resolving the comment lines of names, from the line of name `k` on, gives
/// these names with the values of their variables. `tail` is what follows
/// the comment lines in the text.
pub proof fn lemma_names_resolved(
    names: Seq<(int, Seq<u8>)>,
    tail: Seq<u8>,
    answer: Seq<u8>,
    k: int,
)
    requires
        0 <= k <= names.len(),
        answered(names, answer),
        tail.len() == 0 || tail[0] != COMMENT,
    ensures
        resolved_from(
            comment_lines(names) + tail,
            answer,
            joined(k as nat, comment_line_at(names)).len() as int,
        ) == Ok::<Seq<(Seq<u8>, bool)>, ResolveError>(answers_from(names, answer, k)),
    decreases names.len() - k,
{
    let part = comment_line_at(names);
    let text = comment_lines(names) + tail;
    let from = joined(k as nat, part).len() as int;
    if k == names.len() {
        assert(answers_from(names, answer, k) =~= Seq::empty());
        if tail.len() > 0 {
            assert(text[from] == tail[0]);
        }
    } else {
        let name = names[k].1;
        let v = names[k].0 as nat;
        let line = comment_bytes(name, v);
        assert(part(k) == line.push(LINE_FEED));
        assert(part(k).drop_last() =~= line);
        lemma_part_found(names.len(), k, part, tail);
        assert(plain(names[k].1));
        lemma_line_resolved(text, answer, from, name, v);
        lemma_names_resolved(names, tail, answer, k + 1);
        assert(seq![(name, values(answer)[v - 1])] + answers_from(names, answer, k + 1)
            =~= answers_from(names, answer, k));
    }
}

/// The bytes of two texts put together are the bytes of the one and then of
/// the other.
pub proof fn lemma_encode_concat(x: Seq<char>, y: Seq<char>)
    ensures
        encode_utf8(x + y) == encode_utf8(x) + encode_utf8(y),
    decreases x.len(),
{
    if x.len() == 0 {
        assert(x + y =~= y);
        assert(encode_utf8(x) + encode_utf8(y) =~= encode_utf8(y));
    } else {
        assert((x + y)[0] == x[0]);
        assert((x + y).drop_first() =~= x.drop_first() + y);
        lemma_encode_concat(x.drop_first(), y);
        let head = encode_scalar(x[0] as u32);
        assert(head + (encode_utf8(x.drop_first()) + encode_utf8(y)) =~= (head + encode_utf8(
            x.drop_first(),
        )) + encode_utf8(y));
    }
}

/// The bytes of a text of ASCII characters are its characters, one byte for
/// each.
pub proof fn lemma_encode_ascii(x: Seq<char>)
    requires
        is_ascii_chars(x),
    ensures
        encode_utf8(x) == Seq::new(x.len(), |i: int| x[i] as u8),
{
    is_ascii_chars_encode_utf8(x);
    assert(encode_utf8(x) =~= Seq::new(x.len(), |i: int| x[i] as u8));
}

/// Lists put together from parts that are equal one by one are equal.
pub proof fn lemma_joined_same<A>(n: nat, p: spec_fn(int) -> Seq<A>, q: spec_fn(int) -> Seq<A>)
    requires
        forall|k: int| 0 <= k < n ==> #[trigger] p(k) == q(k),
    ensures
        joined(n, p) == joined(n, q),
    decreases n,
{
    if n > 0 {
        lemma_joined_same((n - 1) as nat, p, q);
        assert(p(n - 1) == q(n - 1));
    }
}

/// The bytes of texts put together are the bytes of the texts, put together.
pub proof fn lemma_encode_joined(n: nat, part: spec_fn(int) -> Seq<char>)
    ensures
        encode_utf8(joined(n, part)) == joined(n, |k: int| encode_utf8(part(k))),
    decreases n,
{
    let bytes = |k: int| encode_utf8(part(k));
    if n == 0 {
        assert(encode_utf8(joined(n, part)) =~= joined(n, bytes));
    } else {
        lemma_encode_joined((n - 1) as nat, part);
        lemma_encode_concat(joined((n - 1) as nat, part), part(n - 1));
        assert(bytes(n - 1) == encode_utf8(part(n - 1)));
    }
}

/// A number in decimal is a text of ASCII characters.
pub proof fn lemma_decimal_ascii(n: nat)
    ensures
        is_ascii_chars(decimal(n)),
    decreases n,
{
    if n >= 10 {
        lemma_decimal_ascii(n / 10);
        let d = decimal(n);
        assert forall|i: int| 0 <= i < d.len() implies '\0' <= #[trigger] d[i] <= '\u{7f}' by {
            if i < d.len() - 1 {
                assert(d[i] == decimal(n / 10)[i]);
            }
        }
    }
}

/// A number in decimal has the same digits as text and as bytes.
pub proof fn lemma_decimal_same(n: nat)
    ensures
        encode_utf8(decimal(n)) == decimal_bytes(n),
    decreases n,
{
    lemma_decimal_ascii(n);
    lemma_encode_ascii(decimal(n));
    if n < 10 {
        assert(encode_utf8(decimal(n)) =~= decimal_bytes(n));
    } else {
        lemma_decimal_same(n / 10);
        lemma_decimal_ascii(n / 10);
        lemma_encode_ascii(decimal(n / 10));
        assert(encode_utf8(decimal(n)) =~= encode_utf8(decimal(n / 10)).push(
            digit(n % 10) as u8,
        ));
    }
}

/// A comment line has the same bytes as it is written and as it is read: the
/// name is written in UTF-8, all else in ASCII.
pub proof fn lemma_comment_same(name: (int, Seq<char>))
    requires
        name.0 >= 0,
    ensures
        encode_utf8(comment_text(name)) == comment_bytes(encode_utf8(name.1), name.0 as nat).push(
            LINE_FEED,
        ),
{
    reveal(comment_bytes);
    reveal_strlit("c ");
    reveal_strlit(" := ");
    reveal_strlit("\n");
    lemma_decimal_same(name.0 as nat);
    lemma_encode_ascii("c "@);
    lemma_encode_ascii(" := "@);
    lemma_encode_ascii("\n"@);
    assert(encode_utf8("c "@) =~= opening());
    assert(encode_utf8(" := "@) =~= separator());
    assert(encode_utf8("\n"@) =~= seq![LINE_FEED]);
    lemma_encode_concat("c "@, name.1);
    lemma_encode_concat("c "@ + name.1, " := "@);
    lemma_encode_concat("c "@ + name.1 + " := "@, decimal(name.0 as nat));
    lemma_encode_concat("c "@ + name.1 + " := "@ + decimal(name.0 as nat), "\n"@);
    assert(comment_bytes(encode_utf8(name.1), name.0 as nat) + seq![LINE_FEED] =~= comment_bytes(
        encode_utf8(name.1),
        name.0 as nat,
    ).push(LINE_FEED));
}

/// The names of a formula, each with its bytes in UTF-8.
pub open spec fn names_read(names: Seq<(int, Seq<char>)>) -> Seq<(int, Seq<u8>)> {
    Seq::new(names.len(), |k: int| (names[k].0, encode_utf8(names[k].1)))
}

/// What follows the comment lines in the text of a formula starts with the
/// letter `p` of the header line.
pub proof fn lemma_header_first(variables: nat, clauses: nat, rest: Seq<char>)
    ensures
        encode_utf8(header_text(variables, clauses) + rest).len() > 0,
        encode_utf8(header_text(variables, clauses) + rest)[0] != COMMENT,
{
    reveal_strlit("p cnf ");
    let after = decimal(variables) + " "@ + decimal(clauses) + rest;
    assert(header_text(variables, clauses) + rest =~= "p cnf "@ + after);
    lemma_encode_concat("p cnf "@, after);
    lemma_encode_ascii("p cnf "@);
    assert(encode_utf8("p cnf "@)[0] == 'p' as u8);
}

/// The names of a formula come back with the values that an answer gives to
/// their variables. The text of a formula is taken as its bytes in UTF-8, as
/// it is written to a file. For a well-formed formula whose names can be
/// read back, and an answer that gives a value to every variable of the
/// formula, resolving the text against the answer gives, for each name in
/// the order of naming, the bytes of the name and the value at the place of
/// its variable in the answer.
pub proof fn lemma_round_trip(f: Formula, answer: Seq<u8>)
    requires
        f.wf(),
        f.variables <= usize::MAX,
        f.variables <= values(answer).len(),
        forall|k: int| 0 <= k < f.names.len() ==> plain(encode_utf8((#[trigger] f.names[k]).1)),
    ensures
        resolved_from(encode_utf8(dimacs(f)), answer, 0) == Ok::<
            Seq<(Seq<u8>, bool)>,
            ResolveError,
        >(answers_from(names_read(f.names), answer, 0)),
{
    let names = names_read(f.names);
    let count = f.names.len();
    let comments = joined(count, comment_text_at(f.names));
    let header = header_text(f.variables, f.clauses.len());
    let lines = joined(f.clauses.len(), clause_line_at(f.clauses));
    let tail = encode_utf8(header + lines);
    f.lemma_wf_names();
    // The text is the comment lines of the names and what follows them.
    lemma_encode_concat(comments, header + lines);
    assert(comments + header + lines =~= comments + (header + lines));
    lemma_encode_joined(count, comment_text_at(f.names));
    assert forall|k: int| 0 <= k < count implies #[trigger] encode_utf8(
        comment_text_at(f.names)(k),
    ) == comment_line_at(names)(k) by {
        assert(f.owns(f.names[k].0));
        lemma_comment_same(f.names[k]);
    }
    lemma_joined_same(
        count,
        |k: int| encode_utf8(comment_text_at(f.names)(k)),
        comment_line_at(names),
    );
    assert(encode_utf8(dimacs(f)) == comment_lines(names) + tail);
    // What follows starts with the header line.
    lemma_header_first(f.variables, f.clauses.len(), lines);
    assert(answered(names, answer)) by {
        assert forall|k: int| 0 <= k < names.len() implies plain((#[trigger] names[k]).1) && 1
            <= names[k].0 <= values(answer).len() && names[k].0 <= usize::MAX by {
            assert(f.owns(f.names[k].0));
            assert(plain(encode_utf8(f.names[k].1)));
        }
    }
    lemma_names_resolved(names, tail, answer, 0);
}

} // verus!

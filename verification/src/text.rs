//! Text as sequences of characters: conversion from and to strings, and
//! splitting on and joining with a literal delimiter.

use vstd::prelude::*;

verus! {

/// `std::string::String::push` appends one character to the end of the
/// string: the text afterwards is the text before followed by `ch`.
pub assume_specification[ String::push ](s: &mut String, ch: char)
    ensures
        final(s)@ == old(s)@.push(ch),
;

/// The characters of a string, in order.
pub fn chars_of(text: &str) -> (chars: Vec<char>)
    ensures
        chars@ == text@,
{
    let mut chars: Vec<char> = Vec::new();
    for c in it: text.chars()
        invariant
            chars@ == it.seq().take(it.index()),
            it.seq() == text@,
    {
        chars.push(c);
    }
    chars
}

/// The string made of the given characters, in order.
pub fn string_of(chars: &Vec<char>) -> (text: String)
    ensures
        text@ == chars@,
{
    let mut text = String::new();
    let mut i: usize = 0;
    while i < chars.len()
        invariant
            i <= chars.len(),
            text@ == chars@.take(i as int),
        decreases chars.len() - i,
    {
        text.push(chars[i]);
        i = i + 1;
    }
    text
}

/// The views of a vector of character vectors.
pub open spec fn texts(fields: Seq<Vec<char>>) -> Seq<Seq<char>> {
    fields.map_values(|field: Vec<char>| field@)
}

/// `needle` stands in `text` at position `at`.
pub open spec fn occurs_at(text: Seq<char>, needle: Seq<char>, at: int) -> bool {
    &&& 0 <= at
    &&& at + needle.len() <= text.len()
    &&& text.subrange(at, at + needle.len()) == needle
}

/// The first position at or after `from` at which `needle` stands in `text`.
pub open spec fn next_match(text: Seq<char>, needle: Seq<char>, from: int) -> Option<int>
    decreases text.len() + 1 - from,
{
    if from < 0 || from + needle.len() > text.len() {
        None
    } else if occurs_at(text, needle, from) {
        Some(from)
    } else {
        next_match(text, needle, from + 1)
    }
}

/// The fields of the part of `line` that starts at `start`: the text up to
/// the first delimiter at or after `start`, then the fields of what follows
/// that delimiter. A delimiter is taken where it first stands, and the
/// search goes on behind it.
pub open spec fn fields_from(line: Seq<char>, delimiter: Seq<char>, start: int) -> Seq<Seq<char>>
    decreases line.len() - start,
    when delimiter.len() > 0 && 0 <= start
{
    match next_match(line, delimiter, start) {
        Some(at) => {
            proof {
                lemma_next_match(line, delimiter, start);
            }
            seq![line.subrange(start, at)] + fields_from(line, delimiter, at + delimiter.len())
        },
        None => seq![line.subrange(start, line.len() as int)],
    }
}

/// The fields that a line splits into on a literal delimiter. Empty fields
/// are kept. With an empty delimiter the fields are an empty one, then each
/// character by itself, then another empty one.
pub open spec fn fields_of(line: Seq<char>, delimiter: Seq<char>) -> Seq<Seq<char>> {
    if delimiter.len() == 0 {
        seq![Seq::<char>::empty()] + Seq::new(line.len(), |i: int| seq![line[i]]) + seq![
            Seq::<char>::empty(),
        ]
    } else {
        fields_from(line, delimiter, 0)
    }
}

/// The fields in order with the delimiter between each two.
pub open spec fn line_of(fields: Seq<Seq<char>>, delimiter: Seq<char>) -> Seq<char>
    decreases fields.len(),
{
    if fields.len() == 0 {
        Seq::empty()
    } else if fields.len() == 1 {
        fields[0]
    } else {
        line_of(fields.drop_last(), delimiter) + delimiter + fields.last()
    }
}

/// The field at `i` brings in no delimiter of its own: with the delimiter
/// that follows it, the first delimiter found is that one; the last field,
/// which none follows, holds none.
pub open spec fn field_closes(fields: Seq<Seq<char>>, delimiter: Seq<char>, i: int) -> bool {
    if i == fields.len() - 1 {
        next_match(fields[i], delimiter, 0) is None
    } else {
        next_match(fields[i] + delimiter, delimiter, 0) == Some(fields[i].len() as int)
    }
}

/// No field brings in a delimiter of its own.
pub open spec fn separable(fields: Seq<Seq<char>>, delimiter: Seq<char>) -> bool {
    forall|i: int| 0 <= i < fields.len() ==> #[trigger] field_closes(fields, delimiter, i)
}

/// Appends the characters of `source` to `out`.
pub fn push_all(out: &mut Vec<char>, source: &Vec<char>)
    ensures
        final(out)@ == old(out)@ + source@,
{
    let mut i: usize = 0;
    while i < source.len()
        invariant
            i <= source.len(),
            out@ == old(out)@ + source@.take(i as int),
        decreases source.len() - i,
    {
        out.push(source[i]);
        i = i + 1;
    }
}

/// The characters of `text` from `from` up to `to`.
pub fn slice_of(text: &Vec<char>, from: usize, to: usize) -> (part: Vec<char>)
    requires
        from <= to <= text.len(),
    ensures
        part@ == text@.subrange(from as int, to as int),
{
    let mut part: Vec<char> = Vec::new();
    let mut i: usize = from;
    while i < to
        invariant
            from <= i <= to <= text.len(),
            part@ == text@.subrange(from as int, i as int),
        decreases to - i,
    {
        part.push(text[i]);
        i = i + 1;
    }
    part
}

/// Whether `needle` stands in `text` at `at`.
pub fn stands_at(text: &Vec<char>, needle: &Vec<char>, at: usize) -> (found: bool)
    requires
        at + needle.len() <= text.len(),
    ensures
        found == occurs_at(text@, needle@, at as int),
{
    let mut i: usize = 0;
    while i < needle.len()
        invariant
            i <= needle.len(),
            at + needle.len() <= text.len(),
            text@.subrange(at as int, at + i) == needle@.take(i as int),
        decreases needle.len() - i,
    {
        if text[at + i] != needle[i] {
            proof {
                let whole = text@.subrange(at as int, at + needle.len());
                assert(whole[i as int] != needle@[i as int]);
            }
            return false;
        }
        i = i + 1;
        proof {
            assert(text@.subrange(at as int, at + i) == text@.subrange(at as int, at + i - 1).push(
                text@[at + i - 1],
            ));
            assert(needle@.take(i as int) == needle@.take(i - 1).push(needle@[i - 1]));
        }
    }
    proof {
        assert(needle@.take(needle.len() as int) == needle@);
    }
    true
}

/// The first position at or after `from` at which `needle` stands in `text`.
pub fn find(text: &Vec<char>, needle: &Vec<char>, from: usize) -> (found: Option<usize>)
    ensures
        match found {
            Some(at) => next_match(text@, needle@, from as int) == Some(at as int),
            None => next_match(text@, needle@, from as int) is None,
        },
{
    if needle.len() > text.len() || from > text.len() - needle.len() {
        return None;
    }
    let last: usize = text.len() - needle.len();
    let mut at: usize = from;
    loop
        invariant
            from <= at <= last,
            last == text.len() - needle.len(),
            next_match(text@, needle@, from as int) == next_match(text@, needle@, at as int),
        decreases last - at,
    {
        if stands_at(text, needle, at) {
            return Some(at);
        }
        if at == last {
            assert(next_match(text@, needle@, at + 1) is None);
            return None;
        }
        at = at + 1;
    }
}

/// Splits a line into its fields on a literal delimiter.
pub fn split(line: &Vec<char>, delimiter: &Vec<char>) -> (fields: Vec<Vec<char>>)
    ensures
        texts(fields@) == fields_of(line@, delimiter@),
{
    let mut fields: Vec<Vec<char>> = Vec::new();
    if delimiter.len() == 0 {
        fields.push(Vec::new());
        let mut i: usize = 0;
        while i < line.len()
            invariant
                i <= line.len(),
                fields.len() == i + 1,
                fields@[0]@ == Seq::<char>::empty(),
                forall|k: int| 1 <= k <= i ==> (#[trigger] fields@[k])@ == seq![line@[k - 1]],
            decreases line.len() - i,
        {
            let mut one: Vec<char> = Vec::new();
            one.push(line[i]);
            fields.push(one);
            i = i + 1;
        }
        fields.push(Vec::new());
        assert(texts(fields@) =~= fields_of(line@, delimiter@));
        return fields;
    }
    let mut start: usize = 0;
    loop
        invariant_except_break
            fields_of(line@, delimiter@) == texts(fields@) + fields_from(
                line@,
                delimiter@,
                start as int,
            ),
        invariant
            delimiter.len() > 0,
            start <= line.len(),
        ensures
            texts(fields@) == fields_of(line@, delimiter@),
        decreases line.len() - start,
    {
        proof {
            lemma_next_match(line@, delimiter@, start as int);
        }
        match find(line, delimiter, start) {
            Some(at) => {
                let field = slice_of(line, start, at);
                proof {
                    assert(texts(fields@.push(field)) =~= texts(fields@).push(field@));
                    assert(texts(fields@).push(field@) + fields_from(
                        line@,
                        delimiter@,
                        at + delimiter.len(),
                    ) =~= texts(fields@) + fields_from(line@, delimiter@, start as int));
                }
                fields.push(field);
                start = at + delimiter.len();
            },
            None => {
                let field = slice_of(line, start, line.len());
                proof {
                    assert(texts(fields@.push(field)) =~= texts(fields@).push(field@));
                    assert(texts(fields@).push(field@) =~= texts(fields@) + fields_from(
                        line@,
                        delimiter@,
                        start as int,
                    ));
                }
                fields.push(field);
                break ;
            },
        }
    }
    fields
}

/// Joins fields into one line, with the delimiter between each two.
pub fn join(fields: &Vec<Vec<char>>, delimiter: &Vec<char>) -> (line: Vec<char>)
    ensures
        line@ == line_of(texts(fields@), delimiter@),
{
    let mut line: Vec<char> = Vec::new();
    let mut i: usize = 0;
    while i < fields.len()
        invariant
            i <= fields.len(),
            line@ == line_of(texts(fields@).take(i as int), delimiter@),
        decreases fields.len() - i,
    {
        if i > 0 {
            push_all(&mut line, delimiter);
        }
        push_all(&mut line, &fields[i]);
        proof {
            let upto = texts(fields@).take(i + 1);
            assert(upto.drop_last() =~= texts(fields@).take(i as int));
            assert(upto.last() == fields@[i as int]@);
            if i == 0 {
                assert(line@ =~= upto[0]);
            }
        }
        i = i + 1;
    }
    proof {
        assert(texts(fields@).take(fields.len() as int) =~= texts(fields@));
    }
    line
}

/// What `next_match` finds is a match, and nothing stands before it.
pub proof fn lemma_next_match(text: Seq<char>, needle: Seq<char>, from: int)
    requires
        0 <= from,
    ensures
        match next_match(text, needle, from) {
            Some(at) => {
                &&& from <= at
                &&& occurs_at(text, needle, at)
                &&& forall|i: int| from <= i < at ==> !occurs_at(text, needle, i)
            },
            None => forall|i: int| from <= i ==> !occurs_at(text, needle, i),
        },
    decreases text.len() + 1 - from,
{
    if from + needle.len() > text.len() {
    } else if occurs_at(text, needle, from) {
    } else {
        lemma_next_match(text, needle, from + 1);
    }
}

/// A match with nothing standing before it is what `next_match` finds.
pub proof fn lemma_next_match_found(text: Seq<char>, needle: Seq<char>, from: int, at: int)
    requires
        0 <= from <= at,
        occurs_at(text, needle, at),
        forall|i: int| from <= i < at ==> !occurs_at(text, needle, i),
    ensures
        next_match(text, needle, from) == Some(at),
{
    lemma_next_match(text, needle, from);
}

/// Where nothing stands from `from` on, `next_match` finds nothing.
pub proof fn lemma_next_match_none(text: Seq<char>, needle: Seq<char>, from: int)
    requires
        0 <= from,
        forall|i: int| from <= i ==> !occurs_at(text, needle, i),
    ensures
        next_match(text, needle, from) is None,
{
    lemma_next_match(text, needle, from);
}

/// A match in a part of `text` is a match in `text` that ends within the part.
pub proof fn lemma_occurs_at_within(text: Seq<char>, needle: Seq<char>, a: int, b: int, p: int)
    requires
        0 <= a <= b <= text.len(),
        0 <= p,
    ensures
        occurs_at(text.subrange(a, b), needle, p) == (occurs_at(text, needle, a + p) && a + p
            + needle.len() <= b),
{
    let part = text.subrange(a, b);
    if p + needle.len() <= part.len() {
        assert(part.subrange(p, p + needle.len()) =~= text.subrange(a + p, a + p + needle.len()));
    }
}

/// Searching the part of `text` from `k` on finds what searching `text`
/// from `k` on finds, `k` positions earlier.
pub proof fn lemma_next_match_shift(text: Seq<char>, needle: Seq<char>, k: int, from: int)
    requires
        0 <= k <= text.len(),
        0 <= from,
    ensures
        next_match(text, needle, k + from) == match next_match(
            text.subrange(k, text.len() as int),
            needle,
            from,
        ) {
            Some(at) => Some(at + k),
            None => None::<int>,
        },
{
    let tail = text.subrange(k, text.len() as int);
    lemma_next_match(tail, needle, from);
    match next_match(tail, needle, from) {
        Some(at) => {
            assert forall|i: int| k + from <= i < at + k implies !occurs_at(text, needle, i) by {
                lemma_occurs_at_within(text, needle, k, text.len() as int, i - k);
            }
            lemma_occurs_at_within(text, needle, k, text.len() as int, at);
            lemma_next_match_found(text, needle, k + from, at + k);
        },
        None => {
            assert forall|i: int| k + from <= i implies !occurs_at(text, needle, i) by {
                lemma_occurs_at_within(text, needle, k, text.len() as int, i - k);
            }
            lemma_next_match_none(text, needle, k + from);
        },
    }
}

/// The fields of the part of `line` from `k` on do not depend on what
/// stands before `k`.
pub proof fn lemma_fields_from_shift(line: Seq<char>, delimiter: Seq<char>, k: int, start: int)
    requires
        delimiter.len() > 0,
        0 <= k,
        0 <= start,
        k + start <= line.len(),
    ensures
        fields_from(line, delimiter, k + start) == fields_from(
            line.subrange(k, line.len() as int),
            delimiter,
            start,
        ),
    decreases line.len() - k - start,
{
    let tail = line.subrange(k, line.len() as int);
    lemma_next_match_shift(line, delimiter, k, start);
    lemma_next_match(tail, delimiter, start);
    match next_match(tail, delimiter, start) {
        Some(at) => {
            assert(tail.subrange(start, at) =~= line.subrange(k + start, k + at));
            lemma_fields_from_shift(line, delimiter, k, at + delimiter.len());
        },
        None => {
            assert(tail.subrange(start, tail.len() as int) =~= line.subrange(
                k + start,
                line.len() as int,
            ));
        },
    }
}

/// A line always has at least one field.
pub proof fn lemma_fields_from_nonempty(line: Seq<char>, delimiter: Seq<char>, start: int)
    requires
        delimiter.len() > 0,
        0 <= start,
    ensures
        fields_from(line, delimiter, start).len() >= 1,
{
    lemma_next_match(line, delimiter, start);
}

/// Joining starts with the first field and the delimiter, where more follow.
pub proof fn lemma_line_of_head(fields: Seq<Seq<char>>, delimiter: Seq<char>)
    requires
        fields.len() >= 2,
    ensures
        line_of(fields, delimiter) == fields[0] + delimiter + line_of(
            fields.drop_first(),
            delimiter,
        ),
    decreases fields.len(),
{
    let rest = fields.drop_first();
    if fields.len() == 2 {
        assert(fields.drop_last() =~= seq![fields[0]]);
        assert(line_of(fields.drop_last(), delimiter) == fields[0]);
        assert(rest =~= seq![fields[1]]);
        assert(line_of(rest, delimiter) == fields[1]);
    } else {
        lemma_line_of_head(fields.drop_last(), delimiter);
        assert(fields.drop_last().drop_first() =~= rest.drop_last());
        assert(rest.last() == fields.last());
        assert(line_of(fields, delimiter) =~= fields[0] + delimiter + line_of(rest, delimiter));
    }
}

/// Joining the fields of the part of a line from `start` on gives that part back.
pub proof fn lemma_join_undoes_fields_from(line: Seq<char>, delimiter: Seq<char>, start: int)
    requires
        delimiter.len() > 0,
        0 <= start <= line.len(),
    ensures
        line_of(fields_from(line, delimiter, start), delimiter) == line.subrange(
            start,
            line.len() as int,
        ),
    decreases line.len() - start,
{
    lemma_next_match(line, delimiter, start);
    match next_match(line, delimiter, start) {
        Some(at) => {
            let next = at + delimiter.len();
            let first = line.subrange(start, at);
            let rest = fields_from(line, delimiter, next);
            let fields = seq![first] + rest;
            lemma_fields_from_nonempty(line, delimiter, next);
            lemma_join_undoes_fields_from(line, delimiter, next);
            lemma_line_of_head(fields, delimiter);
            assert(fields.drop_first() =~= rest);
            assert(first + delimiter + line.subrange(next, line.len() as int) =~= line.subrange(
                start,
                line.len() as int,
            )) by {
                assert(line.subrange(at, next) == delimiter);
            }
        },
        None => {},
    }
}

/// Joining the characters of a line, each a field of its own, with nothing
/// between them gives the line back.
proof fn lemma_join_single_characters(line: Seq<char>, n: int)
    requires
        0 <= n <= line.len(),
    ensures
        line_of(
            seq![Seq::<char>::empty()] + Seq::new(n as nat, |i: int| seq![line[i]]),
            Seq::empty(),
        ) == line.take(n),
    decreases n,
{
    let fields = seq![Seq::<char>::empty()] + Seq::new(n as nat, |i: int| seq![line[i]]);
    if n == 0 {
        assert(fields =~= seq![Seq::<char>::empty()]);
        assert(line.take(0) =~= Seq::<char>::empty());
    } else {
        lemma_join_single_characters(line, n - 1);
        assert(fields.drop_last() =~= seq![Seq::<char>::empty()] + Seq::new(
            (n - 1) as nat,
            |i: int| seq![line[i]],
        ));
        assert(fields.last() == seq![line[n - 1]]);
        assert(line.take(n - 1) + Seq::<char>::empty() + seq![line[n - 1]] =~= line.take(n));
    }
}

/// Joining undoes splitting: the fields of a line, joined with the same
/// delimiter, are the line.
pub proof fn law_join_undoes_split(line: Seq<char>, delimiter: Seq<char>)
    ensures
        line_of(fields_of(line, delimiter), delimiter) == line,
{
    if delimiter.len() == 0 {
        let inner = seq![Seq::<char>::empty()] + Seq::new(line.len(), |i: int| seq![line[i]]);
        let fields = fields_of(line, delimiter);
        lemma_join_single_characters(line, line.len() as int);
        assert(fields.drop_last() =~= inner);
        assert(fields.last() == Seq::<char>::empty());
        assert(delimiter =~= Seq::<char>::empty());
        assert(line.take(line.len() as int) + delimiter + Seq::<char>::empty() =~= line);
    } else {
        lemma_join_undoes_fields_from(line, delimiter, 0);
        assert(line.subrange(0, line.len() as int) =~= line);
    }
}

/// The fields that a line splits into bring in no delimiter of their own.
pub proof fn lemma_fields_from_separable(line: Seq<char>, delimiter: Seq<char>, start: int)
    requires
        delimiter.len() > 0,
        0 <= start <= line.len(),
    ensures
        separable(fields_from(line, delimiter, start), delimiter),
    decreases line.len() - start,
{
    let fields = fields_from(line, delimiter, start);
    let end = line.len() as int;
    lemma_next_match(line, delimiter, start);
    match next_match(line, delimiter, start) {
        Some(at) => {
            let next = at + delimiter.len();
            let first = line.subrange(start, at);
            let rest = fields_from(line, delimiter, next);
            lemma_fields_from_nonempty(line, delimiter, next);
            lemma_fields_from_separable(line, delimiter, next);
            assert(first + delimiter =~= line.subrange(start, next)) by {
                assert(line.subrange(at, next) == delimiter);
            }
            assert forall|p: int| 0 <= p < first.len() implies !occurs_at(
                first + delimiter,
                delimiter,
                p,
            ) by {
                lemma_occurs_at_within(line, delimiter, start, next, p);
            }
            lemma_occurs_at_within(line, delimiter, start, next, at - start);
            lemma_next_match_found(first + delimiter, delimiter, 0, first.len() as int);
            assert forall|i: int| 0 <= i < fields.len() implies #[trigger] field_closes(
                fields,
                delimiter,
                i,
            ) by {
                if i > 0 {
                    assert(field_closes(rest, delimiter, i - 1));
                    assert(fields[i] == rest[i - 1]);
                }
            }
        },
        None => {
            assert forall|p: int| 0 <= p implies !occurs_at(
                line.subrange(start, end),
                delimiter,
                p,
            ) by {
                lemma_occurs_at_within(line, delimiter, start, end, p);
            }
            lemma_next_match_none(line.subrange(start, end), delimiter, 0);
        },
    }
}

/// Splitting undoes joining, for fields that bring in no delimiter of their
/// own: the joined line splits into the same fields again.
pub proof fn law_split_undoes_join(fields: Seq<Seq<char>>, delimiter: Seq<char>)
    requires
        delimiter.len() > 0,
        fields.len() >= 1,
        separable(fields, delimiter),
    ensures
        fields_of(line_of(fields, delimiter), delimiter) == fields,
    decreases fields.len(),
{
    let line = line_of(fields, delimiter);
    let first = fields[0];
    assert(field_closes(fields, delimiter, 0));
    if fields.len() == 1 {
        assert(fields_from(line, delimiter, 0) =~= seq![line.subrange(0, line.len() as int)]);
        assert(line.subrange(0, line.len() as int) =~= line);
        assert(fields =~= seq![first]);
    } else {
        let rest = fields.drop_first();
        let tail = line_of(rest, delimiter);
        let next = (first.len() + delimiter.len()) as int;
        lemma_line_of_head(fields, delimiter);
        assert forall|i: int| 0 <= i < rest.len() implies #[trigger] field_closes(
            rest,
            delimiter,
            i,
        ) by {
            assert(field_closes(fields, delimiter, i + 1));
        }
        law_split_undoes_join(rest, delimiter);
        assert(line.subrange(0, next) =~= first + delimiter);
        lemma_next_match(first + delimiter, delimiter, 0);
        assert forall|p: int| 0 <= p < first.len() implies !occurs_at(line, delimiter, p) by {
            lemma_occurs_at_within(line, delimiter, 0, next, p);
        }
        lemma_occurs_at_within(line, delimiter, 0, next, first.len() as int);
        lemma_next_match_found(line, delimiter, 0, first.len() as int);
        lemma_fields_from_shift(line, delimiter, next, 0);
        assert(line.subrange(next, line.len() as int) =~= tail);
        assert(line.subrange(0, first.len() as int) =~= first);
        assert(fields =~= seq![first] + rest);
    }
}

} // verus!

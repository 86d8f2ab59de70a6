//! Text as a sequence of characters: searching and splitting.

use vstd::prelude::*;

verus! {

/// `String::push` of std: the string afterwards is the string before
/// with the character `c` added at its end.
pub assume_specification[ String::push ](s: &mut String, c: char)
    ensures
        final(s)@ == old(s)@.push(c),
;

/// `pat` stands in `text` at position `at`.
pub open spec fn occurs_at(text: Seq<char>, pat: Seq<char>, at: int) -> bool {
    &&& 0 <= at
    &&& at + pat.len() <= text.len()
    &&& text.subrange(at, at + pat.len()) == pat
}

/// `pat` stands somewhere in `text`.
pub open spec fn contains(text: Seq<char>, pat: Seq<char>) -> bool {
    exists|at: int| occurs_at(text, pat, at)
}

/// `text` begins with `pat`.
pub open spec fn starts_with(text: Seq<char>, pat: Seq<char>) -> bool {
    occurs_at(text, pat, 0)
}

/// The number of characters of `text` before its first `sep`; all of them
/// when `text` holds no `sep`.
pub open spec fn field_end(text: Seq<char>, sep: char) -> nat
    decreases text.len(),
{
    if text.len() == 0 || text[0] == sep {
        0
    } else {
        1 + field_end(text.skip(1), sep)
    }
}

/// The `n`-th of the fields that `sep` divides `text` into, counted from 0.
/// A text without `sep` is one field; two adjacent separators enclose an
/// empty field.
pub open spec fn field(text: Seq<char>, sep: char, n: nat) -> Option<Seq<char>>
    decreases n,
{
    let end = field_end(text, sep) as int;
    if n == 0 {
        Some(text.take(end))
    } else if end >= text.len() {
        None
    } else {
        field(text.skip(end + 1), sep, (n - 1) as nat)
    }
}

/// The fields that `sep` divides `text` into, in their order. There is
/// one more of them than `text` holds separators.
pub open spec fn fields(text: Seq<char>, sep: char) -> Seq<Seq<char>>
    decreases text.len(),
{
    let end = field_end(text, sep) as int;
    if end >= text.len() {
        seq![text]
    } else {
        seq![text.take(end)] + fields(text.skip(end + 1), sep)
    }
}

/// `line` without the carriage return that ends it, if one does.
pub open spec fn without_cr(line: Seq<char>) -> Seq<char> {
    if line.len() > 0 && line.last() == '\r' {
        line.drop_last()
    } else {
        line
    }
}

/// The lines of `text`. A line ends at a line feed, or at a carriage return
/// directly followed by one, or at the end of the text; the line ending is
/// no part of the line, and a text that ends with a line ending has no
/// empty line after it.
pub open spec fn lines(text: Seq<char>) -> Seq<Seq<char>>
    decreases text.len(),
{
    if text.len() == 0 {
        seq![]
    } else {
        let end = field_end(text, '\n') as int;
        if end >= text.len() {
            seq![text]
        } else {
            seq![without_cr(text.take(end))] + lines(text.skip(end + 1))
        }
    }
}

/// The views of the elements of `v`.
pub open spec fn views(v: Seq<Vec<char>>) -> Seq<Seq<char>> {
    Seq::new(v.len(), |i: int| v[i]@)
}

pub proof fn lemma_field_end_bounds(text: Seq<char>, sep: char)
    ensures
        0 <= field_end(text, sep) <= text.len(),
        field_end(text, sep) < text.len() ==> text[field_end(text, sep) as int] == sep,
        forall|i: int| 0 <= i < field_end(text, sep) ==> text[i] != sep,
    decreases text.len(),
{
    if text.len() != 0 && text[0] != sep {
        lemma_field_end_bounds(text.skip(1), sep);
        assert forall|i: int| 0 <= i < field_end(text, sep) implies text[i] != sep by {
            if i > 0 {
                assert(text[i] == text.skip(1)[i - 1]);
            }
        }
    }
}

/// The first position at or after which no character before it is `sep`
/// is the end of the first field.
pub proof fn lemma_field_end_is(text: Seq<char>, sep: char, end: int)
    requires
        0 <= end <= text.len(),
        forall|i: int| 0 <= i < end ==> text[i] != sep,
        end < text.len() ==> text[end] == sep,
    ensures
        field_end(text, sep) == end,
    decreases text.len(),
{
    if text.len() != 0 && text[0] != sep {
        assert forall|i: int| 0 <= i < end - 1 implies text.skip(1)[i] != sep by {
            assert(text.skip(1)[i] == text[i + 1]);
        }
        lemma_field_end_is(text.skip(1), sep, end - 1);
    }
}

/// The characters of `s`, in order.
pub fn chars_of(s: &str) -> (v: Vec<char>)
    ensures
        v@ == s@,
{
    let mut v: Vec<char> = Vec::new();
    for c in it: s.chars()
        invariant
            v@ == it.seq().take(it.index() as int),
    {
        v.push(c);
    }
    v
}

/// The string that holds the characters `v`, in order.
pub fn string_of(v: &Vec<char>) -> (s: String)
    ensures
        s@ == v@,
{
    let mut s = String::new();
    let mut i: usize = 0;
    while i < v.len()
        invariant
            i <= v.len(),
            s@ == v@.take(i as int),
        decreases v.len() - i,
    {
        s.push(v[i]);
        i = i + 1;
    }
    s
}

/// The characters of `text` from position `from` up to, not including,
/// position `to`.
pub fn slice_of(text: &Vec<char>, from: usize, to: usize) -> (v: Vec<char>)
    requires
        from <= to <= text.len(),
    ensures
        v@ == text@.subrange(from as int, to as int),
{
    let mut v: Vec<char> = Vec::new();
    let mut i: usize = from;
    while i < to
        invariant
            from <= i <= to <= text.len(),
            v@ == text@.subrange(from as int, i as int),
        decreases to - i,
    {
        v.push(text[i]);
        i = i + 1;
    }
    v
}

/// Adds the characters of `more` to the end of `text`.
pub fn append(text: &mut Vec<char>, more: &Vec<char>)
    ensures
        final(text)@ == old(text)@ + more@,
{
    let mut i: usize = 0;
    while i < more.len()
        invariant
            i <= more.len(),
            text@ == old(text)@ + more@.take(i as int),
        decreases more.len() - i,
    {
        text.push(more[i]);
        i = i + 1;
    }
}

/// Whether `pat` stands in `text` at position `at`.
pub fn matches_at(text: &Vec<char>, pat: &Vec<char>, at: usize) -> (found: bool)
    ensures
        found == occurs_at(text@, pat@, at as int),
{
    if at > text.len() || pat.len() > text.len() - at {
        return false;
    }
    let mut i: usize = 0;
    while i < pat.len()
        invariant
            i <= pat.len(),
            at + pat.len() <= text.len(),
            text@.subrange(at as int, at + i) == pat@.take(i as int),
        decreases pat.len() - i,
    {
        if text[at + i] != pat[i] {
            proof {
                let part = text@.subrange(at as int, at + pat.len());
                assert(part[i as int] == text@[at + i]);
            }
            return false;
        }
        proof {
            assert(text@.subrange(at as int, at + i + 1) == text@.subrange(
                at as int,
                at + i,
            ).push(text@[at + i]));
            assert(pat@.take(i + 1) == pat@.take(i as int).push(pat@[i as int]));
        }
        i = i + 1;
    }
    proof {
        assert(pat@.take(pat.len() as int) == pat@);
    }
    true
}

/// Whether `a` and `b` hold the same characters.
pub fn same(a: &Vec<char>, b: &Vec<char>) -> (equal: bool)
    ensures
        equal == (a@ == b@),
{
    if a.len() != b.len() {
        return false;
    }
    let equal = matches_at(a, b, 0);
    proof {
        assert(a@.subrange(0, a.len() as int) == a@);
    }
    equal
}

/// Whether `text` begins with `pat`.
pub fn begins_with(text: &Vec<char>, pat: &Vec<char>) -> (found: bool)
    ensures
        found == starts_with(text@, pat@),
{
    matches_at(text, pat, 0)
}

/// Whether `pat` stands somewhere in `text`.
pub fn has(text: &Vec<char>, pat: &Vec<char>) -> (found: bool)
    ensures
        found == contains(text@, pat@),
{
    if pat.len() > text.len() {
        return false;
    }
    let last: usize = text.len() - pat.len();
    let mut at: usize = 0;
    loop
        invariant
            last == text.len() - pat.len(),
            at <= last,
            forall|j: int| 0 <= j < at ==> !occurs_at(text@, pat@, j),
        decreases last - at,
    {
        if matches_at(text, pat, at) {
            return true;
        }
        if at >= last {
            return false;
        }
        at = at + 1;
    }
}

/// The position of the first `sep` in `text` at or after `from`; the length
/// of `text` when there is none.
pub fn find_sep(text: &Vec<char>, sep: char, from: usize) -> (end: usize)
    requires
        from <= text.len(),
    ensures
        end == from + field_end(text@.skip(from as int), sep),
        from <= end <= text.len(),
{
    let mut end: usize = from;
    while end < text.len() && text[end] != sep
        invariant
            from <= end <= text.len(),
            forall|i: int| from <= i < end ==> text@[i] != sep,
        decreases text.len() - end,
    {
        end = end + 1;
    }
    proof {
        lemma_field_end_is(text@.skip(from as int), sep, end - from);
    }
    end
}

/// The `n`-th of the fields that `sep` divides `text` into, counted from 0,
/// if `text` has that many.
pub fn nth_field(text: &Vec<char>, sep: char, n: usize) -> (found: Option<Vec<char>>)
    ensures
        match found {
            Some(v) => field(text@, sep, n as nat) == Some(v@),
            None => field(text@, sep, n as nat) is None,
        },
{
    let mut from: usize = 0;
    let mut left: usize = n;
    proof {
        assert(text@.skip(0) == text@);
    }
    loop
        invariant
            from <= text.len(),
            left <= n,
            field(text@, sep, n as nat) == field(text@.skip(from as int), sep, left as nat),
        decreases left,
    {
        let end = find_sep(text, sep, from);
        if left == 0 {
            proof {
                assert(text@.skip(from as int).take(end - from) == text@.subrange(
                    from as int,
                    end as int,
                ));
            }
            return Some(slice_of(text, from, end));
        }
        if end >= text.len() {
            return None;
        }
        proof {
            assert(text@.skip(from as int).skip(end - from + 1) == text@.skip(end + 1));
        }
        from = end + 1;
        left = left - 1;
    }
}

/// The lines of `text`.
pub fn split_lines(text: &Vec<char>) -> (out: Vec<Vec<char>>)
    ensures
        views(out@) == lines(text@),
{
    let mut out: Vec<Vec<char>> = Vec::new();
    let mut from: usize = 0;
    proof {
        assert(text@.skip(0) == text@);
        assert(views(out@) + lines(text@) == lines(text@));
    }
    while from < text.len()
        invariant
            from <= text.len(),
            views(out@) + lines(text@.skip(from as int)) == lines(text@),
        decreases text.len() - from,
    {
        let ghost rest = text@.skip(from as int);
        let ghost before = views(out@);
        let end = find_sep(text, '\n', from);
        if end >= text.len() {
            let line = slice_of(text, from, end);
            proof {
                assert(line@ == rest);
                assert(text@.skip(end as int).len() == 0);
                assert(lines(text@.skip(end as int)) == Seq::<Seq<char>>::empty());
                assert(views(out@.push(line)) == before.push(line@));
                assert(before.push(rest) + Seq::<Seq<char>>::empty() == before + seq![rest]);
            }
            out.push(line);
            from = end;
        } else {
            let stop: usize = if end > from && text[end - 1] == '\r' {
                end - 1
            } else {
                end
            };
            let line = slice_of(text, from, stop);
            proof {
                let whole = rest.take(end - from);
                assert(whole == text@.subrange(from as int, end as int));
                assert(line@ == without_cr(whole)) by {
                    if end > from {
                        assert(whole.last() == text@[end - 1]);
                    }
                }
                assert(rest.skip(end - from + 1) == text@.skip(end + 1));
                assert(views(out@.push(line)) == before.push(line@));
                assert(before.push(line@) + lines(text@.skip(end + 1)) == before + (seq![line@]
                    + lines(text@.skip(end + 1))));
            }
            out.push(line);
            from = end + 1;
        }
    }
    proof {
        assert(text@.skip(from as int).len() == 0);
        assert(views(out@) + Seq::<Seq<char>>::empty() == views(out@));
    }
    out
}

/// The fields that `sep` divides `text` into.
pub fn split(text: &Vec<char>, sep: char) -> (out: Vec<Vec<char>>)
    ensures
        views(out@) == fields(text@, sep),
{
    let mut out: Vec<Vec<char>> = Vec::new();
    let mut from: usize = 0;
    proof {
        assert(text@.skip(0) == text@);
        assert(views(out@) + fields(text@, sep) == fields(text@, sep));
    }
    loop
        invariant
            from <= text.len(),
            views(out@) + fields(text@.skip(from as int), sep) == fields(text@, sep),
        decreases text.len() - from,
    {
        let ghost rest = text@.skip(from as int);
        let ghost before = views(out@);
        let end = find_sep(text, sep, from);
        let part = slice_of(text, from, end);
        proof {
            assert(part@ == rest.take(end - from));
            assert(views(out@.push(part)) == before.push(part@));
        }
        out.push(part);
        if end >= text.len() {
            proof {
                assert(rest.take(end - from) == rest);
                assert(before.push(rest) == before + seq![rest]);
            }
            return out;
        }
        proof {
            assert(rest.skip(end - from + 1) == text@.skip(end + 1));
            assert(before.push(part@) + fields(text@.skip(end + 1), sep) == before + (seq![part@]
                + fields(text@.skip(end + 1), sep)));
        }
        from = end + 1;
    }
}

/// The fields of a text are its first field, its second, and so on.
pub proof fn lemma_fields_are_fields(text: Seq<char>, sep: char, n: nat)
    ensures
        fields(text, sep).len() >= 1,
        field(text, sep, n) == if n < fields(text, sep).len() {
            Some(fields(text, sep)[n as int])
        } else {
            None
        },
    decreases text.len(),
{
    let end = field_end(text, sep) as int;
    lemma_field_end_bounds(text, sep);
    if end < text.len() {
        lemma_fields_are_fields(text.skip(end + 1), sep, 0);
        if n > 0 {
            lemma_fields_are_fields(text.skip(end + 1), sep, (n - 1) as nat);
        }
    } else {
        assert(text.take(end) == text);
    }
}

} // verus!

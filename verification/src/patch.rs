//! Rewriting the bank numbers in the text of an object file.
//!
//! One bank number is replaced by another in three steps, each on the text
//! that the step before it left:
//!
//! 1. A line whose words are `S`, `b_<name>` and `Def<old>` gives the bank
//!    of the banked function `<name>`. Where the text defines that
//!    function, in a line whose first words are `S` and `_<name>`, the
//!    third word becomes `Def<new>`. The bank of a function that the text
//!    only calls is left as it is.
//! 2. Each `CODE_<old>` that no decimal digit follows becomes
//!    `CODE_<new>`, so that the area of bank 5 is renamed and the area of
//!    bank 55 is not.
//! 3. Each `__bank_<name> Def<old>` becomes `__bank_<name> Def<new>`. This
//!    step is a regular expression, applied by the `regex` crate. It
//!    takes the old value with zeros before it, and only where the value
//!    ends after its last digit.
//!
//! In the symbols the numbers stand in upper-case hexadecimal digits, at
//! least six of them, and in the area names in decimal digits. The words
//! of a line are divided by single spaces. Line endings are kept.

use crate::numeral::{decimal, decimal_of, digit_of, digit_value, hex6, hex6_of};
use crate::pack::BankReplacement;
use crate::text::{
    append, begins_with, chars_of, field, field_end, find_sep, lemma_field_end_bounds, lines,
    matches_at, nth_field, occurs_at, same, slice_of, split_lines, starts_with, string_of, views,
    without_cr,
};
use vstd::prelude::*;

verus! {

/// Whether the `regex` crate accepts `pattern` as a regular expression:
/// whether `regex::Regex::new` returns `Ok` for it.
pub uninterp spec fn regex_accepts(pattern: Seq<char>) -> bool;

/// What `regex::Regex::replace_all` returns for the text `text` and the
/// replacement string `template`, on the regular expression that
/// `regex::Regex::new` makes of `pattern`.
pub uninterp spec fn regex_replaced(pattern: Seq<char>, text: Seq<char>, template: Seq<char>) -> Seq<
    char,
>;

/// Whether `pattern` is the regular expression for the bank symbols of
/// some bank. The `regex` crate is called with such patterns only.
pub open spec fn is_bank_symbol_pattern(pattern: Seq<char>) -> bool {
    exists|from: u32| pattern == bank_symbol_pattern(from)
}

/// Calls `regex::Regex::new` and tells whether it accepted `pattern`.
/// Nothing is claimed but that the answer depends on `pattern` alone.
#[verifier::external_body]
fn regex_compiles(pattern: &str) -> (accepted: bool)
    requires
        is_bank_symbol_pattern(pattern@),
    ensures
        accepted == regex_accepts(pattern@),
{
    regex::Regex::new(pattern).is_ok()
}

/// Calls `regex::Regex::replace_all` on the regular expression `pattern`,
/// with `template` as the replacement string, in which `${s}` stands for
/// what the group named `s` matched. Nothing is claimed of the result but
/// that it depends on the three arguments alone. A `pattern` that
/// `regex::Regex::new` refuses is left out.
#[verifier::external_body]
fn regex_replace_all(pattern: &str, text: &str, template: &str) -> (out: String)
    requires
        is_bank_symbol_pattern(pattern@),
        regex_accepts(pattern@),
    ensures
        out@ == regex_replaced(pattern@, text@, template@),
{
    regex::Regex::new(pattern).unwrap().replace_all(text, template).into_owned()
}

/// Whether `line` defines the function `name`: whether its first word is
/// `S` and its second is `_<name>`.
pub open spec fn is_definition_of(line: Seq<char>, name: Seq<char>) -> bool {
    field(line, ' ', 0) == Some("S"@) && field(line, ' ', 1) == Some("_"@ + name)
}

/// Whether one of `lines` defines the function `name`.
pub open spec fn defines(lines: Seq<Seq<char>>, name: Seq<char>) -> bool {
    exists|i: int| 0 <= i < lines.len() && is_definition_of(#[trigger] lines[i], name)
}

/// The name of the banked function whose bank `line` gives as `from`: the
/// line's words are `S`, `b_<name>` and `Def<from>`, and more words may
/// follow.
pub open spec fn bank_symbol_name(line: Seq<char>, from: u32) -> Option<Seq<char>> {
    match (field(line, ' ', 0), field(line, ' ', 1), field(line, ' ', 2)) {
        (Some(first), Some(symbol), Some(value)) => if first == "S"@ && starts_with(
            symbol,
            "b_"@,
        ) && value == "Def"@ + hex6(from as nat) {
            Some(symbol.skip(2))
        } else {
            None
        },
        _ => None,
    }
}

/// `line`, which has three words or more, with `word` in place of its
/// third word.
pub open spec fn third_word_replaced(line: Seq<char>, word: Seq<char>) -> Seq<char> {
    let second = field_end(line, ' ') as int + 1;
    let third = second + field_end(line.skip(second), ' ') as int + 1;
    let end = third + field_end(line.skip(third), ' ') as int;
    line.take(third) + word + line.skip(end)
}

/// `line` with the bank `from` replaced by `to`, if the line gives `from`
/// as the bank of a banked function that one of `all` defines; else the
/// line as it is.
pub open spec fn line_rewritten(line: Seq<char>, all: Seq<Seq<char>>, from: u32, to: u32) -> Seq<
    char,
> {
    match bank_symbol_name(line, from) {
        Some(name) => if defines(all, name) {
            third_word_replaced(line, "Def"@ + hex6(to as nat))
        } else {
            line
        },
        None => line,
    }
}

/// `text` with each of its lines rewritten, where `all` are the lines
/// that may define a function. Each line keeps its line ending.
pub open spec fn banked_fns_rewritten(text: Seq<char>, all: Seq<Seq<char>>, from: u32, to: u32)
    -> Seq<char>
    decreases text.len(),
{
    if text.len() == 0 {
        text
    } else {
        let end = field_end(text, '\n') as int;
        if end >= text.len() {
            line_rewritten(text, all, from, to)
        } else {
            let line = without_cr(text.take(end));
            line_rewritten(line, all, from, to) + text.subrange(line.len() as int, end + 1)
                + banked_fns_rewritten(text.skip(end + 1), all, from, to)
        }
    }
}

/// Whether `pat` stands in `text` at position `at` and no decimal digit
/// follows it there.
pub open spec fn ends_number_at(text: Seq<char>, pat: Seq<char>, at: int) -> bool {
    &&& occurs_at(text, pat, at)
    &&& (at + pat.len() == text.len() || digit_value(text[at + pat.len()], 10) is None)
}

/// `text` with `rep` in place of every occurrence of the non-empty `pat`
/// that no decimal digit follows. Occurrences are taken from the left;
/// everything else is left as it is.
pub open spec fn number_replaced(text: Seq<char>, pat: Seq<char>, rep: Seq<char>) -> Seq<char>
    decreases text.len(),
{
    if pat.len() == 0 || text.len() < pat.len() {
        text
    } else if ends_number_at(text, pat, 0) {
        rep + number_replaced(text.skip(pat.len() as int), pat, rep)
    } else {
        seq![text[0]] + number_replaced(text.skip(1), pat, rep)
    }
}

/// `text` with each `CODE_<from>` that no decimal digit follows replaced
/// by `CODE_<to>`: the names of the areas of bank `from`, and of no other
/// bank.
pub open spec fn code_areas_renamed(text: Seq<char>, from: u32, to: u32) -> Seq<char> {
    number_replaced(text, "CODE_"@ + decimal(from as nat), "CODE_"@ + decimal(to as nat))
}

/// The regular expression for the bank symbols whose value is `from`:
/// `__bank_`, the rest of the symbol's name up to the next space, ` Def`,
/// zeros or none, and `from` in six hexadecimal digits, after which the
/// value has to end.
pub open spec fn bank_symbol_pattern(from: u32) -> Seq<char> {
    "__bank_(?P<s>[^ ]*) Def[0]*"@ + hex6(from as nat) + "\\b"@
}

/// The replacement string that gives a bank symbol the value `to` and
/// leaves it its name.
pub open spec fn bank_symbol_template(to: u32) -> Seq<char> {
    "__bank_${s} Def"@ + hex6(to as nat)
}

/// `text` with the bank `from` replaced by `to`, as far as the text is
/// rewritten without a regular expression: the banked functions that the
/// text defines, then the names of the areas.
pub open spec fn plainly_rewritten(text: Seq<char>, from: u32, to: u32) -> Seq<char> {
    code_areas_renamed(banked_fns_rewritten(text, lines(text), from, to), from, to)
}

/// `text` with the bank `from` replaced by `to`.
pub open spec fn bank_replaced(text: Seq<char>, from: u32, to: u32) -> Seq<char> {
    regex_replaced(
        bank_symbol_pattern(from),
        plainly_rewritten(text, from, to),
        bank_symbol_template(to),
    )
}

/// `text` after each of `replacements` was made, in their order, each on
/// the text that the one before it left.
pub open spec fn all_banks_replaced(text: Seq<char>, replacements: Seq<BankReplacement>) -> Seq<
    char,
>
    decreases replacements.len(),
{
    if replacements.len() == 0 {
        text
    } else {
        bank_replaced(
            all_banks_replaced(text, replacements.drop_last()),
            replacements.last().from,
            replacements.last().to,
        )
    }
}

/// Whether the `regex` crate accepts the regular expression of every one
/// of `replacements`.
pub open spec fn patterns_accepted(replacements: Seq<BankReplacement>) -> bool {
    forall|i: int|
        0 <= i < replacements.len() ==> regex_accepts(
            bank_symbol_pattern((#[trigger] replacements[i]).from),
        )
}

/// `Def` and the bank number `bank` in six hexadecimal digits.
fn symbol_value(bank: u32) -> (out: Vec<char>)
    ensures
        out@ == "Def"@ + hex6(bank as nat),
{
    let mut out = chars_of("Def");
    let digits = hex6_of(bank);
    append(&mut out, &digits);
    out
}

/// Whether `line` defines the function `name`.
fn is_definition(line: &Vec<char>, name: &Vec<char>) -> (found: bool)
    ensures
        found == is_definition_of(line@, name@),
{
    let first = nth_field(line, ' ', 0);
    let second = nth_field(line, ' ', 1);
    match (first, second) {
        (Some(first), Some(second)) => {
            let letter = chars_of("S");
            let mut symbol = chars_of("_");
            append(&mut symbol, name);
            same(&first, &letter) && same(&second, &symbol)
        },
        _ => false,
    }
}

/// Whether one of `all` defines the function `name`.
fn is_defined(all: &Vec<Vec<char>>, name: &Vec<char>) -> (found: bool)
    ensures
        found == defines(views(all@), name@),
{
    let mut i: usize = 0;
    while i < all.len()
        invariant
            i <= all.len(),
            forall|j: int| 0 <= j < i ==> !is_definition_of(#[trigger] views(all@)[j], name@),
        decreases all.len() - i,
    {
        if is_definition(&all[i], name) {
            proof {
                assert(is_definition_of(views(all@)[i as int], name@));
            }
            return true;
        }
        i = i + 1;
    }
    false
}

/// `line` with the bank `from` replaced by `to`, if the line gives `from`
/// as the bank of a banked function that one of `all` defines.
fn rewrite_line(line: &Vec<char>, all: &Vec<Vec<char>>, from: u32, to: u32) -> (out: Vec<char>)
    ensures
        out@ == line_rewritten(line@, views(all@), from, to),
{
    let whole = slice_of(line, 0, line.len());
    proof {
        assert(whole@ == line@);
        reveal_with_fuel(field, 3);
    }
    let first_end = find_sep(line, ' ', 0);
    proof {
        assert(line@.skip(0) == line@);
    }
    if first_end >= line.len() {
        return whole;
    }
    let second = first_end + 1;
    let second_end = find_sep(line, ' ', second);
    if second_end >= line.len() {
        return whole;
    }
    let third = second_end + 1;
    let third_end = find_sep(line, ' ', third);
    let first = slice_of(line, 0, first_end);
    let symbol = slice_of(line, second, second_end);
    let value = slice_of(line, third, third_end);
    proof {
        let rest = line@.skip(second as int);
        assert(rest.skip(second_end - second + 1) == line@.skip(third as int));
        assert(field(line@, ' ', 0) == Some(first@));
        assert(rest.take(second_end - second) == symbol@);
        assert(field(line@, ' ', 1) == Some(symbol@));
        assert(line@.skip(third as int).take(third_end - third) == value@);
        assert(field(line@, ' ', 2) == Some(value@));
    }
    let letter = chars_of("S");
    let marker = chars_of("b_");
    let old_value = symbol_value(from);
    proof {
        reveal_strlit("b_");
    }
    if !(same(&first, &letter) && begins_with(&symbol, &marker) && same(&value, &old_value)) {
        return whole;
    }
    let name = slice_of(&symbol, 2, symbol.len());
    proof {
        assert(name@ == symbol@.skip(2));
    }
    if !is_defined(all, &name) {
        return whole;
    }
    let mut out = slice_of(line, 0, third);
    let new_value = symbol_value(to);
    append(&mut out, &new_value);
    let rest = slice_of(line, third_end, line.len());
    append(&mut out, &rest);
    proof {
        assert(line@.subrange(0, third as int) == line@.take(third as int));
        assert(line@.subrange(third_end as int, line.len() as int) == line@.skip(third_end as int));
    }
    out
}

/// `text` with each of its lines rewritten, each keeping its line ending.
fn rewrite_banked_fns(text: &Vec<char>, from: u32, to: u32) -> (out: Vec<char>)
    ensures
        out@ == banked_fns_rewritten(text@, lines(text@), from, to),
{
    let all = split_lines(text);
    let ghost defined = lines(text@);
    let mut out: Vec<char> = Vec::new();
    let mut at: usize = 0;
    proof {
        assert(text@.skip(0) == text@);
        assert(out@ + banked_fns_rewritten(text@, defined, from, to) == banked_fns_rewritten(
            text@,
            defined,
            from,
            to,
        ));
    }
    while at < text.len()
        invariant
            at <= text.len(),
            views(all@) == defined,
            out@ + banked_fns_rewritten(text@.skip(at as int), defined, from, to)
                == banked_fns_rewritten(text@, defined, from, to),
        decreases text.len() - at,
    {
        let ghost rest = text@.skip(at as int);
        let ghost before = out@;
        let end = find_sep(text, '\n', at);
        if end >= text.len() {
            let line = slice_of(text, at, end);
            let rewritten = rewrite_line(&line, &all, from, to);
            proof {
                assert(line@ == rest);
                assert(text@.skip(end as int).len() == 0);
                assert(before + rewritten@ + banked_fns_rewritten(
                    text@.skip(end as int),
                    defined,
                    from,
                    to,
                ) == before + rewritten@);
            }
            append(&mut out, &rewritten);
            at = end;
        } else {
            let stop: usize = if end > at && text[end - 1] == '\r' {
                end - 1
            } else {
                end
            };
            let line = slice_of(text, at, stop);
            let ending = slice_of(text, stop, end + 1);
            let rewritten = rewrite_line(&line, &all, from, to);
            proof {
                let whole = rest.take(end - at);
                assert(whole == text@.subrange(at as int, end as int));
                assert(line@ == without_cr(whole)) by {
                    if end > at {
                        assert(whole.last() == text@[end - 1]);
                    }
                }
                assert(ending@ == rest.subrange(line@.len() as int, end - at + 1));
                assert(rest.skip(end - at + 1) == text@.skip(end + 1));
                let tail = banked_fns_rewritten(text@.skip(end + 1), defined, from, to);
                assert(banked_fns_rewritten(rest, defined, from, to) == rewritten@ + ending@
                    + tail);
                assert(before + rewritten@ + ending@ + tail == before + (rewritten@ + ending@
                    + tail));
            }
            append(&mut out, &rewritten);
            append(&mut out, &ending);
            at = end + 1;
        }
    }
    proof {
        assert(text@.skip(at as int).len() == 0);
        assert(out@ + banked_fns_rewritten(text@.skip(at as int), defined, from, to) == out@);
    }
    out
}

/// `text` with `rep` in place of every occurrence of `pat` that no
/// decimal digit follows.
fn replace_number(text: &Vec<char>, pat: &Vec<char>, rep: &Vec<char>) -> (out: Vec<char>)
    requires
        pat.len() > 0,
    ensures
        out@ == number_replaced(text@, pat@, rep@),
{
    let mut out: Vec<char> = Vec::new();
    let mut at: usize = 0;
    proof {
        assert(text@.skip(0) == text@);
        assert(out@ + number_replaced(text@, pat@, rep@) == number_replaced(text@, pat@, rep@));
    }
    while at < text.len()
        invariant
            at <= text.len(),
            pat.len() > 0,
            out@ + number_replaced(text@.skip(at as int), pat@, rep@) == number_replaced(
                text@,
                pat@,
                rep@,
            ),
        decreases text.len() - at,
    {
        let ghost rest = text@.skip(at as int);
        let found = matches_at(text, pat, at) && (at + pat.len() == text.len() || digit_of(
            text[at + pat.len()],
            10,
        ).is_none());
        proof {
            if rest.len() >= pat.len() {
                assert(rest.subrange(0, pat.len() as int) == text@.subrange(
                    at as int,
                    at + pat.len(),
                ));
                if at + pat.len() < text.len() {
                    assert(rest[pat.len() as int] == text@[at + pat.len()]);
                }
            }
            assert(found == ends_number_at(rest, pat@, 0));
        }
        if found {
            proof {
                assert(rest.skip(pat.len() as int) == text@.skip(at + pat.len()));
                assert(out@ + (rep@ + number_replaced(rest.skip(pat.len() as int), pat@, rep@))
                    == out@ + rep@ + number_replaced(rest.skip(pat.len() as int), pat@, rep@));
            }
            append(&mut out, rep);
            at = at + pat.len();
        } else {
            proof {
                assert(rest.skip(1) == text@.skip(at + 1));
                if rest.len() >= pat.len() {
                    assert(out@ + (seq![rest[0]] + number_replaced(rest.skip(1), pat@, rep@))
                        == out@.push(text@[at as int]) + number_replaced(
                        rest.skip(1),
                        pat@,
                        rep@,
                    ));
                } else {
                    assert(number_replaced(rest, pat@, rep@) == rest);
                    assert(number_replaced(rest.skip(1), pat@, rep@) == rest.skip(1));
                    assert(out@ + rest == out@.push(text@[at as int]) + rest.skip(1));
                }
            }
            out.push(text[at]);
            at = at + 1;
        }
    }
    proof {
        assert(text@.skip(at as int).len() == 0);
        assert(out@ + number_replaced(text@.skip(at as int), pat@, rep@) == out@);
    }
    out
}

/// `text` with each `CODE_<from>` that no decimal digit follows replaced
/// by `CODE_<to>`.
fn rename_code_areas(text: &Vec<char>, from: u32, to: u32) -> (out: Vec<char>)
    ensures
        out@ == code_areas_renamed(text@, from, to),
{
    let mut find = chars_of("CODE_");
    let old_bank = decimal_of(from);
    append(&mut find, &old_bank);
    let mut with = chars_of("CODE_");
    let new_bank = decimal_of(to);
    append(&mut with, &new_bank);
    proof {
        reveal_strlit("CODE_");
    }
    replace_number(text, &find, &with)
}

/// The regular expression for the bank symbols whose value is `from`.
fn bank_symbol_pattern_for(from: u32) -> (pattern: String)
    ensures
        pattern@ == bank_symbol_pattern(from),
{
    let mut chars = chars_of("__bank_(?P<s>[^ ]*) Def[0]*");
    let digits = hex6_of(from);
    append(&mut chars, &digits);
    let boundary = chars_of("\\b");
    append(&mut chars, &boundary);
    string_of(&chars)
}

/// The replacement string that gives a bank symbol the value `to`.
fn bank_symbol_template_for(to: u32) -> (template: String)
    ensures
        template@ == bank_symbol_template(to),
{
    let mut chars = chars_of("__bank_${s} Def");
    let digits = hex6_of(to);
    append(&mut chars, &digits);
    string_of(&chars)
}

/// `object_string` with the bank `original_bank` replaced by `bank_no`:
/// in the bank symbols of the banked functions that the text defines, in
/// the names of the areas, and in the symbols named `__bank_...`.
///
/// The last of these is done by a regular expression, which the `regex`
/// crate has to accept.
pub fn replace_bank(object_string: &String, original_bank: u32, bank_no: u32) -> (out: String)
    requires
        regex_accepts(bank_symbol_pattern(original_bank)),
    ensures
        out@ == bank_replaced(object_string@, original_bank, bank_no),
{
    let text = chars_of(object_string.as_str());
    let rewritten = rewrite_banked_fns(&text, original_bank, bank_no);
    let renamed = rename_code_areas(&rewritten, original_bank, bank_no);
    let plain = string_of(&renamed);
    let pattern = bank_symbol_pattern_for(original_bank);
    let template = bank_symbol_template_for(bank_no);
    regex_replace_all(pattern.as_str(), plain.as_str(), template.as_str())
}

/// `object_string` after each of `replacements` was made, in their order,
/// each on the text that the one before it left.
pub fn replace_all_banks(object_string: &String, replacements: Vec<BankReplacement>) -> (out: String)
    requires
        patterns_accepted(replacements@),
    ensures
        out@ == all_banks_replaced(object_string@, replacements@),
{
    let mut out = object_string.clone();
    let mut i: usize = 0;
    proof {
        assert(replacements@.take(0) == Seq::<BankReplacement>::empty());
    }
    while i < replacements.len()
        invariant
            i <= replacements.len(),
            patterns_accepted(replacements@),
            out@ == all_banks_replaced(object_string@, replacements@.take(i as int)),
        decreases replacements.len() - i,
    {
        proof {
            let upto = replacements@.take(i + 1);
            assert(upto.drop_last() == replacements@.take(i as int));
            assert(upto.last() == replacements@[i as int]);
        }
        out = replace_bank(&out, replacements[i].from, replacements[i].to);
        i = i + 1;
    }
    proof {
        assert(replacements@.take(i as int) == replacements@);
    }
    out
}

/// `object_string` after each of `replacements` was made, if the `regex`
/// crate accepts the regular expression of every one of them; else
/// nothing is rewritten.
pub fn try_replace_all_banks(object_string: &String, replacements: Vec<BankReplacement>) -> (out:
    Option<String>)
    ensures
        out is Some <==> patterns_accepted(replacements@),
        out matches Some(text) ==> text@ == all_banks_replaced(object_string@, replacements@),
{
    let mut i: usize = 0;
    while i < replacements.len()
        invariant
            i <= replacements.len(),
            forall|n: int|
                0 <= n < i ==> regex_accepts(
                    bank_symbol_pattern((#[trigger] replacements@[n]).from),
                ),
        decreases replacements.len() - i,
    {
        let pattern = bank_symbol_pattern_for(replacements[i].from);
        if !regex_compiles(pattern.as_str()) {
            return None;
        }
        i = i + 1;
    }
    Some(replace_all_banks(object_string, replacements))
}

/// The lines of a text that goes on after a line feed are its first line
/// and the lines of what follows.
proof fn lemma_lines_after(text: Seq<char>)
    requires
        field_end(text, '\n') < text.len(),
    ensures
        lines(text) == seq![without_cr(text.take(field_end(text, '\n') as int))] + lines(
            text.skip(field_end(text, '\n') as int + 1),
        ),
{
}

/// A text none of whose lines gives `from` as the bank of a banked
/// function keeps all its lines, whatever functions are defined.
proof fn lemma_banked_fns_settled(text: Seq<char>, all: Seq<Seq<char>>, from: u32, to: u32)
    requires
        forall|i: int|
            0 <= i < lines(text).len() ==> bank_symbol_name(#[trigger] lines(text)[i], from)
                is None,
    ensures
        banked_fns_rewritten(text, all, from, to) == text,
    decreases text.len(),
{
    if text.len() > 0 {
        let end = field_end(text, '\n') as int;
        lemma_field_end_bounds(text, '\n');
        if end >= text.len() {
            assert(lines(text)[0] == text);
        } else {
            let line = without_cr(text.take(end));
            let rest = text.skip(end + 1);
            lemma_lines_after(text);
            assert(lines(text)[0] == line);
            assert forall|i: int| 0 <= i < lines(rest).len() implies bank_symbol_name(
                #[trigger] lines(rest)[i],
                from,
            ) is None by {
                assert(lines(text)[i + 1] == lines(rest)[i]);
            }
            lemma_banked_fns_settled(rest, all, from, to);
            assert(line + text.subrange(line.len() as int, end + 1) + rest == text);
        }
    }
}

/// A text in which a decimal digit follows every occurrence of `pat` is
/// left as it is.
proof fn lemma_number_replaced_settled(text: Seq<char>, pat: Seq<char>, rep: Seq<char>)
    requires
        forall|at: int| !ends_number_at(text, pat, at),
    ensures
        number_replaced(text, pat, rep) == text,
    decreases text.len(),
{
    if pat.len() != 0 && text.len() >= pat.len() {
        assert(!ends_number_at(text, pat, 0));
        let rest = text.skip(1);
        assert forall|at: int| !ends_number_at(rest, pat, at) by {
            if ends_number_at(rest, pat, at) {
                assert(rest.subrange(at, at + pat.len()) == text.subrange(
                    at + 1,
                    at + 1 + pat.len(),
                ));
                if at + pat.len() < rest.len() {
                    assert(rest[at + pat.len()] == text[at + 1 + pat.len()]);
                }
                assert(ends_number_at(text, pat, at + 1));
            }
        }
        lemma_number_replaced_settled(rest, pat, rep);
        assert(seq![text[0]] + rest == text);
    }
}

/// Replacing a bank that the text does not name changes nothing, as far
/// as the text is rewritten without a regular expression. A text is left
/// as it is by those steps, and all that is done to it is done by the
/// regular expression, where none of its lines gives `from` as the bank
/// of a banked function and a decimal digit follows `CODE_<from>`
/// wherever that stands: the areas that it names are those of other
/// banks.
pub proof fn lemma_plainly_rewritten_settled(text: Seq<char>, from: u32, to: u32)
    requires
        forall|i: int|
            0 <= i < lines(text).len() ==> bank_symbol_name(#[trigger] lines(text)[i], from)
                is None,
        forall|at: int| !ends_number_at(text, "CODE_"@ + decimal(from as nat), at),
    ensures
        plainly_rewritten(text, from, to) == text,
        bank_replaced(text, from, to) == regex_replaced(
            bank_symbol_pattern(from),
            text,
            bank_symbol_template(to),
        ),
{
    lemma_banked_fns_settled(text, lines(text), from, to);
    lemma_number_replaced_settled(
        text,
        "CODE_"@ + decimal(from as nat),
        "CODE_"@ + decimal(to as nat),
    );
}

} // verus!

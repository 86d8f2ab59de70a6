//! Reading the banked areas that an object file declares.
//!
//! An area is declared on a line of its own, such as
//! `A _CODE_3 size ff flags 0 addr 0`: the second word ends in the number
//! of the area's bank, in decimal, and the fourth word is the area's size
//! in bytes, in hexadecimal.

use crate::numeral::{
    decimal, digit_value, hex, lemma_number_of_numeral, lemma_numeral_value, number, parse_number,
};
use crate::pack::ObjectBankData;
use crate::text::{
    chars_of, contains, field, has, lemma_field_end_is, lines, nth_field, occurs_at, split_lines,
    views,
};
use vstd::prelude::*;

verus! {

/// Why the declaration of an area cannot be read.
#[derive(Debug, Eq, PartialEq, Clone, Copy)]
pub enum ParseError {
    /// The line has fewer than four words, or its second word has fewer
    /// than three parts between underscores.
    MissingToken,
    /// The fourth word is no hexadecimal number of 32 bits.
    InvalidSize,
    /// The last part of the second word is no decimal number of 32 bits.
    InvalidBank,
}

/// The area that `line` declares. The words of a line are divided by
/// single spaces, the parts of a word by underscores.
pub open spec fn area_of_line(line: Seq<char>) -> Result<ObjectBankData, ParseError> {
    match (field(line, ' ', 1), field(line, ' ', 3)) {
        (Some(name), Some(digits)) => match number(digits, 16) {
            None => Err(ParseError::InvalidSize),
            Some(size) => match field(name, '_', 2) {
                None => Err(ParseError::MissingToken),
                Some(suffix) => match number(suffix, 10) {
                    None => Err(ParseError::InvalidBank),
                    Some(bank) => Ok(ObjectBankData { size, bank }),
                },
            },
        },
        _ => Err(ParseError::MissingToken),
    }
}

/// Whether `line` declares a banked area.
pub open spec fn is_area_line(line: Seq<char>) -> bool {
    contains(line, "A _CODE_"@)
}

/// The areas that `lines` declare, in their order; the error of the first
/// declaration that cannot be read.
pub open spec fn areas_of_lines(lines: Seq<Seq<char>>) -> Result<Seq<ObjectBankData>, ParseError>
    decreases lines.len(),
{
    if lines.len() == 0 {
        Ok(seq![])
    } else {
        match areas_of_lines(lines.drop_last()) {
            Err(e) => Err(e),
            Ok(before) => if is_area_line(lines.last()) {
                match area_of_line(lines.last()) {
                    Ok(area) => Ok(before.push(area)),
                    Err(e) => Err(e),
                }
            } else {
                Ok(before)
            },
        }
    }
}

/// The areas that the object text `text` declares.
pub open spec fn areas_of_text(text: Seq<char>) -> Result<Seq<ObjectBankData>, ParseError> {
    areas_of_lines(lines(text))
}

/// The line that declares `area`.
pub open spec fn area_line(area: ObjectBankData) -> Seq<char> {
    "A _CODE_"@ + decimal(area.bank as nat) + " size "@ + hex(area.size as nat)
        + " flags 0 addr 0"@
}

/// Once a declaration cannot be read, the error stays whatever lines
/// follow.
proof fn lemma_areas_of_lines_stops(lines: Seq<Seq<char>>, upto: int)
    requires
        0 <= upto <= lines.len(),
        areas_of_lines(lines.take(upto)) is Err,
    ensures
        areas_of_lines(lines) == areas_of_lines(lines.take(upto)),
    decreases lines.len(),
{
    if upto == lines.len() {
        assert(lines.take(upto) == lines);
    } else {
        assert(lines.drop_last().take(upto) == lines.take(upto));
        lemma_areas_of_lines_stops(lines.drop_last(), upto);
    }
}

/// The area that the characters `line` declare.
fn area_in(line: &Vec<char>) -> (result: Result<ObjectBankData, ParseError>)
    ensures
        result == area_of_line(line@),
{
    let name = match nth_field(line, ' ', 1) {
        Some(name) => name,
        None => {
            return Err(ParseError::MissingToken);
        },
    };
    let digits = match nth_field(line, ' ', 3) {
        Some(digits) => digits,
        None => {
            return Err(ParseError::MissingToken);
        },
    };
    let size = match parse_number(&digits, 16) {
        Some(size) => size,
        None => {
            return Err(ParseError::InvalidSize);
        },
    };
    let suffix = match nth_field(&name, '_', 2) {
        Some(suffix) => suffix,
        None => {
            return Err(ParseError::MissingToken);
        },
    };
    match parse_number(&suffix, 10) {
        Some(bank) => Ok(ObjectBankData { size, bank }),
        None => Err(ParseError::InvalidBank),
    }
}

/// The area that `line` declares: its size from the fourth word, its bank
/// from the end of the second.
pub fn parse_size(line: &String) -> (result: Result<ObjectBankData, ParseError>)
    ensures
        result == area_of_line(line@),
{
    let chars = chars_of(line.as_str());
    area_in(&chars)
}

/// The areas that the object text `contents` declares, in the order of
/// the text. A line declares an area if `A _CODE_` stands in it; the other
/// lines are passed over. The first declaration that cannot be read ends
/// the reading with its error.
pub fn parse_sizes(contents: &String) -> (result: Result<Vec<ObjectBankData>, ParseError>)
    ensures
        match result {
            Ok(banks) => areas_of_text(contents@) == Ok::<Seq<ObjectBankData>, ParseError>(banks@),
            Err(e) => areas_of_text(contents@) == Err::<Seq<ObjectBankData>, ParseError>(e),
        },
{
    let text = chars_of(contents.as_str());
    let all = split_lines(&text);
    let marker = chars_of("A _CODE_");
    let mut banks: Vec<ObjectBankData> = Vec::new();
    let mut i: usize = 0;
    proof {
        assert(views(all@).take(0) == Seq::<Seq<char>>::empty());
    }
    while i < all.len()
        invariant
            i <= all.len(),
            marker@ == "A _CODE_"@,
            views(all@) == lines(contents@),
            areas_of_lines(views(all@).take(i as int)) == Ok::<Seq<ObjectBankData>, ParseError>(
                banks@,
            ),
        decreases all.len() - i,
    {
        proof {
            let upto = views(all@).take(i + 1);
            assert(upto.drop_last() == views(all@).take(i as int));
            assert(upto.last() == all@[i as int]@);
        }
        if has(&all[i], &marker) {
            match area_in(&all[i]) {
                Ok(area) => {
                    banks.push(area);
                },
                Err(e) => {
                    proof {
                        lemma_areas_of_lines_stops(views(all@), i + 1);
                    }
                    return Err(e);
                },
            }
        }
        i = i + 1;
    }
    proof {
        assert(views(all@).take(i as int) == views(all@));
    }
    Ok(banks)
}

/// A text that begins with `head`, which holds no `sep`, and goes on with
/// `sep` and `rest` has `head` as its first field, and the fields of
/// `rest` as the others.
proof fn lemma_field_after(text: Seq<char>, sep: char, head: Seq<char>, rest: Seq<char>, n: nat)
    requires
        text == head + seq![sep] + rest,
        forall|i: int| 0 <= i < head.len() ==> head[i] != sep,
    ensures
        field(text, sep, 0) == Some(head),
        field(text, sep, n + 1) == field(rest, sep, n),
{
    assert forall|i: int| 0 <= i < head.len() implies text[i] != sep by {
        assert(text[i] == head[i]);
    }
    assert(text[head.len() as int] == sep);
    lemma_field_end_is(text, sep, head.len() as int);
    assert(text.take(head.len() as int) == head);
    assert(text.skip(head.len() as int + 1) == rest);
}

/// A text that holds no `sep` is one field.
proof fn lemma_field_whole(text: Seq<char>, sep: char)
    requires
        forall|i: int| 0 <= i < text.len() ==> text[i] != sep,
    ensures
        field(text, sep, 0) == Some(text),
{
    lemma_field_end_is(text, sep, text.len() as int);
    assert(text.take(text.len() as int) == text);
}

/// The line that declares an area is read as that area: writing an area
/// down and reading it gives the area back.
pub proof fn lemma_area_line_round_trip(area: ObjectBankData)
    ensures
        is_area_line(area_line(area)),
        area_of_line(area_line(area)) == Ok::<ObjectBankData, ParseError>(area),
{
    reveal_strlit("A _CODE_");
    reveal_strlit(" size ");
    reveal_strlit(" flags 0 addr 0");
    let bank = decimal(area.bank as nat);
    let size = hex(area.size as nat);
    let line = area_line(area);
    lemma_numeral_value(area.bank as nat, 10);
    lemma_numeral_value(area.size as nat, 16);
    lemma_number_of_numeral(area.bank, 10);
    lemma_number_of_numeral(area.size, 16);
    assert forall|i: int| 0 <= i < bank.len() implies bank[i] != ' ' && bank[i] != '_' by {
        assert(digit_value(bank[i], 10) is Some);
    }
    assert forall|i: int| 0 <= i < size.len() implies size[i] != ' ' by {
        assert(digit_value(size[i], 16) is Some);
    }
    assert(occurs_at(line, "A _CODE_"@, 0)) by {
        assert(line.subrange(0, 8) == "A _CODE_"@);
    }

    let name = seq!['_', 'C', 'O', 'D', 'E', '_'] + bank;
    let tail = seq!['f', 'l', 'a', 'g', 's', ' ', '0', ' ', 'a', 'd', 'd', 'r', ' ', '0'];
    let after_size = size + seq![' '] + tail;
    let after_name = seq!['s', 'i', 'z', 'e'] + seq![' '] + after_size;
    let after_a = name + seq![' '] + after_name;
    assert(line == seq!['A'] + seq![' '] + after_a);
    lemma_field_after(line, ' ', seq!['A'], after_a, 0);
    lemma_field_after(after_a, ' ', name, after_name, 0);
    assert(field(line, ' ', 1) == Some(name));
    lemma_field_after(line, ' ', seq!['A'], after_a, 2);
    lemma_field_after(after_a, ' ', name, after_name, 1);
    lemma_field_after(after_name, ' ', seq!['s', 'i', 'z', 'e'], after_size, 0);
    lemma_field_after(after_size, ' ', size, tail, 0);
    assert(field(line, ' ', 3) == Some(size));

    let after_code = seq!['C', 'O', 'D', 'E'] + seq!['_'] + bank;
    assert(name == Seq::<char>::empty() + seq!['_'] + after_code);
    lemma_field_after(name, '_', Seq::<char>::empty(), after_code, 1);
    lemma_field_after(after_code, '_', seq!['C', 'O', 'D', 'E'], bank, 0);
    lemma_field_whole(bank, '_');
    assert(field(name, '_', 2) == Some(bank));
}

/// Reading a declaration, writing the area down and reading that gives
/// the same area.
pub proof fn lemma_extract_round_trip(line: Seq<char>)
    requires
        area_of_line(line) is Ok,
    ensures
        area_of_line(area_line(area_of_line(line)->Ok_0)) == area_of_line(line),
{
    lemma_area_line_round_trip(area_of_line(line)->Ok_0);
}

} // verus!

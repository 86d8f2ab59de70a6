//! The table of bytes to leave free in each bank.
//!
//! The table is written as a list such as `1:7F3,2:00F`: entries divided
//! by commas, each a bank number in decimal, a colon, and a number of
//! bytes in hexadecimal.

use crate::numeral::{
    lemma_digits_value_prefix, natural, number, parse_natural, parse_number, unsigned_part,
};
use crate::text::{chars_of, fields, split, views};
use vstd::prelude::*;

verus! {

/// The number of banks that the table has an entry for: the banks 0 to
/// 2047.
pub const RESERVE_BANKS: usize = 2048;

/// The bank and the bytes that the entry `item` names, if it is an entry:
/// if a colon divides it into two parts. A part that is no number
/// counts as 0.
pub open spec fn reserve_entry(item: Seq<char>) -> Option<(int, u32)> {
    let parts = fields(item, ':');
    if parts.len() == 2 {
        Some(
            (
                match natural(parts[0], 10) {
                    Some(bank) => bank,
                    None => 0,
                },
                match number(parts[1], 16) {
                    Some(bytes) => bytes,
                    None => 0,
                },
            ),
        )
    } else {
        None
    }
}

/// The table that the entries `items` give: 0 for every bank but those
/// that an entry names, where the last such entry counts. Items that are
/// no entries are passed over. There is no table where an entry names a
/// bank that the table has no place for.
pub open spec fn reserve_table(items: Seq<Seq<char>>) -> Option<Seq<u32>>
    decreases items.len(),
{
    if items.len() == 0 {
        Some(Seq::new(RESERVE_BANKS as nat, |bank: int| 0u32))
    } else {
        match (reserve_table(items.drop_last()), reserve_entry(items.last())) {
            (None, _) => None,
            (Some(table), None) => Some(table),
            (Some(table), Some((bank, bytes))) => if bank < RESERVE_BANKS {
                Some(table.update(bank, bytes))
            } else {
                None
            },
        }
    }
}

/// Once an entry names a bank beyond the table, there is no table
/// whatever entries follow.
proof fn lemma_reserve_table_stops(items: Seq<Seq<char>>, upto: int)
    requires
        0 <= upto <= items.len(),
        reserve_table(items.take(upto)) is None,
    ensures
        reserve_table(items) is None,
    decreases items.len(),
{
    if upto == items.len() {
        assert(items.take(upto) == items);
    } else {
        assert(items.drop_last().take(upto) == items.take(upto));
        lemma_reserve_table_stops(items.drop_last(), upto);
    }
}

/// The table that the list `list` gives, with an entry for each of the
/// banks 0 to 2047; `None` where the list names a bank above 2047.
pub fn parse_reserve(list: &String) -> (table: Option<Vec<u32>>)
    ensures
        match table {
            Some(t) => reserve_table(fields(list@, ',')) == Some(t@),
            None => reserve_table(fields(list@, ',')) is None,
        },
        table matches Some(t) ==> t.len() == RESERVE_BANKS,
{
    let text = chars_of(list.as_str());
    let items = split(&text, ',');
    let mut table: Vec<u32> = Vec::new();
    while table.len() < RESERVE_BANKS
        invariant
            table.len() <= RESERVE_BANKS,
            forall|bank: int| 0 <= bank < table.len() ==> table@[bank] == 0,
        decreases RESERVE_BANKS - table.len(),
    {
        table.push(0);
    }
    let mut i: usize = 0;
    proof {
        assert(views(items@).take(0) == Seq::<Seq<char>>::empty());
        assert(table@ == Seq::new(RESERVE_BANKS as nat, |bank: int| 0u32));
    }
    while i < items.len()
        invariant
            i <= items.len(),
            table.len() == RESERVE_BANKS,
            views(items@) == fields(list@, ','),
            reserve_table(views(items@).take(i as int)) == Some(table@),
        decreases items.len() - i,
    {
        proof {
            let upto = views(items@).take(i + 1);
            assert(upto.drop_last() == views(items@).take(i as int));
            assert(upto.last() == items@[i as int]@);
        }
        let parts = split(&items[i], ':');
        if parts.len() == 2 {
            proof {
                assert(views(parts@)[0] == parts@[0]@);
                assert(views(parts@)[1] == parts@[1]@);
                if natural(parts@[0]@, 10) is Some {
                    lemma_digits_value_prefix(unsigned_part(parts@[0]@), 10, 0);
                }
            }
            let bank: u64 = match parse_natural(&parts[0], 10, RESERVE_BANKS as u64) {
                Some(bank) => bank,
                None => 0,
            };
            let bytes: u32 = match parse_number(&parts[1], 16) {
                Some(bytes) => bytes,
                None => 0,
            };
            if bank >= RESERVE_BANKS as u64 {
                proof {
                    lemma_reserve_table_stops(views(items@), i + 1);
                }
                return None;
            }
            table.set(bank as usize, bytes);
        }
        i = i + 1;
    }
    proof {
        assert(views(items@).take(i as int) == views(items@));
    }
    Some(table)
}

} // verus!

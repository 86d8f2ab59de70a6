//! What holds of every packing.

use crate::pack::{
    all_areas, bank_number, bin_replacements, by_size_descending, empty_bins, first_fit,
    first_open, first_overflow, grown, inserted_by_size, is_pinned, is_skipped,
    lemma_bank_number_bounds, lemma_by_size_descending_permutes, lemma_first_fit,
    lemma_pinned_banks_exist, overflows, packable, packed, pin, pin_all, place, place_all, put,
    replacements, reserved, used, ObjectBankData, ObjectData, Placed, BANK_SIZE,
};
use vstd::multiset::Multiset;
use vstd::prelude::*;

verus! {

/// No bank of `bins` holds more than a bank's size, the reserved bytes
/// counted in.
pub open spec fn within_capacity(bins: Seq<Seq<Placed>>, reserve: Seq<u32>) -> bool {
    forall|k: int|
        0 <= k < bins.len() ==> used(#[trigger] bins[k]) + reserved(reserve, k + 1) <= BANK_SIZE
}

/// Every pinned area in `bins` is in the bank that it names.
pub open spec fn pinned_in_place(bins: Seq<Seq<Placed>>, filter: u32) -> bool {
    forall|k: int, j: int|
        0 <= k < bins.len() && 0 <= j < bins[k].len() && is_pinned(
            (#[trigger] bins[k][j]).1,
            filter,
        ) ==> bins[k][j].1.bank == k + 1
}

/// Every area in `bins` that is not pinned is in bank `start_bank` or in
/// a later one.
pub open spec fn packed_from(bins: Seq<Seq<Placed>>, filter: u32, start_bank: u32) -> bool {
    forall|k: int, j: int|
        0 <= k < bins.len() && 0 <= j < bins[k].len() && !is_pinned(
            (#[trigger] bins[k][j]).1,
            filter,
        ) ==> k + 1 >= start_bank
}

/// Every area in `bins` is pinned.
pub open spec fn all_pinned(bins: Seq<Seq<Placed>>, filter: u32) -> bool {
    forall|k: int, j: int|
        0 <= k < bins.len() && 0 <= j < bins[k].len() ==> is_pinned(
            (#[trigger] bins[k][j]).1,
            filter,
        )
}

/// A bank with one more area holds that area's bytes more.
pub proof fn lemma_used_push(bin: Seq<Placed>, x: Placed)
    ensures
        used(bin.push(x)) == used(bin) + x.1.size,
{
    assert(bin.push(x).drop_last() == bin);
}

/// Where no bank from `from` on overflows, `first_overflow` finds none,
/// and the other way round.
pub proof fn lemma_first_overflow(bins: Seq<Seq<Placed>>, from: int, reserve: Seq<u32>)
    requires
        0 <= from,
    ensures
        0 <= first_overflow(bins, from, reserve) <= bins.len(),
        first_overflow(bins, from, reserve) < bins.len() ==> from <= first_overflow(
            bins,
            from,
            reserve,
        ) && overflows(bins, first_overflow(bins, from, reserve), reserve),
        forall|k: int|
            from <= k < first_overflow(bins, from, reserve) ==> !overflows(bins, k, reserve),
    decreases bins.len() - from,
{
    if from < bins.len() && !overflows(bins, from, reserve) {
        lemma_first_overflow(bins, from + 1, reserve);
    }
}

/// Packing one area keeps every bank within its capacity.
proof fn lemma_place_within_capacity(
    bins: Seq<Seq<Placed>>,
    x: Placed,
    start_bank: u32,
    reserve: Seq<u32>,
)
    requires
        within_capacity(bins, reserve),
    ensures
        place(bins, x, start_bank, reserve) matches Ok(out) ==> within_capacity(out, reserve),
{
    let k = first_fit(bins, first_open(start_bank), x.1.size as int, reserve);
    lemma_first_fit(bins, first_open(start_bank), x.1.size as int, reserve);
    match place(bins, x, start_bank, reserve) {
        Ok(out) => {
            if k < bins.len() {
                lemma_used_push(bins[k], x);
            } else {
                lemma_used_push(Seq::<Placed>::empty(), x);
                assert(seq![x] == Seq::<Placed>::empty().push(x));
            }
            assert forall|n: int| 0 <= n < out.len() implies used(#[trigger] out[n]) + reserved(
                reserve,
                n + 1,
            ) <= BANK_SIZE by {
                if n < bins.len() && n != k {
                    assert(out[n] == bins[n]);
                }
            }
        },
        Err(_) => {},
    }
}

/// Packing areas keeps every bank within its capacity.
proof fn lemma_place_all_within_capacity(
    bins: Seq<Seq<Placed>>,
    areas: Seq<Placed>,
    filter: u32,
    start_bank: u32,
    reserve: Seq<u32>,
)
    requires
        within_capacity(bins, reserve),
    ensures
        place_all(bins, areas, filter, start_bank, reserve) matches Ok(out) ==> within_capacity(
            out,
            reserve,
        ),
    decreases areas.len(),
{
    if areas.len() > 0 {
        lemma_place_all_within_capacity(bins, areas.drop_last(), filter, start_bank, reserve);
        match place_all(bins, areas.drop_last(), filter, start_bank, reserve) {
            Ok(before) => {
                lemma_place_within_capacity(before, areas.last(), start_bank, reserve);
            },
            Err(_) => {},
        }
    }
}

/// In every packing, the areas of a bank and the bytes reserved in it
/// take no more than the bank's size together.
pub proof fn lemma_packed_within_capacity(
    objects: Seq<ObjectData>,
    filter: u32,
    start_bank: u32,
    reserve: Seq<u32>,
)
    ensures
        packed(objects, filter, start_bank, reserve) matches Ok(bins) ==> within_capacity(
            bins,
            reserve,
        ),
{
    let areas = by_size_descending(all_areas(objects));
    let pinned = pin_all(empty_bins(first_open(start_bank)), areas, filter);
    lemma_first_overflow(pinned, 0, reserve);
    if packed(objects, filter, start_bank, reserve) is Ok {
        assert forall|k: int| 0 <= k < pinned.len() implies used(#[trigger] pinned[k])
            + reserved(reserve, k + 1) <= BANK_SIZE by {
            assert(!overflows(pinned, k, reserve));
        }
        lemma_place_all_within_capacity(pinned, areas, filter, start_bank, reserve);
    }
}

/// Pinning areas puts each into the bank that it names and moves none.
proof fn lemma_pin_all_in_place(bins: Seq<Seq<Placed>>, areas: Seq<Placed>, filter: u32)
    requires
        pinned_in_place(bins, filter),
        all_pinned(bins, filter),
        forall|n: int|
            0 <= n < areas.len() && is_pinned((#[trigger] areas[n]).1, filter) ==> areas[n].1.bank
                >= 1,
    ensures
        pinned_in_place(pin_all(bins, areas, filter), filter),
        all_pinned(pin_all(bins, areas, filter), filter),
        pin_all(bins, areas, filter).len() >= bins.len(),
    decreases areas.len(),
{
    if areas.len() > 0 {
        let rest = areas.drop_last();
        let x = areas.last();
        assert forall|n: int| 0 <= n < rest.len() && is_pinned(
            (#[trigger] rest[n]).1,
            filter,
        ) implies rest[n].1.bank >= 1 by {
            assert(rest[n] == areas[n]);
        }
        lemma_pin_all_in_place(bins, rest, filter);
        let before = pin_all(bins, rest, filter);
        if is_pinned(x.1, filter) {
            assert(x == areas[areas.len() - 1]);
            let wide = grown(before, x.1.bank as int);
            let at = x.1.bank - 1;
            let out = pin(before, x);
            assert forall|k: int, j: int| 0 <= k < out.len() && 0 <= j < out[k].len() implies (
            is_pinned((#[trigger] out[k][j]).1, filter) && out[k][j].1.bank == k + 1) by {
                if k == at && j == wide[at].len() {
                } else if k < before.len() {
                    assert(out[k][j] == before[k][j]);
                } else {
                    assert(wide[k].len() == 0);
                }
            }
        }
    }
}

/// Packing one area moves no area, and puts the new one into bank
/// `start_bank` or a later one.
proof fn lemma_place_in_place(
    bins: Seq<Seq<Placed>>,
    x: Placed,
    filter: u32,
    start_bank: u32,
    reserve: Seq<u32>,
)
    requires
        !is_pinned(x.1, filter),
        pinned_in_place(bins, filter),
        packed_from(bins, filter, start_bank),
        bins.len() >= first_open(start_bank),
    ensures
        place(bins, x, start_bank, reserve) matches Ok(out) ==> pinned_in_place(out, filter)
            && packed_from(out, filter, start_bank) && out.len() >= bins.len(),
{
    let k = first_fit(bins, first_open(start_bank), x.1.size as int, reserve);
    lemma_first_fit(bins, first_open(start_bank), x.1.size as int, reserve);
    match place(bins, x, start_bank, reserve) {
        Ok(out) => {
            assert forall|n: int, j: int| 0 <= n < out.len() && 0 <= j < out[n].len() implies (
            is_pinned((#[trigger] out[n][j]).1, filter) ==> out[n][j].1.bank == n + 1) && (
            !is_pinned(out[n][j].1, filter) ==> n + 1 >= start_bank) by {
                if n < bins.len() && j < bins[n].len() {
                    assert(out[n][j] == bins[n][j]);
                }
            }
        },
        Err(_) => {},
    }
}

/// Packing areas moves no area, and puts each into bank `start_bank` or a
/// later one.
proof fn lemma_place_all_in_place(
    bins: Seq<Seq<Placed>>,
    areas: Seq<Placed>,
    filter: u32,
    start_bank: u32,
    reserve: Seq<u32>,
)
    requires
        pinned_in_place(bins, filter),
        packed_from(bins, filter, start_bank),
        bins.len() >= first_open(start_bank),
    ensures
        place_all(bins, areas, filter, start_bank, reserve) matches Ok(out) ==> pinned_in_place(
            out,
            filter,
        ) && packed_from(out, filter, start_bank) && out.len() >= bins.len(),
    decreases areas.len(),
{
    if areas.len() > 0 {
        lemma_place_all_in_place(bins, areas.drop_last(), filter, start_bank, reserve);
        match place_all(bins, areas.drop_last(), filter, start_bank, reserve) {
            Ok(before) => {
                if !is_pinned(areas.last().1, filter) {
                    lemma_place_in_place(before, areas.last(), filter, start_bank, reserve);
                }
            },
            Err(_) => {},
        }
    }
}

/// In every packing, an area that is pinned is in the bank that it names,
/// and an area that is not is in bank `start_bank` or a later one. With
/// the filter 0 no area is pinned, so all are in the banks from
/// `start_bank` on.
pub proof fn lemma_packed_in_place(
    objects: Seq<ObjectData>,
    filter: u32,
    start_bank: u32,
    reserve: Seq<u32>,
)
    ensures
        packed(objects, filter, start_bank, reserve) matches Ok(bins) ==> pinned_in_place(
            bins,
            filter,
        ) && packed_from(bins, filter, start_bank),
        forall|area: ObjectBankData| !is_pinned(area, 0),
{
    if packable(objects, filter, start_bank) {
        let areas = by_size_descending(all_areas(objects));
        let seeded = empty_bins(first_open(start_bank));
        let pinned = pin_all(seeded, areas, filter);
        lemma_pinned_banks_exist(objects, filter);
        lemma_pin_all_in_place(seeded, areas, filter);
        lemma_place_all_in_place(pinned, areas, filter, start_bank, reserve);
    }
}

/// With the numbers that the hardware cannot use passed over, no
/// replacement names one of them as the new bank.
pub proof fn lemma_skipped_never_given(bins: Seq<Seq<Placed>>, index: usize, count: int)
    requires
        0 <= count <= bins.len(),
        bins.len() + 3 <= u32::MAX,
    ensures
        forall|n: int|
            0 <= n < replacements(bins, index, true, count).len() ==> !is_skipped(
                (#[trigger] replacements(bins, index, true, count)[n]).to as int,
            ),
    decreases count,
{
    if count > 0 {
        lemma_skipped_never_given(bins, index, count - 1);
        let k = count - 1;
        let number = bank_number(bins, k, true);
        lemma_bank_number_bounds(bins, k, true);
        lemma_bin_replacements(bins[k], index, number as u32);
        let before = replacements(bins, index, true, count - 1);
        let here = bin_replacements(bins[k], index, number as u32);
        assert forall|n: int| 0 <= n < replacements(bins, index, true, count).len() implies
            !is_skipped((#[trigger] replacements(bins, index, true, count)[n]).to as int) by {
            if n < before.len() {
                assert(replacements(bins, index, true, count)[n] == before[n]);
            } else {
                assert(replacements(bins, index, true, count)[n] == here[n - before.len()]);
                assert(bins[k].len() > 0);
            }
        }
    }
}

/// The replacements for a bank all name the bank's number as the new
/// bank, each stands for an area of the bank, and an empty bank has none.
pub proof fn lemma_bin_replacements(bin: Seq<Placed>, index: usize, number: u32)
    ensures
        bin_replacements(bin, index, number).len() <= bin.len(),
        forall|n: int|
            0 <= n < bin_replacements(bin, index, number).len() ==> {
                &&& (#[trigger] bin_replacements(bin, index, number)[n]).to == number
                &&& exists|j: int|
                    0 <= j < bin.len() && (#[trigger] bin[j]).0 == index && bin[j].1.bank
                        == bin_replacements(bin, index, number)[n].from
            },
    decreases bin.len(),
{
    if bin.len() > 0 {
        let rest = bin.drop_last();
        lemma_bin_replacements(rest, index, number);
        let out = bin_replacements(bin, index, number);
        let before = bin_replacements(rest, index, number);
        assert forall|n: int| 0 <= n < out.len() implies {
            &&& (#[trigger] out[n]).to == number
            &&& exists|j: int|
                0 <= j < bin.len() && (#[trigger] bin[j]).0 == index && bin[j].1.bank
                    == out[n].from
        } by {
            if n < before.len() {
                assert(out[n] == before[n]);
                let j = choose|j: int|
                    0 <= j < rest.len() && (#[trigger] rest[j]).0 == index && rest[j].1.bank
                        == before[n].from;
                assert(bin[j] == rest[j]);
            } else {
                assert(bin[bin.len() - 1].0 == index);
            }
        }
    }
}

/// Without passing over any number, a pinned area keeps its bank number:
/// where every pinned area is in the bank that it names, each
/// replacement for an area that was not compiled for the filter's bank
/// names the same bank twice.
pub proof fn lemma_pinned_keep_number(
    bins: Seq<Seq<Placed>>,
    filter: u32,
    index: usize,
    count: int,
)
    requires
        0 <= count <= bins.len(),
        bins.len() + 3 <= u32::MAX,
        pinned_in_place(bins, filter),
    ensures
        forall|n: int|
            0 <= n < replacements(bins, index, false, count).len() && filter != 0 && (
            #[trigger] replacements(bins, index, false, count)[n]).from != filter
                ==> replacements(bins, index, false, count)[n].to == replacements(
                bins,
                index,
                false,
                count,
            )[n].from,
    decreases count,
{
    if count > 0 {
        lemma_pinned_keep_number(bins, filter, index, count - 1);
        let k = count - 1;
        let number = bank_number(bins, k, false);
        lemma_bank_number_bounds(bins, k, false);
        lemma_bin_replacements(bins[k], index, number as u32);
        let all = replacements(bins, index, false, count);
        let before = replacements(bins, index, false, count - 1);
        let here = bin_replacements(bins[k], index, number as u32);
        assert forall|n: int|
            0 <= n < all.len() && filter != 0 && (#[trigger] all[n]).from != filter implies all[n].to
            == all[n].from by {
            if n < before.len() {
                assert(all[n] == before[n]);
            } else {
                let r = here[n - before.len()];
                assert(all[n] == r);
                let j = choose|j: int|
                    0 <= j < bins[k].len() && (#[trigger] bins[k][j]).0 == index
                        && bins[k][j].1.bank == r.from;
                assert(is_pinned(bins[k][j].1, filter));
            }
        }
    }
}

/// The areas in the banks `bins`, each as often as it occurs there.
pub open spec fn contents(bins: Seq<Seq<Placed>>) -> Multiset<Placed>
    decreases bins.len(),
{
    if bins.len() == 0 {
        Multiset::empty()
    } else {
        contents(bins.drop_last()).add(bins.last().to_multiset())
    }
}

/// The areas of `areas` that are pinned, if `pinned`, or that are not,
/// each as often as it occurs.
pub open spec fn areas_where(areas: Seq<Placed>, filter: u32, pinned: bool) -> Multiset<Placed>
    decreases areas.len(),
{
    if areas.len() == 0 {
        Multiset::empty()
    } else if is_pinned(areas.last().1, filter) == pinned {
        areas_where(areas.drop_last(), filter, pinned).insert(areas.last())
    } else {
        areas_where(areas.drop_last(), filter, pinned)
    }
}

/// Every area is pinned or is not.
proof fn lemma_areas_where_all(areas: Seq<Placed>, filter: u32)
    ensures
        areas_where(areas, filter, true).add(areas_where(areas, filter, false))
            == areas.to_multiset(),
    decreases areas.len(),
{
    broadcast use vstd::seq_lib::group_to_multiset_ensures;

    if areas.len() > 0 {
        lemma_areas_where_all(areas.drop_last(), filter);
        assert(areas.drop_last().push(areas.last()) == areas);
    }
    assert(areas_where(areas, filter, true).add(areas_where(areas, filter, false))
        =~= areas.to_multiset());
}

/// An area added to a bank is an area added to the banks.
proof fn lemma_contents_put(bins: Seq<Seq<Placed>>, k: int, x: Placed)
    requires
        0 <= k < bins.len(),
    ensures
        contents(put(bins, k, x)) == contents(bins).insert(x),
    decreases bins.len(),
{
    broadcast use vstd::seq_lib::group_to_multiset_ensures;

    let out = put(bins, k, x);
    if k == bins.len() - 1 {
        assert(out.drop_last() == bins.drop_last());
    } else {
        lemma_contents_put(bins.drop_last(), k, x);
        assert(out.drop_last() == put(bins.drop_last(), k, x));
    }
    assert(contents(out) =~= contents(bins).insert(x));
}

/// Empty banks add no area.
proof fn lemma_contents_grown(bins: Seq<Seq<Placed>>, count: int)
    ensures
        contents(grown(bins, count)) == contents(bins),
    decreases count - bins.len(),
{
    broadcast use vstd::seq_lib::group_to_multiset_ensures;

    if bins.len() < count {
        let more = bins.push(Seq::<Placed>::empty());
        lemma_contents_grown(more, count);
        assert(more.drop_last() == bins);
        assert(grown(more, count) == grown(bins, count));
        assert(contents(more) =~= contents(bins));
    }
}

/// Pinning areas adds the pinned areas, and no other, to the banks.
proof fn lemma_contents_pin_all(bins: Seq<Seq<Placed>>, areas: Seq<Placed>, filter: u32)
    requires
        forall|n: int|
            0 <= n < areas.len() && is_pinned((#[trigger] areas[n]).1, filter) ==> areas[n].1.bank
                >= 1,
    ensures
        contents(pin_all(bins, areas, filter)) == contents(bins).add(
            areas_where(areas, filter, true),
        ),
    decreases areas.len(),
{
    if areas.len() > 0 {
        let rest = areas.drop_last();
        let x = areas.last();
        assert forall|n: int| 0 <= n < rest.len() && is_pinned(
            (#[trigger] rest[n]).1,
            filter,
        ) implies rest[n].1.bank >= 1 by {
            assert(rest[n] == areas[n]);
        }
        lemma_contents_pin_all(bins, rest, filter);
        let before = pin_all(bins, rest, filter);
        if is_pinned(x.1, filter) {
            assert(x == areas[areas.len() - 1]);
            lemma_contents_grown(before, x.1.bank as int);
            lemma_contents_put(grown(before, x.1.bank as int), x.1.bank - 1, x);
        }
    }
    assert(contents(pin_all(bins, areas, filter)) =~= contents(bins).add(
        areas_where(areas, filter, true),
    ));
}

/// Packing areas adds the areas that are not pinned, and no other, to the
/// banks.
proof fn lemma_contents_place_all(
    bins: Seq<Seq<Placed>>,
    areas: Seq<Placed>,
    filter: u32,
    start_bank: u32,
    reserve: Seq<u32>,
)
    ensures
        place_all(bins, areas, filter, start_bank, reserve) matches Ok(out) ==> contents(out)
            == contents(bins).add(areas_where(areas, filter, false)),
    decreases areas.len(),
{
    broadcast use vstd::seq_lib::group_to_multiset_ensures;

    if areas.len() > 0 {
        let x = areas.last();
        lemma_contents_place_all(bins, areas.drop_last(), filter, start_bank, reserve);
        match place_all(bins, areas.drop_last(), filter, start_bank, reserve) {
            Ok(before) => {
                if !is_pinned(x.1, filter) {
                    let k = first_fit(before, first_open(start_bank), x.1.size as int, reserve);
                    lemma_first_fit(before, first_open(start_bank), x.1.size as int, reserve);
                    if k < before.len() {
                        lemma_contents_put(before, k, x);
                    } else {
                        assert(before.push(seq![x]).drop_last() == before);
                        assert(seq![x] == Seq::<Placed>::empty().push(x));
                    }
                }
            },
            Err(_) => {},
        }
    }
    match place_all(bins, areas, filter, start_bank, reserve) {
        Ok(out) => {
            assert(contents(out) =~= contents(bins).add(areas_where(areas, filter, false)));
        },
        Err(_) => {},
    }
}

/// Banks with nothing in them hold no area.
proof fn lemma_contents_empty(count: int)
    requires
        count >= 0,
    ensures
        contents(empty_bins(count)) == Multiset::<Placed>::empty(),
{
    lemma_contents_grown(Seq::<Seq<Placed>>::empty(), count);
    assert(grown(Seq::<Seq<Placed>>::empty(), count) == empty_bins(count)) by {
        if count > 0 {
            assert(Seq::<Seq<Placed>>::empty() + empty_bins(count) == empty_bins(count));
        } else {
            assert(empty_bins(count) == Seq::<Seq<Placed>>::empty());
        }
    }
}

/// In every packing, each area of each object file is in the banks as
/// often as the files hold it, and nothing else is: no area is lost, and
/// none is packed twice.
pub proof fn lemma_packed_keeps_areas(
    objects: Seq<ObjectData>,
    filter: u32,
    start_bank: u32,
    reserve: Seq<u32>,
)
    ensures
        packed(objects, filter, start_bank, reserve) matches Ok(bins) ==> contents(bins)
            == all_areas(objects).to_multiset(),
{
    if packable(objects, filter, start_bank) {
        let areas = by_size_descending(all_areas(objects));
        let seeded = empty_bins(first_open(start_bank));
        let pinned = pin_all(seeded, areas, filter);
        lemma_pinned_banks_exist(objects, filter);
        lemma_contents_empty(first_open(start_bank));
        lemma_contents_pin_all(seeded, areas, filter);
        lemma_contents_place_all(pinned, areas, filter, start_bank, reserve);
        lemma_areas_where_all(areas, filter);
        lemma_by_size_descending_permutes(all_areas(objects));
        match packed(objects, filter, start_bank, reserve) {
            Ok(bins) => {
                assert(contents(bins) =~= Multiset::<Placed>::empty().add(
                    areas_where(areas, filter, true),
                ).add(areas_where(areas, filter, false)));
                assert(contents(bins) =~= all_areas(objects).to_multiset());
            },
            Err(_) => {},
        }
    }
}

/// No area of `areas` stands before a larger one.
pub open spec fn is_descending(areas: Seq<Placed>) -> bool {
    forall|i: int, j: int| 0 <= i < j < areas.len() ==> areas[i].1.size >= areas[j].1.size
}

/// The areas of `areas` whose size is `size`, in their order.
pub open spec fn of_size(areas: Seq<Placed>, size: u32) -> Seq<Placed>
    decreases areas.len(),
{
    if areas.len() == 0 {
        seq![]
    } else if areas.last().1.size == size {
        of_size(areas.drop_last(), size).push(areas.last())
    } else {
        of_size(areas.drop_last(), size)
    }
}

/// An area put behind the areas that are at least as large leaves the
/// order descending, comes last among the areas of its size, and leaves
/// the areas of every other size as they were.
proof fn lemma_inserted_by_size(sorted: Seq<Placed>, x: Placed, size: u32)
    requires
        is_descending(sorted),
    ensures
        is_descending(inserted_by_size(sorted, x)),
        inserted_by_size(sorted, x).len() == sorted.len() + 1,
        forall|i: int|
            0 <= i < sorted.len() + 1 ==> (#[trigger] inserted_by_size(sorted, x)[i]) == x || (
            0 <= i - 1 < sorted.len() && inserted_by_size(sorted, x)[i] == sorted[i - 1]) || (i
                < sorted.len() && inserted_by_size(sorted, x)[i] == sorted[i]),
        of_size(inserted_by_size(sorted, x), size) == if x.1.size == size {
            of_size(sorted, size).push(x)
        } else {
            of_size(sorted, size)
        },
    decreases sorted.len(),
{
    let out = inserted_by_size(sorted, x);
    if sorted.len() == 0 || sorted.last().1.size >= x.1.size {
        assert(out.drop_last() == sorted);
    } else {
        let rest = sorted.drop_last();
        let last = sorted.last();
        lemma_inserted_by_size(rest, x, size);
        let inner = inserted_by_size(rest, x);
        assert(out.drop_last() == inner);
        assert forall|i: int, j: int| 0 <= i < j < out.len() implies out[i].1.size
            >= out[j].1.size by {
            if j == out.len() - 1 {
                assert(out[j] == last);
                assert(out[i] == inner[i]);
                if inner[i] != x {
                    if 0 <= i - 1 < rest.len() && inner[i] == rest[i - 1] {
                        assert(sorted[i - 1] == rest[i - 1]);
                    } else {
                        assert(sorted[i] == rest[i]);
                    }
                }
            } else {
                assert(out[i] == inner[i] && out[j] == inner[j]);
            }
        }
        assert forall|i: int| 0 <= i < sorted.len() + 1 implies (#[trigger] out[i]) == x || (0
            <= i - 1 < sorted.len() && out[i] == sorted[i - 1]) || (i < sorted.len() && out[i]
            == sorted[i]) by {
            if i < inner.len() {
                assert(out[i] == inner[i]);
                if inner[i] != x {
                    if 0 <= i - 1 < rest.len() && inner[i] == rest[i - 1] {
                        assert(sorted[i - 1] == rest[i - 1]);
                    } else {
                        assert(sorted[i] == rest[i]);
                    }
                }
            } else {
                assert(out[i] == sorted[i - 1]);
            }
        }
    }
}

/// Sorting by size puts no area before a larger one, and leaves the areas
/// of each size in the order that they had.
pub proof fn lemma_by_size_descending_stable(areas: Seq<Placed>, size: u32)
    ensures
        is_descending(by_size_descending(areas)),
        of_size(by_size_descending(areas), size) == of_size(areas, size),
    decreases areas.len(),
{
    if areas.len() > 0 {
        lemma_by_size_descending_stable(areas.drop_last(), size);
        lemma_inserted_by_size(by_size_descending(areas.drop_last()), areas.last(), size);
    }
}

} // verus!

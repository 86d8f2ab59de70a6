//! Packing banked areas into banks.
//!
//! Areas that must keep their bank are put there first. The others are
//! taken from the largest down, and each goes into the first bank, counted
//! from the starting bank, that still has room for it.

use crate::pack_laws::{
    contents, lemma_packed_in_place, lemma_packed_keeps_areas, lemma_packed_within_capacity,
    lemma_pinned_keep_number, lemma_skipped_never_given, packed_from, pinned_in_place,
    within_capacity,
};
use vstd::prelude::*;

verus! {

/// The number of bytes in a bank.
pub const BANK_SIZE: u32 = 16384;

/// A banked area of an object file: its size in bytes and the number of
/// the bank that it was compiled for.
#[derive(Debug, Eq, PartialEq, PartialOrd, Ord, Clone, Copy)]
pub struct ObjectBankData {
    pub size: u32,
    pub bank: u32,
}

/// An object file: its name, its text, and the banked areas that the text
/// declares, in the order of the text.
#[derive(Debug, Eq, PartialEq, PartialOrd, Ord, Clone)]
pub struct ObjectData {
    pub banks: Vec<ObjectBankData>,
    pub filename: String,
    pub contents: String,
}

/// An area together with the position, in the list of object files, of the
/// file that it belongs to.
pub type Placed = (usize, ObjectBankData);

/// A bank and the areas that were put into it, in the order in which they
/// were put there.
#[derive(Debug, Clone)]
pub struct Bank {
    pub objects: Vec<Placed>,
}

impl View for Bank {
    type V = Seq<Placed>;

    open spec fn view(&self) -> Seq<Placed> {
        self.objects@
    }
}

/// A bank number in an object file and the number that takes its place.
#[derive(Debug, Eq, PartialEq, Clone, Copy)]
pub struct BankReplacement {
    pub from: u32,
    pub to: u32,
}

/// An object file and the bank numbers to replace in its text.
#[derive(Debug)]
pub struct ObjectPatch {
    pub filename: String,
    pub contents: String,
    pub replacements: Vec<BankReplacement>,
}

/// Why a set of object files cannot be packed.
#[derive(Debug, Eq, PartialEq, Clone, Copy)]
pub enum PackError {
    /// An area is larger than a bank; `size` is the largest area's size.
    AreaTooLarge { size: u32 },
    /// The areas that must stay in bank `bank` take `used` bytes, which
    /// together with the bytes reserved in that bank is more than
    /// `capacity`.
    BankOverflow { bank: u32, used: u64, capacity: u32 },
    /// An area of `size` bytes fits in no bank, and not in a new one
    /// either, because of the bytes reserved there.
    NoRoom { size: u32 },
    /// An area that must keep its bank names bank 0, which does not
    /// exist, or there would be more banks than 32 bits can number.
    BankOutOfRange,
}

/// The banks as sequences of areas.
pub open spec fn bins_of(banks: Seq<Bank>) -> Seq<Seq<Placed>> {
    Seq::new(banks.len(), |k: int| banks[k]@)
}

/// The areas `areas`, each marked as belonging to the file at `index`.
pub open spec fn tagged(areas: Seq<ObjectBankData>, index: usize) -> Seq<Placed> {
    Seq::new(areas.len(), |j: int| (index, areas[j]))
}

/// The areas of all object files, file by file.
pub open spec fn all_areas(objects: Seq<ObjectData>) -> Seq<Placed>
    decreases objects.len(),
{
    if objects.len() == 0 {
        seq![]
    } else {
        all_areas(objects.drop_last()) + tagged(
            objects.last().banks@,
            (objects.len() - 1) as usize,
        )
    }
}

/// `sorted`, which is in descending order of size, with `x` put behind
/// every area that is at least as large as `x`.
pub open spec fn inserted_by_size(sorted: Seq<Placed>, x: Placed) -> Seq<Placed>
    decreases sorted.len(),
{
    if sorted.len() == 0 || sorted.last().1.size >= x.1.size {
        sorted.push(x)
    } else {
        inserted_by_size(sorted.drop_last(), x).push(sorted.last())
    }
}

/// `areas` in descending order of size; areas of one size keep the order
/// that they have in `areas`.
pub open spec fn by_size_descending(areas: Seq<Placed>) -> Seq<Placed>
    decreases areas.len(),
{
    if areas.len() == 0 {
        seq![]
    } else {
        inserted_by_size(by_size_descending(areas.drop_last()), areas.last())
    }
}

/// The size of the largest of `areas`; 0 when there is none.
pub open spec fn largest_size(areas: Seq<Placed>) -> int
    decreases areas.len(),
{
    if areas.len() == 0 {
        0
    } else if areas.last().1.size > largest_size(areas.drop_last()) {
        areas.last().1.size as int
    } else {
        largest_size(areas.drop_last())
    }
}

/// The bytes that the areas in `bin` take.
pub open spec fn used(bin: Seq<Placed>) -> int
    decreases bin.len(),
{
    if bin.len() == 0 {
        0
    } else {
        used(bin.drop_last()) + bin.last().1.size
    }
}

/// The bytes reserved in bank `number`: the table's entry at that
/// position, and 0 where the table has none.
pub open spec fn reserved(reserve: Seq<u32>, number: int) -> int {
    if 0 <= number < reserve.len() {
        reserve[number] as int
    } else {
        0
    }
}

/// Whether an area of `size` bytes fits into the bank at position `k`,
/// which is bank `k + 1`, beside what is there and what is reserved.
pub open spec fn fits(bins: Seq<Seq<Placed>>, k: int, size: int, reserve: Seq<u32>) -> bool {
    used(bins[k]) + size + reserved(reserve, k + 1) <= BANK_SIZE
}

/// Whether `area` has to stay in the bank that it names: there is a filter,
/// and the area was not compiled for the filter's bank.
pub open spec fn is_pinned(area: ObjectBankData, filter: u32) -> bool {
    filter != 0 && area.bank != filter
}

/// `count` banks with nothing in them.
pub open spec fn empty_bins(count: int) -> Seq<Seq<Placed>> {
    Seq::new(count as nat, |k: int| Seq::<Placed>::empty())
}

/// The position of the first bank that areas may be packed into: that of
/// bank `start_bank`, and of bank 1 when `start_bank` is 0.
pub open spec fn first_open(start_bank: u32) -> int {
    if start_bank == 0 {
        0
    } else {
        start_bank - 1
    }
}

/// `bins` with empty banks added until there are at least `count`.
pub open spec fn grown(bins: Seq<Seq<Placed>>, count: int) -> Seq<Seq<Placed>> {
    if bins.len() >= count {
        bins
    } else {
        bins + empty_bins(count - bins.len())
    }
}

/// `bins` with `x` added to the bank at position `k`.
pub open spec fn put(bins: Seq<Seq<Placed>>, k: int, x: Placed) -> Seq<Seq<Placed>> {
    bins.update(k, bins[k].push(x))
}

/// `bins` with `x` added to the bank that `x` names, and with the empty
/// banks before it that were missing.
pub open spec fn pin(bins: Seq<Seq<Placed>>, x: Placed) -> Seq<Seq<Placed>> {
    put(grown(bins, x.1.bank as int), x.1.bank - 1, x)
}

/// `bins` after each pinned area of `areas`, in their order, was put into
/// its bank.
pub open spec fn pin_all(bins: Seq<Seq<Placed>>, areas: Seq<Placed>, filter: u32) -> Seq<
    Seq<Placed>,
>
    decreases areas.len(),
{
    if areas.len() == 0 {
        bins
    } else {
        let before = pin_all(bins, areas.drop_last(), filter);
        if is_pinned(areas.last().1, filter) {
            pin(before, areas.last())
        } else {
            before
        }
    }
}

/// Whether what is in the bank at position `k` and what is reserved there
/// are together more than a bank holds.
pub open spec fn overflows(bins: Seq<Seq<Placed>>, k: int, reserve: Seq<u32>) -> bool {
    used(bins[k]) + reserved(reserve, k + 1) > BANK_SIZE
}

/// The position of the first bank at or after `from` that overflows; the
/// number of banks when none does.
pub open spec fn first_overflow(bins: Seq<Seq<Placed>>, from: int, reserve: Seq<u32>) -> int
    decreases bins.len() - from,
{
    if from >= bins.len() {
        bins.len() as int
    } else if overflows(bins, from, reserve) {
        from
    } else {
        first_overflow(bins, from + 1, reserve)
    }
}

/// The position of the first bank at or after `from` that an area of
/// `size` bytes fits into; the number of banks when it fits into none.
pub open spec fn first_fit(bins: Seq<Seq<Placed>>, from: int, size: int, reserve: Seq<u32>) -> int
    decreases bins.len() - from,
{
    if from >= bins.len() {
        bins.len() as int
    } else if fits(bins, from, size, reserve) {
        from
    } else {
        first_fit(bins, from + 1, size, reserve)
    }
}

/// `bins` after `x` was packed: into the first bank from `start_bank` on
/// that it fits into, else into a new bank behind the others, if it fits
/// there beside what is reserved.
pub open spec fn place(bins: Seq<Seq<Placed>>, x: Placed, start_bank: u32, reserve: Seq<u32>)
    -> Result<Seq<Seq<Placed>>, PackError> {
    let k = first_fit(bins, first_open(start_bank), x.1.size as int, reserve);
    if k < bins.len() {
        Ok(put(bins, k, x))
    } else if x.1.size + reserved(reserve, bins.len() as int + 1) > BANK_SIZE {
        Err(PackError::NoRoom { size: x.1.size })
    } else {
        Ok(bins.push(seq![x]))
    }
}

/// `bins` after each area of `areas` that is not pinned was packed, in
/// their order; the error of the first that could not be.
pub open spec fn place_all(
    bins: Seq<Seq<Placed>>,
    areas: Seq<Placed>,
    filter: u32,
    start_bank: u32,
    reserve: Seq<u32>,
) -> Result<Seq<Seq<Placed>>, PackError>
    decreases areas.len(),
{
    if areas.len() == 0 {
        Ok(bins)
    } else {
        match place_all(bins, areas.drop_last(), filter, start_bank, reserve) {
            Err(e) => Err(e),
            Ok(before) => if is_pinned(areas.last().1, filter) {
                Ok(before)
            } else {
                place(before, areas.last(), start_bank, reserve)
            },
        }
    }
}

/// The banks that the areas of `objects` are packed into.
///
/// The banks before `start_bank` exist from the start and stay empty unless
/// a pinned area names one. The areas are taken in descending order of
/// size. First the pinned ones go into their banks, which must not
/// overflow; then the others are packed.
pub open spec fn packed(objects: Seq<ObjectData>, filter: u32, start_bank: u32, reserve: Seq<u32>)
    -> Result<Seq<Seq<Placed>>, PackError> {
    let areas = by_size_descending(all_areas(objects));
    let pinned = pin_all(empty_bins(first_open(start_bank)), areas, filter);
    let k = first_overflow(pinned, 0, reserve);
    if !packable(objects, filter, start_bank) {
        Err(PackError::BankOutOfRange)
    } else if largest_size(all_areas(objects)) > BANK_SIZE {
        Err(PackError::AreaTooLarge { size: largest_size(all_areas(objects)) as u32 })
    } else if k < pinned.len() {
        Err(
            PackError::BankOverflow {
                bank: (k + 1) as u32,
                used: used(pinned[k]) as u64,
                capacity: BANK_SIZE,
            },
        )
    } else {
        place_all(pinned, areas, filter, start_bank, reserve)
    }
}

/// Whether `number` is a bank number that the hardware cannot use.
pub open spec fn is_skipped(number: int) -> bool {
    number == 0x20 || number == 0x40 || number == 0x60
}

/// The number that the bank at position `k` gets. The banks are numbered
/// from 1 in their order. With `skip`, a bank that holds an area and would
/// get a number that the hardware cannot use gets the next one instead.
pub open spec fn bank_number(bins: Seq<Seq<Placed>>, k: int, skip: bool) -> int
    decreases k,
{
    let next = if k <= 0 {
        1
    } else {
        bank_number(bins, k - 1, skip) + 1
    };
    if skip && bins[k].len() > 0 && is_skipped(next) {
        next + 1
    } else {
        next
    }
}

/// The replacements for the areas in `bin` that belong to the file at
/// `index`, in the order of `bin`, when `bin` is bank `number`.
pub open spec fn bin_replacements(bin: Seq<Placed>, index: usize, number: u32) -> Seq<
    BankReplacement,
>
    decreases bin.len(),
{
    if bin.len() == 0 {
        seq![]
    } else {
        let before = bin_replacements(bin.drop_last(), index, number);
        if bin.last().0 == index {
            before.push(BankReplacement { from: bin.last().1.bank, to: number })
        } else {
            before
        }
    }
}

/// The replacements for the areas of the file at `index` that are in the
/// first `count` banks, bank by bank.
pub open spec fn replacements(bins: Seq<Seq<Placed>>, index: usize, skip: bool, count: int) -> Seq<
    BankReplacement,
>
    decreases count,
{
    if count <= 0 {
        seq![]
    } else {
        replacements(bins, index, skip, count - 1) + bin_replacements(
            bins[count - 1],
            index,
            bank_number(bins, count - 1, skip) as u32,
        )
    }
}

/// What `patches` must be when the areas of `objects` are in the banks
/// `bins`: one patch for each object file, in their order, with the
/// file's name and text as they were and with the replacements for the
/// file's areas.
pub open spec fn patches_for(
    patches: Seq<ObjectPatch>,
    objects: Seq<ObjectData>,
    bins: Seq<Seq<Placed>>,
    skip: bool,
) -> bool {
    &&& patches.len() == objects.len()
    &&& forall|i: int|
        0 <= i < objects.len() ==> {
            &&& (#[trigger] patches[i]).filename@ == objects[i].filename@
            &&& patches[i].contents@ == objects[i].contents@
            &&& patches[i].replacements@ == replacements(bins, i as usize, skip, bins.len() as int)
        }
}

/// The inputs whose banks exist and can be numbered: the object files
/// are no more than a list can hold, no pinned area names bank 0, and the
/// numbers of all banks fit in 32 bits.
pub open spec fn packable(objects: Seq<ObjectData>, filter: u32, start_bank: u32) -> bool {
    &&& objects.len() <= usize::MAX
    &&& can_pack(objects, filter)
    &&& can_number(objects, filter, start_bank)
}

/// The inputs that can be packed: the areas are few enough to count in
/// 32 bits, and no pinned area names bank 0, which does not exist.
pub open spec fn can_pack(objects: Seq<ObjectData>, filter: u32) -> bool {
    &&& all_areas(objects).len() <= u32::MAX
    &&& forall|i: int, j: int|
        0 <= i < objects.len() && 0 <= j < objects[i].banks@.len() && is_pinned(
            #[trigger] objects[i].banks@[j],
            filter,
        ) ==> objects[i].banks@[j].bank >= 1
}

/// The inputs whose banks can all be numbered in 32 bits: the starting
/// bank and each bank that a pinned area names leave room for one more
/// bank for every area, and for the three numbers that the hardware may
/// make the numbering pass over.
pub open spec fn can_number(objects: Seq<ObjectData>, filter: u32, start_bank: u32) -> bool {
    &&& start_bank + all_areas(objects).len() + 3 <= u32::MAX
    &&& forall|i: int, j: int|
        0 <= i < objects.len() && 0 <= j < objects[i].banks@.len() && is_pinned(
            #[trigger] objects[i].banks@[j],
            filter,
        ) ==> objects[i].banks@[j].bank + all_areas(objects).len() + 3 <= u32::MAX
}

/// Every area in `areas` is an area of the file that it is marked with.
pub open spec fn areas_from(areas: Seq<Placed>, objects: Seq<ObjectData>) -> bool {
    forall|n: int|
        0 <= n < areas.len() ==> 0 <= (#[trigger] areas[n]).0 < objects.len()
            && objects[areas[n].0 as int].banks@.contains(areas[n].1)
}

proof fn lemma_all_areas_from(objects: Seq<ObjectData>)
    requires
        objects.len() <= usize::MAX,
    ensures
        areas_from(all_areas(objects), objects),
    decreases objects.len(),
{
    if objects.len() > 0 {
        let before = objects.drop_last();
        let last = tagged(objects.last().banks@, (objects.len() - 1) as usize);
        lemma_all_areas_from(before);
        let areas = all_areas(objects);
        assert forall|n: int| 0 <= n < areas.len() implies 0 <= (#[trigger] areas[n]).0
            < objects.len() && objects[areas[n].0 as int].banks@.contains(areas[n].1) by {
            if n < all_areas(before).len() {
                assert(areas[n] == all_areas(before)[n]);
                assert(before[areas[n].0 as int] == objects[areas[n].0 as int]);
            } else {
                let j = n - all_areas(before).len();
                assert(areas[n] == last[j]);
                assert(objects.last().banks@[j] == areas[n].1);
            }
        }
    }
}

/// The first files of a list hold no more areas than the whole list.
proof fn lemma_all_areas_grow(objects: Seq<ObjectData>, upto: int)
    requires
        0 <= upto <= objects.len(),
    ensures
        all_areas(objects.take(upto)).len() <= all_areas(objects).len(),
    decreases objects.len(),
{
    if upto == objects.len() {
        assert(objects.take(upto) == objects);
    } else {
        assert(objects.drop_last().take(upto) == objects.take(upto));
        lemma_all_areas_grow(objects.drop_last(), upto);
    }
}

/// Putting `x` at position `at` is putting it behind every area that is at
/// least as large, when the areas before `at` are those.
proof fn lemma_inserted_by_size_at(sorted: Seq<Placed>, x: Placed, at: int)
    requires
        0 <= at <= sorted.len(),
        forall|k: int| at <= k < sorted.len() ==> sorted[k].1.size < x.1.size,
        at > 0 ==> sorted[at - 1].1.size >= x.1.size,
    ensures
        inserted_by_size(sorted, x) == sorted.insert(at, x),
    decreases sorted.len(),
{
    if at == sorted.len() {
        assert(sorted.push(x) == sorted.insert(at, x));
    } else {
        lemma_inserted_by_size_at(sorted.drop_last(), x, at);
        assert(sorted.drop_last().insert(at, x).push(sorted.last()) == sorted.insert(at, x));
    }
}

/// Putting an area behind the larger ones adds that area and no other.
proof fn lemma_inserted_by_size_multiset(sorted: Seq<Placed>, x: Placed)
    ensures
        inserted_by_size(sorted, x).to_multiset() == sorted.to_multiset().insert(x),
    decreases sorted.len(),
{
    broadcast use vstd::seq_lib::group_to_multiset_ensures;

    if !(sorted.len() == 0 || sorted.last().1.size >= x.1.size) {
        let rest = sorted.drop_last();
        lemma_inserted_by_size_multiset(rest, x);
        assert(rest.push(sorted.last()) == sorted);
        assert(rest.to_multiset().insert(x).insert(sorted.last()) == rest.to_multiset().insert(
            sorted.last(),
        ).insert(x));
    }
}

/// Sorting by size keeps every area, as often as it occurs.
pub proof fn lemma_by_size_descending_permutes(areas: Seq<Placed>)
    ensures
        by_size_descending(areas).to_multiset() == areas.to_multiset(),
        by_size_descending(areas).len() == areas.len(),
        forall|x: Placed| by_size_descending(areas).contains(x) <==> areas.contains(x),
    decreases areas.len(),
{
    broadcast use vstd::seq_lib::group_to_multiset_ensures;

    if areas.len() > 0 {
        let rest = areas.drop_last();
        lemma_by_size_descending_permutes(rest);
        lemma_inserted_by_size_multiset(by_size_descending(rest), areas.last());
        assert(rest.push(areas.last()) == areas);
    }
    assert(by_size_descending(areas).to_multiset() == areas.to_multiset());
    vstd::seq_lib::to_multiset_len(areas);
    vstd::seq_lib::to_multiset_len(by_size_descending(areas));
    assert forall|x: Placed| by_size_descending(areas).contains(x) <==> areas.contains(x) by {
        vstd::seq_lib::to_multiset_contains(areas, x);
        vstd::seq_lib::to_multiset_contains(by_size_descending(areas), x);
    }
}

/// Where no pinned area of `objects` names bank 0, none does after the
/// areas were sorted.
pub proof fn lemma_pinned_banks_exist(objects: Seq<ObjectData>, filter: u32)
    requires
        objects.len() <= usize::MAX,
        can_pack(objects, filter),
    ensures
        forall|n: int|
            0 <= n < by_size_descending(all_areas(objects)).len() && is_pinned(
                (#[trigger] by_size_descending(all_areas(objects))[n]).1,
                filter,
            ) ==> 1 <= by_size_descending(all_areas(objects))[n].1.bank <= u32::MAX,
{
    let areas = all_areas(objects);
    let sorted = by_size_descending(areas);
    lemma_all_areas_from(objects);
    lemma_by_size_descending_permutes(areas);
    assert forall|n: int| 0 <= n < sorted.len() && is_pinned(
        (#[trigger] sorted[n]).1,
        filter,
    ) implies 1 <= sorted[n].1.bank <= u32::MAX by {
        let x = sorted[n];
        assert(sorted.contains(x));
        assert(areas.contains(x));
        let m = choose|m: int| 0 <= m < areas.len() && areas[m] == x;
        let banks = objects[areas[m].0 as int].banks@;
        assert(banks.contains(areas[m].1));
        let j = choose|j: int| 0 <= j < banks.len() && banks[j] == areas[m].1;
        assert(is_pinned(objects[areas[m].0 as int].banks@[j], filter));
    }
}

/// The areas of a bank take at most `u32::MAX` bytes each.
proof fn lemma_used_bound(bin: Seq<Placed>)
    ensures
        0 <= used(bin) <= bin.len() * 0xffff_ffff,
    decreases bin.len(),
{
    if bin.len() > 0 {
        lemma_used_bound(bin.drop_last());
    }
}

/// Pinning areas adds at most one area per area to a bank, and no bank
/// beyond those that were there and those that the areas name.
proof fn lemma_pin_all_sizes(bins: Seq<Seq<Placed>>, areas: Seq<Placed>, filter: u32, bound: int)
    requires
        bins.len() <= bound,
        forall|n: int|
            0 <= n < areas.len() && is_pinned((#[trigger] areas[n]).1, filter) ==> 1
                <= areas[n].1.bank <= bound,
    ensures
        bins.len() <= pin_all(bins, areas, filter).len() <= bound,
        forall|k: int|
            0 <= k < pin_all(bins, areas, filter).len() ==> (#[trigger] pin_all(
                bins,
                areas,
                filter,
            )[k]).len() <= areas.len() + (if k < bins.len() {
                bins[k].len()
            } else {
                0
            }),
    decreases areas.len(),
{
    if areas.len() > 0 {
        let rest = areas.drop_last();
        assert forall|n: int| 0 <= n < rest.len() && is_pinned(
            (#[trigger] rest[n]).1,
            filter,
        ) implies 1 <= rest[n].1.bank <= bound by {
            assert(rest[n] == areas[n]);
        }
        lemma_pin_all_sizes(bins, rest, filter, bound);
    }
}

/// The first fit is the first bank from `from` on with room for the area:
/// the area fits there and into no bank between `from` and there.
pub proof fn lemma_first_fit(bins: Seq<Seq<Placed>>, from: int, size: int, reserve: Seq<u32>)
    requires
        0 <= from,
    ensures
        0 <= first_fit(bins, from, size, reserve) <= bins.len(),
        first_fit(bins, from, size, reserve) < bins.len() ==> from <= first_fit(
            bins,
            from,
            size,
            reserve,
        ) && fits(bins, first_fit(bins, from, size, reserve), size, reserve),
        forall|k: int|
            from <= k < first_fit(bins, from, size, reserve) ==> !fits(bins, k, size, reserve),
    decreases bins.len() - from,
{
    if from < bins.len() && !fits(bins, from, size, reserve) {
        lemma_first_fit(bins, from + 1, size, reserve);
    }
}

/// Once an area cannot be packed, the error stays whatever areas follow.
proof fn lemma_place_all_stops(
    bins: Seq<Seq<Placed>>,
    areas: Seq<Placed>,
    upto: int,
    filter: u32,
    start_bank: u32,
    reserve: Seq<u32>,
)
    requires
        0 <= upto <= areas.len(),
        place_all(bins, areas.take(upto), filter, start_bank, reserve) is Err,
    ensures
        place_all(bins, areas, filter, start_bank, reserve) == place_all(
            bins,
            areas.take(upto),
            filter,
            start_bank,
            reserve,
        ),
    decreases areas.len(),
{
    if upto == areas.len() {
        assert(areas.take(upto) == areas);
    } else {
        assert(areas.drop_last().take(upto) == areas.take(upto));
        lemma_place_all_stops(bins, areas.drop_last(), upto, filter, start_bank, reserve);
    }
}

/// Packing adds at most one bank for each area.
proof fn lemma_place_all_count(
    bins: Seq<Seq<Placed>>,
    areas: Seq<Placed>,
    filter: u32,
    start_bank: u32,
    reserve: Seq<u32>,
)
    ensures
        place_all(bins, areas, filter, start_bank, reserve) matches Ok(out) ==> bins.len()
            <= out.len() <= bins.len() + areas.len(),
    decreases areas.len(),
{
    if areas.len() > 0 {
        lemma_place_all_count(bins, areas.drop_last(), filter, start_bank, reserve);
        match place_all(bins, areas.drop_last(), filter, start_bank, reserve) {
            Ok(before) => {
                lemma_first_fit(
                    before,
                    first_open(start_bank),
                    areas.last().1.size as int,
                    reserve,
                );
            },
            Err(_) => {},
        }
    }
}

/// Where the banks can be numbered, there are at most `u32::MAX - 3` of
/// them.
proof fn lemma_packed_count(objects: Seq<ObjectData>, filter: u32, start_bank: u32, reserve: Seq<u32>)
    requires
        objects.len() <= usize::MAX,
        can_pack(objects, filter),
        can_number(objects, filter, start_bank),
    ensures
        packed(objects, filter, start_bank, reserve) matches Ok(bins) ==> bins.len() + 3
            <= u32::MAX,
{
    let areas = all_areas(objects);
    let sorted = by_size_descending(areas);
    let bound = u32::MAX - 3 - areas.len();
    let seeded = empty_bins(first_open(start_bank));
    lemma_all_areas_from(objects);
    lemma_by_size_descending_permutes(areas);
    assert forall|n: int| 0 <= n < sorted.len() && is_pinned(
        (#[trigger] sorted[n]).1,
        filter,
    ) implies 1 <= sorted[n].1.bank <= bound by {
        let x = sorted[n];
        assert(sorted.contains(x));
        assert(areas.contains(x));
        let m = choose|m: int| 0 <= m < areas.len() && areas[m] == x;
        let banks = objects[areas[m].0 as int].banks@;
        assert(banks.contains(areas[m].1));
        let j = choose|j: int| 0 <= j < banks.len() && banks[j] == areas[m].1;
        assert(is_pinned(objects[areas[m].0 as int].banks@[j], filter));
    }
    lemma_pin_all_sizes(seeded, sorted, filter, bound);
    lemma_place_all_count(pin_all(seeded, sorted, filter), sorted, filter, start_bank, reserve);
}

/// The numbers of the banks grow with their positions, by one or, past a
/// number that the hardware cannot use, by two: the bank at position `k`
/// has a number from `k + 1` to `k + 4`.
pub proof fn lemma_bank_number_bounds(bins: Seq<Seq<Placed>>, k: int, skip: bool)
    requires
        0 <= k,
    ensures
        k + 1 <= bank_number(bins, k, skip) <= k + 4,
        bank_number(bins, k, skip) <= k + 1 + (if bank_number(bins, k, skip) > 0x20 {
            1int
        } else {
            0
        }) + (if bank_number(bins, k, skip) > 0x40 {
            1int
        } else {
            0
        }) + (if bank_number(bins, k, skip) > 0x60 {
            1int
        } else {
            0
        }),
        !skip ==> bank_number(bins, k, skip) == k + 1,
    decreases k,
{
    if k > 0 {
        lemma_bank_number_bounds(bins, k - 1, skip);
    }
}

/// The areas of all object files, each marked with the position of its
/// file.
pub fn collect_areas(objects: &Vec<ObjectData>) -> (areas: Vec<Placed>)
    ensures
        areas@ == all_areas(objects@),
{
    let mut areas: Vec<Placed> = Vec::new();
    let mut i: usize = 0;
    proof {
        assert(objects@.take(0) == Seq::<ObjectData>::empty());
    }
    while i < objects.len()
        invariant
            i <= objects.len(),
            areas@ == all_areas(objects@.take(i as int)),
        decreases objects.len() - i,
    {
        let banks = &objects[i].banks;
        let ghost before = areas@;
        let mut j: usize = 0;
        while j < banks.len()
            invariant
                j <= banks.len(),
                i < objects.len(),
                areas@ == before + tagged(banks@, i).take(j as int),
            decreases banks.len() - j,
        {
            areas.push((i, banks[j]));
            proof {
                assert(tagged(banks@, i).take(j + 1) == tagged(banks@, i).take(j as int).push(
                    (i, banks@[j as int]),
                ));
            }
            j = j + 1;
        }
        proof {
            let upto = objects@.take(i + 1);
            assert(upto.drop_last() == objects@.take(i as int));
            assert(upto.last() == objects@[i as int]);
            assert(tagged(banks@, i).take(j as int) == tagged(banks@, i));
        }
        i = i + 1;
    }
    proof {
        assert(objects@.take(i as int) == objects@);
    }
    areas
}

/// `areas` in descending order of size; areas of one size keep their
/// order.
pub fn sort_by_size(areas: &Vec<Placed>) -> (sorted: Vec<Placed>)
    ensures
        sorted@ == by_size_descending(areas@),
{
    let mut sorted: Vec<Placed> = Vec::new();
    let mut i: usize = 0;
    proof {
        assert(areas@.take(0) == Seq::<Placed>::empty());
    }
    while i < areas.len()
        invariant
            i <= areas.len(),
            sorted@ == by_size_descending(areas@.take(i as int)),
        decreases areas.len() - i,
    {
        let x = areas[i];
        let mut at: usize = sorted.len();
        while at > 0 && sorted[at - 1].1.size < x.1.size
            invariant
                at <= sorted.len(),
                forall|k: int| at <= k < sorted.len() ==> sorted@[k].1.size < x.1.size,
            decreases at,
        {
            at = at - 1;
        }
        proof {
            lemma_inserted_by_size_at(sorted@, x, at as int);
            let upto = areas@.take(i + 1);
            assert(upto.drop_last() == areas@.take(i as int));
            assert(upto.last() == x);
        }
        sorted.insert(at, x);
        i = i + 1;
    }
    proof {
        assert(areas@.take(i as int) == areas@);
    }
    sorted
}

/// The size of the largest of `areas`; 0 when there is none.
pub fn largest_area(areas: &Vec<Placed>) -> (size: u32)
    ensures
        size == largest_size(areas@),
{
    let mut size: u32 = 0;
    let mut i: usize = 0;
    proof {
        assert(areas@.take(0) == Seq::<Placed>::empty());
    }
    while i < areas.len()
        invariant
            i <= areas.len(),
            size == largest_size(areas@.take(i as int)),
        decreases areas.len() - i,
    {
        proof {
            let upto = areas@.take(i + 1);
            assert(upto.drop_last() == areas@.take(i as int));
            assert(upto.last() == areas@[i as int]);
        }
        if areas[i].1.size > size {
            size = areas[i].1.size;
        }
        i = i + 1;
    }
    proof {
        assert(areas@.take(i as int) == areas@);
    }
    size
}

/// The bytes that the areas in `bank` take.
pub fn bank_used(bank: &Bank) -> (total: u128)
    ensures
        total == used(bank@),
        total <= 0xffff_ffff_ffff_ffff * 0xffff_ffff,
{
    let mut total: u128 = 0;
    let mut j: usize = 0;
    proof {
        assert(bank@.take(0) == Seq::<Placed>::empty());
    }
    while j < bank.objects.len()
        invariant
            j <= bank.objects.len(),
            total == used(bank@.take(j as int)),
            total <= j * 0xffff_ffff,
        decreases bank.objects.len() - j,
    {
        proof {
            let upto = bank@.take(j + 1);
            assert(upto.drop_last() == bank@.take(j as int));
            assert(upto.last() == bank@[j as int]);
        }
        total = total + bank.objects[j].1.size as u128;
        j = j + 1;
    }
    proof {
        assert(bank@.take(j as int) == bank@);
    }
    total
}

/// The bytes reserved in bank `number`.
pub fn reserved_in(reserve: &Vec<u32>, number: usize) -> (bytes: u32)
    ensures
        bytes == reserved(reserve@, number as int),
{
    if number < reserve.len() {
        reserve[number]
    } else {
        0
    }
}

/// Adds empty banks until there are at least `count`.
fn grow_banks(banks: &mut Vec<Bank>, count: usize)
    ensures
        bins_of(final(banks)@) == grown(bins_of(old(banks)@), count as int),
        final(banks).len() >= count,
        final(banks).len() >= old(banks).len(),
{
    while banks.len() < count
        invariant
            banks.len() <= count || banks.len() == old(banks).len(),
            old(banks).len() <= banks.len(),
            bins_of(banks@) == bins_of(old(banks)@) + empty_bins(banks.len() - old(banks).len()),
        decreases count - banks.len(),
    {
        let ghost before = bins_of(banks@);
        banks.push(Bank { objects: Vec::new() });
        proof {
            assert(bins_of(banks@) == before.push(Seq::<Placed>::empty()));
            assert(bins_of(banks@) == bins_of(old(banks)@) + empty_bins(
                banks.len() - old(banks).len(),
            ));
        }
    }
    proof {
        assert(bins_of(old(banks)@) + empty_bins(0) == bins_of(old(banks)@));
    }
}

/// Adds `x` to the bank at position `k`.
fn add_to_bank(banks: &mut Vec<Bank>, k: usize, x: Placed)
    requires
        k < old(banks).len(),
    ensures
        bins_of(final(banks)@) == put(bins_of(old(banks)@), k as int, x),
{
    banks[k].objects.push(x);
    proof {
        assert(bins_of(banks@) == put(bins_of(old(banks)@), k as int, x));
    }
}

/// Puts each pinned area of `areas`, in their order, into the bank that it
/// names.
fn pin_areas(banks: &mut Vec<Bank>, areas: &Vec<Placed>, filter: u32)
    requires
        forall|n: int|
            0 <= n < areas.len() && is_pinned((#[trigger] areas@[n]).1, filter)
                ==> areas@[n].1.bank >= 1,
    ensures
        bins_of(final(banks)@) == pin_all(bins_of(old(banks)@), areas@, filter),
{
    let mut i: usize = 0;
    proof {
        assert(areas@.take(0) == Seq::<Placed>::empty());
    }
    while i < areas.len()
        invariant
            i <= areas.len(),
            forall|n: int|
                0 <= n < areas.len() && is_pinned((#[trigger] areas@[n]).1, filter)
                    ==> areas@[n].1.bank >= 1,
            bins_of(banks@) == pin_all(bins_of(old(banks)@), areas@.take(i as int), filter),
        decreases areas.len() - i,
    {
        let x = areas[i];
        proof {
            let upto = areas@.take(i + 1);
            assert(upto.drop_last() == areas@.take(i as int));
            assert(upto.last() == x);
        }
        if filter != 0 && x.1.bank != filter {
            grow_banks(banks, x.1.bank as usize);
            add_to_bank(banks, (x.1.bank - 1) as usize, x);
        }
        i = i + 1;
    }
    proof {
        assert(areas@.take(i as int) == areas@);
    }
}

/// The position of the first bank that overflows, and the bytes that its
/// areas take.
fn find_overflow(banks: &Vec<Bank>, reserve: &Vec<u32>) -> (found: Option<(usize, u128)>)
    ensures
        match found {
            Some((k, bytes)) => k < banks.len() && first_overflow(bins_of(banks@), 0, reserve@)
                == k && bytes == used(banks@[k as int]@),
            None => first_overflow(bins_of(banks@), 0, reserve@) == banks.len(),
        },
{
    let mut k: usize = 0;
    while k < banks.len()
        invariant
            k <= banks.len(),
            first_overflow(bins_of(banks@), 0, reserve@) == first_overflow(
                bins_of(banks@),
                k as int,
                reserve@,
            ),
        decreases banks.len() - k,
    {
        let bytes = bank_used(&banks[k]);
        if bytes + reserved_in(reserve, k + 1) as u128 > BANK_SIZE as u128 {
            return Some((k, bytes));
        }
        k = k + 1;
    }
    None
}

/// Packs `x`: into the first bank from `start_bank` on that it fits into,
/// else into a new bank behind the others. Where it does not fit there
/// either, the banks stay as they are.
fn place_area(banks: &mut Vec<Bank>, x: Placed, start_bank: u32, reserve: &Vec<u32>) -> (result:
    Result<(), PackError>)
    ensures
        match result {
            Ok(_) => place(bins_of(old(banks)@), x, start_bank, reserve@) == Ok::<
                Seq<Seq<Placed>>,
                PackError,
            >(bins_of(final(banks)@)),
            Err(e) => place(bins_of(old(banks)@), x, start_bank, reserve@) == Err::<
                Seq<Seq<Placed>>,
                PackError,
            >(e) && final(banks)@ == old(banks)@,
        },
{
    let ghost bins = bins_of(banks@);
    let first: usize = if start_bank == 0 {
        0
    } else {
        (start_bank - 1) as usize
    };
    let mut k: usize = first;
    while k < banks.len()
        invariant
            first <= k,
            first == first_open(start_bank),
            banks@ == old(banks)@,
            bins == bins_of(banks@),
            first_fit(bins, first as int, x.1.size as int, reserve@) == first_fit(
                bins,
                k as int,
                x.1.size as int,
                reserve@,
            ),
        decreases banks.len() - k,
    {
        let bytes = bank_used(&banks[k]);
        if bytes + x.1.size as u128 + reserved_in(reserve, k + 1) as u128 <= BANK_SIZE as u128 {
            add_to_bank(banks, k, x);
            return Ok(());
        }
        k = k + 1;
    }
    let next: u32 = if banks.len() < reserve.len() {
        reserved_in(reserve, banks.len() + 1)
    } else {
        0
    };
    proof {
        assert(bins.len() == banks.len());
        assert(next == reserved(reserve@, bins.len() as int + 1));
    }
    if x.1.size as u64 + next as u64 > BANK_SIZE as u64 {
        return Err(PackError::NoRoom { size: x.1.size });
    }
    let mut objects: Vec<Placed> = Vec::new();
    objects.push(x);
    banks.push(Bank { objects });
    proof {
        assert(bins_of(banks@) == bins.push(seq![x]));
    }
    Ok(())
}

/// Packs each area of `areas` that is not pinned, in their order, and
/// stops at the first that cannot be packed.
fn place_areas(
    banks: &mut Vec<Bank>,
    areas: &Vec<Placed>,
    filter: u32,
    start_bank: u32,
    reserve: &Vec<u32>,
) -> (result: Result<(), PackError>)
    ensures
        match result {
            Ok(_) => place_all(bins_of(old(banks)@), areas@, filter, start_bank, reserve@) == Ok::<
                Seq<Seq<Placed>>,
                PackError,
            >(bins_of(final(banks)@)),
            Err(e) => place_all(bins_of(old(banks)@), areas@, filter, start_bank, reserve@)
                == Err::<Seq<Seq<Placed>>, PackError>(e),
        },
{
    let ghost start = bins_of(banks@);
    let mut i: usize = 0;
    proof {
        assert(areas@.take(0) == Seq::<Placed>::empty());
    }
    while i < areas.len()
        invariant
            i <= areas.len(),
            start == bins_of(old(banks)@),
            place_all(start, areas@.take(i as int), filter, start_bank, reserve@) == Ok::<
                Seq<Seq<Placed>>,
                PackError,
            >(bins_of(banks@)),
        decreases areas.len() - i,
    {
        let x = areas[i];
        proof {
            let upto = areas@.take(i + 1);
            assert(upto.drop_last() == areas@.take(i as int));
            assert(upto.last() == x);
        }
        if filter == 0 || x.1.bank == filter {
            match place_area(banks, x, start_bank, reserve) {
                Ok(_) => {},
                Err(e) => {
                    proof {
                        assert(place_all(
                            start,
                            areas@.take(i + 1),
                            filter,
                            start_bank,
                            reserve@,
                        ) == Err::<Seq<Seq<Placed>>, PackError>(e));
                        lemma_place_all_stops(start, areas@, i + 1, filter, start_bank, reserve@);
                    }
                    return Err(e);
                },
            }
        }
        i = i + 1;
    }
    proof {
        assert(areas@.take(i as int) == areas@);
    }
    Ok(())
}

/// Packs the areas of `objects` into banks.
///
/// An area that is not compiled for bank `filter` stays in the bank that
/// it names, unless `filter` is 0. The other areas go into banks from
/// `start_bank` on. `reserve` gives, at the position of a bank's number,
/// the bytes of that bank to leave free.
pub fn pack_banks(objects: &Vec<ObjectData>, filter: u32, start_bank: u32, reserve: &Vec<u32>) -> (result:
    Result<Vec<Bank>, PackError>)
    ensures
        match result {
            Ok(banks) => packed(objects@, filter, start_bank, reserve@) == Ok::<
                Seq<Seq<Placed>>,
                PackError,
            >(bins_of(banks@)),
            Err(e) => packed(objects@, filter, start_bank, reserve@) == Err::<
                Seq<Seq<Placed>>,
                PackError,
            >(e),
        },
        result matches Ok(banks) ==> {
            &&& within_capacity(bins_of(banks@), reserve@)
            &&& pinned_in_place(bins_of(banks@), filter)
            &&& packed_from(bins_of(banks@), filter, start_bank)
            &&& contents(bins_of(banks@)) == all_areas(objects@).to_multiset()
        },
{
    let count = objects.len();
    proof {
        assert(objects@.len() == count);
        lemma_packed_within_capacity(objects@, filter, start_bank, reserve@);
        lemma_packed_in_place(objects@, filter, start_bank, reserve@);
        lemma_packed_keeps_areas(objects@, filter, start_bank, reserve@);
    }
    if !is_packable(objects, filter, start_bank) {
        return Err(PackError::BankOutOfRange);
    }
    let areas = collect_areas(objects);
    let largest = largest_area(&areas);
    if largest > BANK_SIZE {
        return Err(PackError::AreaTooLarge { size: largest });
    }
    let sorted = sort_by_size(&areas);
    let first: usize = if start_bank == 0 {
        0
    } else {
        (start_bank - 1) as usize
    };
    let mut banks: Vec<Bank> = Vec::new();
    grow_banks(&mut banks, first);
    proof {
        assert(bins_of(banks@) == empty_bins(first_open(start_bank)));
        assert(objects@.len() == count);
        lemma_pinned_banks_exist(objects@, filter);
        lemma_by_size_descending_permutes(areas@);
        lemma_pin_all_sizes(bins_of(banks@), sorted@, filter, u32::MAX as int);
    }
    pin_areas(&mut banks, &sorted, filter);
    match find_overflow(&banks, reserve) {
        Some((k, bytes)) => {
            proof {
                lemma_used_bound(banks@[k as int]@);
                assert(bins_of(banks@)[k as int].len() <= sorted.len());
            }
            return Err(
                PackError::BankOverflow {
                    bank: (k + 1) as u32,
                    used: bytes as u64,
                    capacity: BANK_SIZE,
                },
            );
        },
        None => {},
    }
    match place_areas(&mut banks, &sorted, filter, start_bank, reserve) {
        Ok(_) => Ok(banks),
        Err(e) => Err(e),
    }
}

/// The replacements for the areas of the file at position `index`, bank
/// by bank and, within a bank, in the order of its areas. An area's new
/// bank number is the number of the bank that holds it: the banks are
/// numbered from 1, and with `mbc1` a bank that holds an area never gets
/// one of the numbers 0x20, 0x40 and 0x60.
///
/// The numbers have to fit in 32 bits: there are at most `u32::MAX - 3`
/// banks.
pub fn get_bank_replacements(index: usize, packed: &Vec<Bank>, mbc1: bool) -> (found: Vec<
    BankReplacement,
>)
    requires
        packed.len() + 3 <= u32::MAX,
    ensures
        found@ == replacements(bins_of(packed@), index, mbc1, packed.len() as int),
{
    let ghost bins = bins_of(packed@);
    let mut found: Vec<BankReplacement> = Vec::new();
    let mut last_no: u32 = 0;
    let mut k: usize = 0;
    while k < packed.len()
        invariant
            k <= packed.len(),
            packed.len() + 3 <= u32::MAX,
            bins == bins_of(packed@),
            last_no == (if k == 0 {
                0
            } else {
                bank_number(bins, k - 1, mbc1)
            }),
            found@ == replacements(bins, index, mbc1, k as int),
        decreases packed.len() - k,
    {
        let bank = &packed[k];
        proof {
            lemma_bank_number_bounds(bins, k as int, mbc1);
            if k > 0 {
                lemma_bank_number_bounds(bins, k - 1, mbc1);
            }
        }
        let mut bank_no: u32 = last_no + 1;
        if mbc1 && bank.objects.len() > 0 && (bank_no == 0x20 || bank_no == 0x40 || bank_no
            == 0x60) {
            bank_no = bank_no + 1;
        }
        let ghost before = found@;
        let mut j: usize = 0;
        proof {
            assert(bank@.take(0) == Seq::<Placed>::empty());
            assert(before + Seq::<BankReplacement>::empty() == before);
        }
        while j < bank.objects.len()
            invariant
                j <= bank.objects.len(),
                found@ == before + bin_replacements(bank@.take(j as int), index, bank_no),
            decreases bank.objects.len() - j,
        {
            let object = bank.objects[j];
            proof {
                let upto = bank@.take(j + 1);
                assert(upto.drop_last() == bank@.take(j as int));
                assert(upto.last() == object);
                let part = bin_replacements(bank@.take(j as int), index, bank_no);
                let r = BankReplacement { from: object.1.bank, to: bank_no };
                assert((before + part).push(r) == before + part.push(r));
            }
            if object.0 == index {
                found.push(BankReplacement { from: object.1.bank, to: bank_no });
            }
            j = j + 1;
        }
        proof {
            assert(bank@.take(j as int) == bank@);
            assert(bins[k as int] == bank@);
        }
        last_no = bank_no;
        k = k + 1;
    }
    found
}

/// Packs the areas of `objects` into banks and gives, for each object
/// file, the bank numbers to replace in its text.
///
/// An area that is not compiled for bank `filter` stays in the bank that
/// it names, unless `filter` is 0. The other areas are taken from the
/// largest down, and each goes into the first bank from `bank_offset` on
/// that has room for it. `reserve` gives, at the position of a bank's
/// number, the bytes of that bank to leave free. With `mbc1` no area gets
/// one of the bank numbers 0x20, 0x40 and 0x60.
pub fn pack_object_data(
    objects: Vec<ObjectData>,
    filter: u32,
    bank_offset: u32,
    mbc1: bool,
    reserve: Vec<u32>,
) -> (result: Result<Vec<ObjectPatch>, PackError>)
    ensures
        match result {
            Ok(patches) => packed(objects@, filter, bank_offset, reserve@) matches Ok(bins) && {
                &&& patches_for(patches@, objects@, bins, mbc1)
                &&& within_capacity(bins, reserve@)
                &&& pinned_in_place(bins, filter)
                &&& packed_from(bins, filter, bank_offset)
                &&& contents(bins) == all_areas(objects@).to_multiset()
            },
            Err(e) => packed(objects@, filter, bank_offset, reserve@) == Err::<
                Seq<Seq<Placed>>,
                PackError,
            >(e),
        },
        mbc1 ==> (result matches Ok(patches) ==> forall|i: int, j: int|
            0 <= i < patches.len() && 0 <= j < patches[i].replacements@.len() ==> !is_skipped(
                (#[trigger] patches[i].replacements@[j]).to as int,
            )),
        !mbc1 && filter != 0 ==> (result matches Ok(patches) ==> forall|i: int, j: int|
            0 <= i < patches.len() && 0 <= j < patches[i].replacements@.len() && (
            #[trigger] patches[i].replacements@[j]).from != filter
                ==> patches[i].replacements@[j].to == patches[i].replacements@[j].from),
{
    let banks = match pack_banks(&objects, filter, bank_offset, &reserve) {
        Ok(banks) => banks,
        Err(e) => {
            return Err(e);
        },
    };
    let count = objects.len();
    proof {
        assert(packable(objects@, filter, bank_offset));
        lemma_packed_count(objects@, filter, bank_offset, reserve@);
        assert(bins_of(banks@).len() == banks.len());
    }
    let mut patches: Vec<ObjectPatch> = Vec::new();
    let mut i: usize = 0;
    while i < count
        invariant
            i <= count,
            count == objects.len(),
            banks.len() + 3 <= u32::MAX,
            patches.len() == i,
            forall|n: int|
                0 <= n < i ==> {
                    &&& (#[trigger] patches@[n]).filename@ == objects@[n].filename@
                    &&& patches@[n].contents@ == objects@[n].contents@
                    &&& patches@[n].replacements@ == replacements(
                        bins_of(banks@),
                        n as usize,
                        mbc1,
                        banks.len() as int,
                    )
                },
        decreases count - i,
    {
        let patch = ObjectPatch {
            filename: objects[i].filename.clone(),
            contents: objects[i].contents.clone(),
            replacements: get_bank_replacements(i, &banks, mbc1),
        };
        patches.push(patch);
        i = i + 1;
    }
    proof {
        if mbc1 {
            assert forall|n: int, j: int|
                0 <= n < patches.len() && 0 <= j < patches[n].replacements@.len() implies
                !is_skipped((#[trigger] patches[n].replacements@[j]).to as int) by {
                lemma_skipped_never_given(bins_of(banks@), n as usize, banks.len() as int);
            }
        } else if filter != 0 {
            assert forall|n: int, j: int|
                0 <= n < patches.len() && 0 <= j < patches[n].replacements@.len() && (
                #[trigger] patches[n].replacements@[j]).from != filter implies
                patches[n].replacements@[j].to == patches[n].replacements@[j].from by {
                lemma_pinned_keep_number(
                    bins_of(banks@),
                    filter,
                    n as usize,
                    banks.len() as int,
                );
            }
        }
    }
    Ok(patches)
}

/// The highest bank number that `packed` gives to an area; 0 when it
/// gives none.
pub fn get_patch_max_bank(packed: &Vec<ObjectPatch>) -> (max: u32)
    ensures
        forall|i: int, j: int|
            0 <= i < packed.len() && 0 <= j < packed@[i].replacements@.len()
                ==> #[trigger] packed@[i].replacements@[j].to <= max,
        max == 0 || exists|i: int, j: int|
            0 <= i < packed.len() && 0 <= j < packed@[i].replacements@.len()
                && #[trigger] packed@[i].replacements@[j].to == max,
{
    let mut max: u32 = 0;
    let mut i: usize = 0;
    while i < packed.len()
        invariant
            i <= packed.len(),
            forall|a: int, b: int|
                0 <= a < i && 0 <= b < packed@[a].replacements@.len()
                    ==> #[trigger] packed@[a].replacements@[b].to <= max,
            max == 0 || exists|a: int, b: int|
                0 <= a < packed.len() && 0 <= b < packed@[a].replacements@.len()
                    && #[trigger] packed@[a].replacements@[b].to == max,
        decreases packed.len() - i,
    {
        let replacements = &packed[i].replacements;
        let mut j: usize = 0;
        while j < replacements.len()
            invariant
                j <= replacements.len(),
                i < packed.len(),
                replacements@ == packed@[i as int].replacements@,
                forall|a: int, b: int|
                    0 <= a < i && 0 <= b < packed@[a].replacements@.len()
                        ==> #[trigger] packed@[a].replacements@[b].to <= max,
                forall|b: int| 0 <= b < j ==> #[trigger] replacements@[b].to <= max,
                max == 0 || exists|a: int, b: int|
                    0 <= a < packed.len() && 0 <= b < packed@[a].replacements@.len()
                        && #[trigger] packed@[a].replacements@[b].to == max,
            decreases replacements.len() - j,
        {
            if replacements[j].to > max {
                max = replacements[j].to;
                proof {
                    assert(packed@[i as int].replacements@[j as int].to == max);
                }
            }
            j = j + 1;
        }
        i = i + 1;
    }
    max
}

/// Whether the banks that `objects` name exist and can be numbered:
/// whether packing can get further than `PackError::BankOutOfRange`.
pub fn is_packable(objects: &Vec<ObjectData>, filter: u32, bank_offset: u32) -> (ok: bool)
    ensures
        ok == packable(objects@, filter, bank_offset),
{
    if bank_offset > u32::MAX - 3 {
        return false;
    }
    let limit: u64 = (u32::MAX - 3 - bank_offset) as u64;
    let mut total: u64 = 0;
    let mut i: usize = 0;
    proof {
        assert(objects@.take(0) == Seq::<ObjectData>::empty());
    }
    while i < objects.len()
        invariant
            i <= objects.len(),
            limit == u32::MAX - 3 - bank_offset,
            total == all_areas(objects@.take(i as int)).len(),
            total <= limit,
        decreases objects.len() - i,
    {
        let count = objects[i].banks.len();
        proof {
            let upto = objects@.take(i + 1);
            assert(upto.drop_last() == objects@.take(i as int));
            assert(upto.last() == objects@[i as int]);
            lemma_all_areas_grow(objects@, i + 1);
        }
        if count as u64 > limit - total {
            return false;
        }
        total = total + count as u64;
        i = i + 1;
    }
    proof {
        assert(objects@.take(i as int) == objects@);
    }
    i = 0;
    while i < objects.len()
        invariant
            i <= objects.len(),
            total == all_areas(objects@).len(),
            total + bank_offset + 3 <= u32::MAX,
            forall|a: int, b: int|
                0 <= a < i && 0 <= b < objects@[a].banks@.len() && is_pinned(
                    #[trigger] objects@[a].banks@[b],
                    filter,
                ) ==> objects@[a].banks@[b].bank >= 1 && objects@[a].banks@[b].bank + total + 3
                    <= u32::MAX,
        decreases objects.len() - i,
    {
        let banks = &objects[i].banks;
        let mut j: usize = 0;
        while j < banks.len()
            invariant
                j <= banks.len(),
                i < objects.len(),
                banks@ == objects@[i as int].banks@,
                total == all_areas(objects@).len(),
                total + bank_offset + 3 <= u32::MAX,
                forall|b: int|
                    0 <= b < j && is_pinned(#[trigger] banks@[b], filter) ==> banks@[b].bank >= 1
                        && banks@[b].bank + total + 3 <= u32::MAX,
            decreases banks.len() - j,
        {
            let bank = banks[j].bank;
            if filter != 0 && bank != filter {
                if bank == 0 || bank as u64 + total + 3 > u32::MAX as u64 {
                    proof {
                        assert(is_pinned(objects@[i as int].banks@[j as int], filter));
                    }
                    return false;
                }
            }
            j = j + 1;
        }
        i = i + 1;
    }
    true
}

} // verus!

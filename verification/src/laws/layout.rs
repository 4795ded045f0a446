//! Laws on the memory layout: which sections count, and where the used part of RAM goes.
use vstd::prelude::*;

use crate::memory;
use crate::memory::MemoryEntry;
use crate::sections;
use crate::sections::Section;
use crate::session::{Event, SessionState, Stage};

verus! {

/// `s` is an ELF section with the flag for sections that take up memory, and lies in `ram` with all
/// of its bytes.
pub open spec fn lies_in(s: Section, ram: MemoryEntry) -> bool {
    &&& s.elf_flags matches Some(flags) && flags & 2 != 0
    &&& ram.origin <= s.address
    &&& s.address + s.size <= ram.origin + ram.length
}

/// `s` is an ELF section with the flag for sections that take up memory, and ends behind the address
/// space.
pub open spec fn ends_too_late(s: Section) -> bool {
    &&& s.elf_flags matches Some(flags) && flags & 2 != 0
    &&& s.address + s.size > u64::MAX
}

/// Of the `list`, the section of index `low` lies lowest in `ram`, the one of index `high` ends
/// highest, and the one of index `wide` has the greatest alignment.
pub open spec fn are_extremes(
    ram: MemoryEntry,
    list: Seq<Section>,
    low: int,
    high: int,
    wide: int,
) -> bool {
    &&& 0 <= low < list.len() && lies_in(list[low], ram)
    &&& 0 <= high < list.len() && lies_in(list[high], ram)
    &&& 0 <= wide < list.len() && lies_in(list[wide], ram)
    &&& forall|i: int|
        0 <= i < list.len() && lies_in(#[trigger] list[i], ram) ==> {
            &&& list[low].address <= list[i].address
            &&& list[i].address + list[i].size <= list[high].address + list[high].size
            &&& list[i].align <= list[wide].align
        }
}

/// `origin` and `length` are those of the smallest region that ends where `ram` ends, holds `used`
/// bytes, and starts at a multiple of `align` and of at least 8.
pub open spec fn is_smallest(
    ram: MemoryEntry,
    used: int,
    align: int,
    origin: int,
    length: int,
) -> bool {
    let step = if align < 8 {
        8
    } else {
        align
    };
    &&& origin % step == 0
    &&& origin + length == ram.origin + ram.length
    &&& used <= length < used + step
}

/// A section counts where it takes up memory and lies in RAM, by its flags, address and size alone.
pub proof fn law_section_resides_where_it_lies(ram: MemoryEntry, s: Section)
    ensures
        s.resides_in(ram) <==> lies_in(s, ram),
        s.is_allocated() <==> (s.elf_flags matches Some(flags) && flags & 2 != 0),
        s.fits() <==> s.address + s.size <= u64::MAX,
        ram.wf() <==> ram.origin + ram.length <= u64::MAX,
{
}

/// All sections fit unless one that takes up memory ends behind the address space.
pub proof fn law_sections_fit(list: Seq<Section>)
    ensures
        sections::all_fit(list) <==> forall|i: int|
            0 <= i < list.len() ==> !ends_too_late(#[trigger] list[i]),
{
    if sections::all_fit(list) {
        assert forall|i: int| 0 <= i < list.len() implies !ends_too_late(#[trigger] list[i]) by {
            if list[i].is_allocated() {
                assert(list[i].fits());
            }
        }
    }
    if forall|i: int| 0 <= i < list.len() ==> !ends_too_late(#[trigger] list[i]) {
        assert forall|i: int|
            0 <= i < list.len() && (#[trigger] list[i]).is_allocated() implies list[i].fits() by {
            assert(!ends_too_late(list[i]));
        }
    }
}

/// Each section that takes up memory in RAM is part of the used RAM, with its alignment.
pub proof fn law_section_in_ram_is_used(ram: MemoryEntry, list: Seq<Section>, i: int)
    requires
        0 <= i < list.len(),
        list[i].elf_flags matches Some(flags) && flags & 2 != 0,
        ram.origin <= list[i].address,
        list[i].address + list[i].size <= ram.origin + ram.length,
    ensures
        sections::used_span(ram, list) matches Some(span) && span.start <= list[i].address
            && list[i].address + list[i].size <= span.end && list[i].align <= span.align,
        list[i].size <= sections::used_length(ram, list),
        list[i].align <= sections::used_align(ram, list),
{
    sections::law_used_span(ram, list);
    assert(list[i].resides_in(ram));
}

/// The used RAM goes from the lowest to the highest of the sections in RAM, and has the greatest of
/// their alignments.
pub proof fn law_used_ram_is_exact(
    ram: MemoryEntry,
    list: Seq<Section>,
    low: int,
    high: int,
    wide: int,
)
    requires
        are_extremes(ram, list, low, high, wide),
    ensures
        sections::used_length(ram, list) == list[high].address + list[high].size - list[low].address,
        sections::used_align(ram, list) == list[wide].align,
{
    sections::law_used_span(ram, list);
    assert(list[low].resides_in(ram) && list[high].resides_in(ram) && list[wide].resides_in(ram));
    let span = sections::used_span(ram, list)->0;
    let a = choose|i: int|
        0 <= i < list.len() && (#[trigger] list[i]).resides_in(ram) && list[i].address
            == span.start;
    let b = choose|i: int|
        0 <= i < list.len() && (#[trigger] list[i]).resides_in(ram) && list[i].address
            + list[i].size == span.end;
    let c = choose|i: int|
        0 <= i < list.len() && (#[trigger] list[i]).resides_in(ram) && list[i].align == span.align;
    assert(lies_in(list[a], ram) && lies_in(list[b], ram) && lies_in(list[c], ram));
}

/// Where no section lies in RAM, no RAM is used.
pub proof fn law_unused_ram(ram: MemoryEntry, list: Seq<Section>)
    requires
        forall|i: int| 0 <= i < list.len() ==> !lies_in(#[trigger] list[i], ram),
    ensures
        sections::used_length(ram, list) == 0,
        sections::used_align(ram, list) == 0,
{
    sections::law_used_span(ram, list);
    if let Some(span) = sections::used_span(ram, list) {
        let a = choose|i: int|
            0 <= i < list.len() && (#[trigger] list[i]).resides_in(ram) && list[i].address
                == span.start;
        assert(lies_in(list[a], ram));
    }
}

/// The order in which a program lists its sections does not matter, nor do sections that are not in
/// RAM: two programs with the same sections in RAM use the same RAM.
pub proof fn law_used_ram_depends_on_sections_in_ram(
    ram: MemoryEntry,
    list: Seq<Section>,
    other: Seq<Section>,
)
    requires
        forall|s: Section| #[trigger]
            lies_in(s, ram) ==> (list.contains(s) <==> other.contains(s)),
    ensures
        sections::used_length(ram, list) == sections::used_length(ram, other),
        sections::used_align(ram, list) == sections::used_align(ram, other),
{
    lemma_within(ram, list, other);
    lemma_within(ram, other, list);
}

/// A program that has all sections in RAM of another uses all the RAM that the other uses.
proof fn lemma_within(ram: MemoryEntry, list: Seq<Section>, other: Seq<Section>)
    requires
        forall|s: Section| #[trigger] lies_in(s, ram) && list.contains(s) ==> other.contains(s),
    ensures
        sections::used_span(ram, list) matches Some(a) ==> (sections::used_span(ram, other) matches
            Some(b) && b.start <= a.start && a.end <= b.end && a.align <= b.align),
        sections::used_length(ram, list) <= sections::used_length(ram, other),
        sections::used_align(ram, list) <= sections::used_align(ram, other),
{
    sections::law_used_span(ram, list);
    sections::law_used_span(ram, other);
    if let Some(span) = sections::used_span(ram, list) {
        let a = choose|i: int|
            0 <= i < list.len() && (#[trigger] list[i]).resides_in(ram) && list[i].address
                == span.start;
        let b = choose|i: int|
            0 <= i < list.len() && (#[trigger] list[i]).resides_in(ram) && list[i].address
                + list[i].size == span.end;
        let c = choose|i: int|
            0 <= i < list.len() && (#[trigger] list[i]).resides_in(ram) && list[i].align
                == span.align;
        lemma_counts(ram, other, list[a]);
        lemma_counts(ram, other, list[b]);
        lemma_counts(ram, other, list[c]);
    }
}

/// A section in RAM that a program has is part of the RAM that it uses.
proof fn lemma_counts(ram: MemoryEntry, list: Seq<Section>, s: Section)
    requires
        lies_in(s, ram),
        list.contains(s),
    ensures
        sections::used_span(ram, list) matches Some(span) && span.start <= s.address && s.address
            + s.size <= span.end && s.align <= span.align,
{
    let i = choose|i: int| 0 <= i < list.len() && list[i] == s;
    law_section_in_ram_is_used(ram, list, i);
}

/// The region at the end of a region is the smallest that holds the used part, and the only one
/// that is.
pub proof fn law_end_region_is_smallest(
    ram: MemoryEntry,
    used: nat,
    align: nat,
    origin: int,
    length: int,
)
    ensures
        is_smallest(ram, used as int, align as int, origin, length) <==> {
            &&& origin == memory::end_region_origin(ram, used, align)
            &&& length == memory::end_region_length(ram, origin)
        },
{
    let step = if align < 8 {
        8int
    } else {
        align as int
    };
    memory::law_floor_multiple(ram.origin + ram.length - used, step, origin);
}

/// The region that a program moves to is the smallest at the end of RAM that holds all RAM that its
/// sections use.
pub proof fn law_new_region_is_smallest(
    ram: MemoryEntry,
    list: Seq<Section>,
    low: int,
    high: int,
    wide: int,
)
    requires
        ram.origin + ram.length <= u64::MAX,
        are_extremes(ram, list, low, high, wide),
    ensures
        is_smallest(
            ram,
            list[high].address + list[high].size - list[low].address,
            list[wide].align as int,
            sections::new_region(ram, list).0 as int,
            sections::new_region(ram, list).1 as int,
        ),
{
    law_used_ram_is_exact(ram, list, low, high, wide);
    let (origin, length) = sections::new_region(ram, list);
    sections::law_new_region_is_end_region(ram, list);
    law_end_region_is_smallest(
        ram,
        sections::used_length(ram, list),
        sections::used_align(ram, list),
        origin as int,
        length as int,
    );
}

/// The region of a program that uses no RAM is the empty end of it, up to alignment.
pub proof fn law_new_region_of_unused_ram(ram: MemoryEntry, list: Seq<Section>)
    requires
        ram.origin + ram.length <= u64::MAX,
        forall|i: int| 0 <= i < list.len() ==> !lies_in(#[trigger] list[i], ram),
    ensures
        is_smallest(
            ram,
            0,
            0,
            sections::new_region(ram, list).0 as int,
            sections::new_region(ram, list).1 as int,
        ),
{
    law_unused_ram(ram, list);
    let (origin, length) = sections::new_region(ram, list);
    sections::law_new_region_is_end_region(ram, list);
    law_end_region_is_smallest(ram, 0, 0, origin as int, length as int);
}

/// A session links again with the smallest region at the end of RAM that holds all RAM that the
/// sections of the linked program use, so that the stack gets all the rest. The script, its line and
/// the search stay as they were.
pub proof fn law_session_moves_used_ram(
    s: SessionState,
    script: usize,
    ram: MemoryEntry,
    elf: Seq<u8>,
    list: Seq<Section>,
    low: int,
    high: int,
    wide: int,
)
    requires
        s.stage == (Stage::Output { script, ram }),
        sections::object_sections(elf) == Some(list),
        ram.origin + ram.length <= u64::MAX,
        forall|i: int| 0 <= i < list.len() ==> !ends_too_late(#[trigger] list[i]),
        are_extremes(ram, list, low, high, wide),
    ensures
        ({
            let after = s.step(Event::Output { elf });
            &&& after.search == s.search
            &&& after.stage matches Stage::Relink { script: i, ram: r, origin, length }
            &&& i == script
            &&& r == ram
            &&& is_smallest(
                ram,
                list[high].address + list[high].size - list[low].address,
                list[wide].align as int,
                origin as int,
                length as int,
            )
        }),
{
    law_sections_fit(list);
    law_new_region_is_smallest(ram, list, low, high, wide);
}

/// A session whose program uses no RAM links again with the empty end of RAM, up to alignment.
pub proof fn law_session_moves_nothing(
    s: SessionState,
    script: usize,
    ram: MemoryEntry,
    elf: Seq<u8>,
    list: Seq<Section>,
)
    requires
        s.stage == (Stage::Output { script, ram }),
        sections::object_sections(elf) == Some(list),
        ram.origin + ram.length <= u64::MAX,
        forall|i: int| 0 <= i < list.len() ==> !ends_too_late(#[trigger] list[i]),
        forall|i: int| 0 <= i < list.len() ==> !lies_in(#[trigger] list[i], ram),
    ensures
        ({
            let after = s.step(Event::Output { elf });
            &&& after.search == s.search
            &&& after.stage matches Stage::Relink { script: i, ram: r, origin, length }
            &&& i == script
            &&& r == ram
            &&& is_smallest(ram, 0, 0, origin as int, length as int)
        }),
{
    law_sections_fit(list);
    law_new_region_of_unused_ram(ram, list);
}

/// A session does not go on where the program cannot be read, or where RAM or a section that takes
/// up memory ends behind the address space.
pub proof fn law_session_waits_for_a_readable_program(
    s: SessionState,
    script: usize,
    ram: MemoryEntry,
    elf: Seq<u8>,
)
    requires
        s.stage == (Stage::Output { script, ram }),
        match sections::object_sections(elf) {
            Some(list) => ram.origin + ram.length > u64::MAX || exists|i: int|
                0 <= i < list.len() && ends_too_late(#[trigger] list[i]),
            None => true,
        },
    ensures
        s.step(Event::Output { elf }) == s,
{
    if let Some(list) = sections::object_sections(elf) {
        law_sections_fit(list);
    }
}

} // verus!

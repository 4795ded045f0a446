//! The part of RAM that the sections of a program use.
use vstd::prelude::*;

use object::{Object, ObjectSection};

use crate::memory;
use crate::memory::MemoryEntry;

verus! {

/// What the layout of a program depends on in one of its sections.
#[derive(Clone, Copy, Debug, PartialEq, Eq, Structural)]
pub struct Section {
    /// The `sh_flags` of an ELF section; `None` for a section of another format.
    pub elf_flags: Option<u64>,
    pub address: u64,
    pub size: u64,
    pub align: u64,
}

/// What `object` reports of a file that it cannot read.
#[verifier::external_type_specification]
#[verifier::external_body]
pub struct ExObjectError(object::read::Error);

/// The sections of the object file `data`, in order; `None` where `object` cannot read it.
pub uninterp spec fn object_sections(data: Seq<u8>) -> Option<Seq<Section>>;

/// `object::File::parse`, and of the file that it gives each of `Object::sections` by its
/// `flags`, `address`, `size` and `align`. Whether the file can be read, and which sections it
/// lists in which order, depends on its bytes alone. Which error it gives for one that cannot be
/// read may depend on the machine too, and is not said.
#[verifier::external_body]
fn parse_object(elf: &[u8]) -> (r: Result<Vec<Section>, object::read::Error>)
    ensures
        match r {
            Ok(sections) => object_sections(elf@) == Some(sections@),
            Err(_) => object_sections(elf@) is None,
        },
{
    let file = object::File::parse(elf)?;
    Ok(file.sections().map(|s| Section {
        elf_flags: match s.flags() {
            object::SectionFlags::Elf { sh_flags } => Some(sh_flags),
            _ => None,
        },
        address: s.address(),
        size: s.size(),
        align: s.align(),
    }).collect())
}

/// The text of an `object::read::Error`, by its `Display`. Nothing is said of it, since nothing is
/// said of the error.
#[verifier::external_body]
fn error_text(e: &object::read::Error) -> (r: String) {
    e.to_string()
}

/// The flag of a section that takes up memory when the program runs.
pub open spec fn alloc_flag() -> u64 {
    2
}

/// `object::elf::SHF_ALLOC`, whose value is 2.
#[verifier::external_body]
fn shf_alloc() -> (r: u64)
    ensures
        r == alloc_flag(),
{
    object::elf::SHF_ALLOC as u64
}

impl Section {
    /// The section takes up memory when the program runs.
    pub open spec fn is_allocated(self) -> bool {
        self.elf_flags matches Some(flags) && flags & alloc_flag() != 0
    }

    /// The section ends within the address space.
    pub open spec fn fits(self) -> bool {
        self.address + self.size <= u64::MAX
    }

    /// The section takes up memory in `ram`, from its first to its last address.
    pub open spec fn resides_in(self, ram: MemoryEntry) -> bool {
        &&& self.is_allocated()
        &&& ram.origin <= self.address <= ram.origin + ram.length
        &&& ram.origin <= self.address + self.size <= ram.origin + ram.length
    }
}

/// Each section that takes up memory ends within the address space.
pub open spec fn all_fit(sections: Seq<Section>) -> bool {
    forall|i: int|
        0 <= i < sections.len() && (#[trigger] sections[i]).is_allocated() ==> sections[i].fits()
}

/// A part of RAM: its first address, the address behind it, and the alignment of what it holds.
pub struct Span {
    pub start: nat,
    pub end: nat,
    pub align: nat,
}

/// The part of `ram` from the first to the last of the `sections` that reside in it.
pub open spec fn used_span(ram: MemoryEntry, sections: Seq<Section>) -> Option<Span>
    decreases sections.len(),
{
    if sections.len() == 0 {
        None
    } else {
        let front = used_span(ram, sections.drop_last());
        let s = sections.last();
        let start = s.address as nat;
        let end = (s.address + s.size) as nat;
        let align = s.align as nat;
        if !s.resides_in(ram) {
            front
        } else {
            match front {
                None => Some(Span { start, end, align }),
                Some(span) => Some(
                    Span {
                        start: if start < span.start {
                            start
                        } else {
                            span.start
                        },
                        end: if end > span.end {
                            end
                        } else {
                            span.end
                        },
                        align: if align > span.align {
                            align
                        } else {
                            span.align
                        },
                    },
                ),
            }
        }
    }
}

/// How many bytes of `ram` lie between the first and the last of the `sections` that reside in it.
pub open spec fn used_length(ram: MemoryEntry, sections: Seq<Section>) -> nat {
    match used_span(ram, sections) {
        Some(span) => (span.end - span.start) as nat,
        None => 0,
    }
}

/// The alignment that the `sections` that reside in `ram` need; 0 where there are none.
pub open spec fn used_align(ram: MemoryEntry, sections: Seq<Section>) -> nat {
    match used_span(ram, sections) {
        Some(span) => span.align,
        None => 0,
    }
}

/// The used part of a region lies in it: it starts with the lowest of the sections that reside
/// there, ends with the highest and is aligned for all of them. There is such a part if and only if
/// there is such a section.
pub proof fn law_used_span(ram: MemoryEntry, sections: Seq<Section>)
    ensures
        match used_span(ram, sections) {
            Some(span) => {
                &&& ram.origin <= span.start <= span.end <= ram.origin + ram.length
                &&& forall|i: int|
                    0 <= i < sections.len() && (#[trigger] sections[i]).resides_in(ram)
                        ==> span.start <= sections[i].address && sections[i].address
                        + sections[i].size <= span.end && sections[i].align <= span.align
                &&& exists|i: int|
                    0 <= i < sections.len() && (#[trigger] sections[i]).resides_in(ram)
                        && sections[i].address == span.start
                &&& exists|i: int|
                    0 <= i < sections.len() && (#[trigger] sections[i]).resides_in(ram)
                        && sections[i].address + sections[i].size == span.end
                &&& exists|i: int|
                    0 <= i < sections.len() && (#[trigger] sections[i]).resides_in(ram)
                        && sections[i].align == span.align
            },
            None => forall|i: int|
                0 <= i < sections.len() ==> !(#[trigger] sections[i]).resides_in(ram),
        },
    decreases sections.len(),
{
    if sections.len() > 0 {
        let front = sections.drop_last();
        let n = sections.len() - 1;
        law_used_span(ram, front);
        assert(forall|i: int| 0 <= i < n ==> front[i] == #[trigger] sections[i]);
        assert(sections.last() == sections[n]);
        match used_span(ram, front) {
            Some(span) => {
                let a = choose|i: int|
                    0 <= i < front.len() && (#[trigger] front[i]).resides_in(ram)
                        && front[i].address == span.start;
                let b = choose|i: int|
                    0 <= i < front.len() && (#[trigger] front[i]).resides_in(ram)
                        && front[i].address + front[i].size == span.end;
                let c = choose|i: int|
                    0 <= i < front.len() && (#[trigger] front[i]).resides_in(ram)
                        && front[i].align == span.align;
                assert(sections[a].resides_in(ram));
                assert(sections[b].resides_in(ram));
                assert(sections[c].resides_in(ram));
            },
            None => {},
        }
        match used_span(ram, sections) {
            Some(span) => {
                assert forall|i: int|
                    0 <= i < sections.len() && (#[trigger] sections[i]).resides_in(
                        ram,
                    ) implies span.start <= sections[i].address && sections[i].address
                    + sections[i].size <= span.end && sections[i].align <= span.align by {
                    if i < n {
                        assert(front[i].resides_in(ram));
                    }
                }
            },
            None => {},
        }
    }
}

/// Returns `(used_ram_length, used_ram_align)`.
pub fn compute_span_of_ram_sections(ram_entry: MemoryEntry, sections: &[Section]) -> (r: (u64, u64))
    requires
        ram_entry.wf(),
        all_fit(sections@),
    ensures
        r.0 == used_length(ram_entry, sections@),
        r.1 == used_align(ram_entry, sections@),
        r.0 <= ram_entry.length,
{
    let mut used_ram_start = u64::MAX;
    let mut used_ram_end: u64 = 0;
    let mut used_ram_align: u64 = 0;
    let ram_region_span = ram_entry.span();
    let mut found_a_section = false;
    let mut i: usize = 0;
    while i < sections.len()
        invariant
            i <= sections@.len(),
            ram_entry.wf(),
            all_fit(sections@),
            ram_region_span@.start == ram_entry.origin,
            ram_region_span@.end == ram_entry.origin + ram_entry.length,
            !ram_region_span@.exhausted,
            match used_span(ram_entry, sections@.take(i as int)) {
                Some(span) => found_a_section && used_ram_start == span.start && used_ram_end
                    == span.end && used_ram_align == span.align,
                None => !found_a_section && used_ram_start == u64::MAX && used_ram_end == 0
                    && used_ram_align == 0,
            },
        decreases sections@.len() - i,
    {
        let section = sections[i];
        proof {
            assert(sections@.take(i + 1).drop_last() =~= sections@.take(i as int));
            assert(sections@.take(i + 1).last() == section);
        }
        if let Some(sh_flags) = section.elf_flags {
            if sh_flags & shf_alloc() != 0 {
                let start = section.address;
                let end = start + section.size;
                if ram_region_span.contains(&start) && ram_region_span.contains(&end) {
                    found_a_section = true;
                    if used_ram_align < section.align {
                        used_ram_align = section.align;
                    }
                    if used_ram_start > start {
                        used_ram_start = start;
                    }
                    if used_ram_end < end {
                        used_ram_end = end;
                    }
                }
            }
        }
        i += 1;
    }
    proof {
        assert(sections@.take(i as int) =~= sections@);
        law_used_span(ram_entry, sections@);
    }
    let used_ram_length = if !found_a_section {
        0
    } else {
        used_ram_end - used_ram_start
    };
    (used_ram_length, used_ram_align)
}

/// Why the used part of RAM cannot be moved.
#[derive(Debug)]
pub enum RegionError {
    /// The program is not a readable object file, as the text says.
    Object(String),
    /// The region or a section of the program ends behind the address space.
    AddressOverflow,
}

/// The start and the length of the region at the end of `ram` that the `sections` that reside in
/// `ram` move to.
pub open spec fn new_region(ram: MemoryEntry, sections: Seq<Section>) -> (u64, u64) {
    let origin = memory::end_region_origin(
        ram,
        used_length(ram, sections),
        used_align(ram, sections),
    );
    (origin as u64, memory::end_region_length(ram, origin) as u64)
}

/// The new region of a region in the address space lies there too, so that its start and its length
/// are those of a region at the end, to the byte.
pub proof fn law_new_region_is_end_region(ram: MemoryEntry, sections: Seq<Section>)
    requires
        ram.wf(),
    ensures
        ({
            let (origin, length) = new_region(ram, sections);
            &&& origin == memory::end_region_origin(
                ram,
                used_length(ram, sections),
                used_align(ram, sections),
            )
            &&& length == memory::end_region_length(ram, origin as int)
            &&& used_length(ram, sections) <= length
            &&& origin + length == ram.origin + ram.length
        }),
{
    law_used_span(ram, sections);
    memory::law_end_region_is_tight(ram, used_length(ram, sections), used_align(ram, sections));
    let x = ram.origin + ram.length - used_length(ram, sections);
    let m = memory::region_align(used_align(ram, sections)) as int;
    assert(x >= 0);
    assert(0 <= x % m <= x) by (nonlinear_arith)
        requires
            0 <= x,
            0 < m,
    ;
}

/// The region at the end of `ram_entry` that the `sections` that reside in it move to. `None` where
/// the region or a section that takes up memory ends behind the address space.
pub fn region_for_sections(ram_entry: MemoryEntry, sections: &[Section]) -> (r: Option<(u64, u64)>)
    ensures
        match r {
            Some(region) => ram_entry.wf() && all_fit(sections@) && region == new_region(
                ram_entry,
                sections@,
            ),
            None => !(ram_entry.wf() && all_fit(sections@)),
        },
{
    if ram_entry.length > u64::MAX - ram_entry.origin {
        return None;
    }
    let mut i: usize = 0;
    while i < sections.len()
        invariant
            i <= sections@.len(),
            forall|j: int|
                0 <= j < i && (#[trigger] sections@[j]).is_allocated() ==> sections@[j].fits(),
        decreases sections@.len() - i,
    {
        let section = sections[i];
        if let Some(sh_flags) = section.elf_flags {
            if sh_flags & shf_alloc() != 0 && section.size > u64::MAX - section.address {
                assert(sections@[i as int].is_allocated() && !sections@[i as int].fits());
                return None;
            }
        }
        i += 1;
    }
    let (used_ram_length, used_ram_align) = compute_span_of_ram_sections(ram_entry, sections);
    Some(memory::end_region(ram_entry, used_ram_length, used_ram_align))
}

/// The region at the end of `ram_entry` that the used part of it moves to, for a program whose
/// object file was read as `parsed`: its sections, or the text of an error.
pub fn region_for_object(ram_entry: MemoryEntry, parsed: Result<Vec<Section>, String>) -> (r: Result<
    (u64, u64),
    RegionError,
>)
    ensures
        match parsed {
            Ok(sections) => if ram_entry.wf() && all_fit(sections@) {
                r matches Ok(region) && region == new_region(ram_entry, sections@)
            } else {
                r matches Err(RegionError::AddressOverflow)
            },
            Err(message) => r matches Err(RegionError::Object(m)) && m == message,
        },
{
    match parsed {
        Ok(sections) => match region_for_sections(ram_entry, sections.as_slice()) {
            Some(region) => Ok(region),
            None => Err(RegionError::AddressOverflow),
        },
        Err(message) => Err(RegionError::Object(message)),
    }
}

/// The region at the end of `ram_entry` that the used part of it moves to, for the program in the
/// object file `elf`.
pub fn region_for_program(ram_entry: MemoryEntry, elf: &[u8]) -> (r: Result<(u64, u64), RegionError>)
    ensures
        match object_sections(elf@) {
            Some(sections) => if ram_entry.wf() && all_fit(sections) {
                r matches Ok(region) && region == new_region(ram_entry, sections)
            } else {
                r matches Err(RegionError::AddressOverflow)
            },
            None => r matches Err(RegionError::Object(_)),
        },
{
    let parsed = match parse_object(elf) {
        Ok(sections) => Ok(sections),
        Err(e) => Err(error_text(&e)),
    };
    region_for_object(ram_entry, parsed)
}

} // verus!

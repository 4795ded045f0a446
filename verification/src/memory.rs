//! Memory regions.
use vstd::prelude::*;

use std::ops::RangeInclusive;

verus! {

/// Entry under the `MEMORY` section in a linker script.
#[derive(Clone, Copy, Debug, PartialEq, Eq, Structural)]
pub struct MemoryEntry {
    pub line: usize,
    pub origin: u64,
    pub length: u64,
}

impl MemoryEntry {
    /// The region ends within the address space.
    pub open spec fn wf(self) -> bool {
        self.origin + self.length <= u64::MAX
    }

    /// The address behind the region.
    pub fn end(&self) -> (r: u64)
        requires
            self.wf(),
        ensures
            r == self.origin + self.length,
    {
        self.origin + self.length
    }

    /// The addresses from the start of the region to the one behind it.
    pub fn span(&self) -> (r: RangeInclusive<u64>)
        requires
            self.wf(),
        ensures
            r@.start == self.origin,
            r@.end == self.origin + self.length,
            !r@.exhausted,
    {
        RangeInclusive::new(self.origin, self.end())
    }
}

/// Stack pointer alignment required by the ARM architecture.
pub const SP_ALIGN: u64 = 8;

/// The alignment of a region that is to hold data of alignment `align` and to end a stack.
pub open spec fn region_align(align: nat) -> nat {
    if align < SP_ALIGN {
        SP_ALIGN as nat
    } else {
        align
    }
}

/// `x` without what it exceeds a multiple of `multiple` by.
pub open spec fn floor_multiple(x: int, multiple: int) -> int {
    x - x % multiple
}

/// Rounding down gives the one multiple that is at most the number and less than one step below it.
pub proof fn law_floor_multiple(x: int, multiple: int, r: int)
    requires
        0 < multiple,
    ensures
        r == floor_multiple(x, multiple) <==> r % multiple == 0 && r <= x < r + multiple,
{
    let q = x / multiple;
    assert(x == multiple * q + x % multiple && 0 <= x % multiple < multiple) by (nonlinear_arith)
        requires
            0 < multiple,
            q == x / multiple,
    ;
    assert(floor_multiple(x, multiple) == multiple * q);
    assert((multiple * q) % multiple == 0) by (nonlinear_arith)
        requires
            0 < multiple,
    ;
    if r % multiple == 0 && r <= x < r + multiple {
        let p = r / multiple;
        assert(r == multiple * p) by (nonlinear_arith)
            requires
                0 < multiple,
                p == r / multiple,
                r % multiple == 0,
        ;
        assert(p == q) by (nonlinear_arith)
            requires
                0 < multiple,
                multiple * p <= x < multiple * p + multiple,
                multiple * q <= x < multiple * q + multiple,
        ;
    }
}

/// The highest multiple of `multiple` that is not above `x`.
pub fn round_down_to_nearest_multiple(x: u64, multiple: u64) -> (r: u64)
    requires
        multiple != 0,
    ensures
        r == floor_multiple(x as int, multiple as int),
        r <= x,
{
    proof {
        assert(x % multiple <= x) by (nonlinear_arith)
            requires
                multiple != 0,
        ;
    }
    x - (x % multiple)
}

/// Where the region at the end of `entry` starts that holds `used` bytes of alignment `align`.
pub open spec fn end_region_origin(entry: MemoryEntry, used: nat, align: nat) -> int {
    floor_multiple(entry.origin + entry.length - used, region_align(align) as int)
}

/// How long the region is that starts at `origin` and ends with `entry`.
pub open spec fn end_region_length(entry: MemoryEntry, origin: int) -> int {
    entry.origin + entry.length - origin
}

/// The region at the end of `ram_entry` that the used part of it moves to, by its start and length.
pub fn end_region(ram_entry: MemoryEntry, used_ram_length: u64, used_ram_align: u64) -> (r: (
    u64,
    u64,
))
    requires
        ram_entry.wf(),
        used_ram_length <= ram_entry.origin + ram_entry.length,
    ensures
        r.0 == end_region_origin(ram_entry, used_ram_length as nat, used_ram_align as nat),
        r.1 == end_region_length(ram_entry, r.0 as int),
{
    let align = if used_ram_align < SP_ALIGN {
        SP_ALIGN
    } else {
        used_ram_align
    };
    let new_origin = round_down_to_nearest_multiple(ram_entry.end() - used_ram_length, align);
    let new_length = ram_entry.end() - new_origin;
    (new_origin, new_length)
}

/// The used part of RAM is pushed all the way to the end: the new region ends where RAM ends, is
/// aligned, holds the used part, and no aligned region that starts above it does.
pub proof fn law_end_region_is_tight(entry: MemoryEntry, used: nat, align: nat)
    ensures
        ({
            let origin = end_region_origin(entry, used, align);
            let length = end_region_length(entry, origin);
            &&& origin + length == entry.origin + entry.length
            &&& origin % (region_align(align) as int) == 0
            &&& used <= length < used + region_align(align)
            &&& forall|other: int|
                #![trigger end_region_length(entry, other)]
                other % (region_align(align) as int) == 0 && used <= end_region_length(
                    entry,
                    other,
                ) ==> other <= origin
        }),
{
    let m = region_align(align) as int;
    let x = entry.origin + entry.length - used;
    let origin = end_region_origin(entry, used, align);
    law_floor_multiple(x, m, origin);
    assert forall|other: int|
        #![trigger end_region_length(entry, other)]
        other % m == 0 && used <= end_region_length(entry, other) implies other <= origin by {
        if other > origin {
            let p = other / m;
            let q = origin / m;
            assert(other == m * p && origin == m * q) by (nonlinear_arith)
                requires
                    0 < m,
                    p == other / m,
                    q == origin / m,
                    other % m == 0,
                    origin % m == 0,
            ;
            assert(other >= origin + m) by (nonlinear_arith)
                requires
                    0 < m,
                    other == m * p,
                    origin == m * q,
                    other > origin,
            ;
        }
    }
}

/// The stack, which ends where the new region starts, is aligned as the architecture requires,
/// where the alignment of the data is compatible with that of the stack.
pub proof fn law_end_region_aligns_stack(entry: MemoryEntry, used: nat, align: nat)
    requires
        align < SP_ALIGN || align % (SP_ALIGN as nat) == 0,
    ensures
        end_region_origin(entry, used, align) % (SP_ALIGN as int) == 0,
{
    let m = region_align(align) as int;
    let origin = end_region_origin(entry, used, align);
    law_end_region_is_tight(entry, used, align);
    let q = origin / m;
    let k = m / 8;
    assert(origin == m * q) by (nonlinear_arith)
        requires
            0 < m,
            q == origin / m,
            origin % m == 0,
    ;
    assert(m == 8 * k);
    assert(origin == 8 * (k * q)) by (nonlinear_arith)
        requires
            origin == m * q,
            m == 8 * k,
    ;
}

/// The new region lies in RAM if and only if RAM has room for it: the used part fits behind an
/// aligned address in RAM. It does where RAM holds the used part and starts at such an address.
pub proof fn law_end_region_in_ram(entry: MemoryEntry, used: nat, align: nat)
    ensures
        entry.origin <= end_region_origin(entry, used, align) <==> exists|start: int|
            #![trigger end_region_length(entry, start)]
            entry.origin <= start && start % (region_align(align) as int) == 0 && used
                <= end_region_length(entry, start),
        used <= entry.length && entry.origin as int % (region_align(align) as int) == 0
            ==> entry.origin <= end_region_origin(entry, used, align),
        end_region_origin(entry, used, align) <= entry.origin + entry.length,
{
    law_end_region_is_tight(entry, used, align);
    let origin = end_region_origin(entry, used, align);
    assert(used <= end_region_length(entry, origin));
    assert(end_region_length(entry, entry.origin as int) == entry.length);
}

} // verus!

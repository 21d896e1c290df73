//! Where an aligned request is placed inside a region.

use vstd::prelude::*;

use crate::index::MemoryRegion;
use crate::partition::{
    covers, disjoint, first_vacant, fresh, full, has_region, holds_region, is_region,
    lemma_marked_covers, lemma_split_covers, marked, split_at, vacancy,
};
use crate::IndexError;

verus! {

/// The distance from the address `addr` up to the next multiple of `align`.
pub open spec fn pad_for(addr: int, align: int) -> int {
    (align - addr % align) % align
}

/// `size` rounded up to a multiple of `align`.
pub open spec fn padded_size(size: int, align: int) -> int {
    size + pad_for(size, align)
}

/// A request of `size` bytes at alignment `align` can be placed in the region `r` of a
/// pool that starts at the address `memory_start`: the region is free and, after the
/// padding that aligns its absolute start, still has `size` bytes.
pub open spec fn fits(r: MemoryRegion, memory_start: int, size: int, align: int) -> bool {
    !r.used && pad_for(memory_start + r.from, align) + size <= r.size
}

/// Slot `i` of `s` holds a region in which the request fits.
pub open spec fn slot_fits(
    s: Seq<Option<MemoryRegion>>,
    i: int,
    memory_start: int,
    size: int,
    align: int,
) -> bool {
    is_region(s, i) && fits(s[i].unwrap(), memory_start, size, align)
}

/// The request fits in some region of `s`.
pub open spec fn has_fit(s: Seq<Option<MemoryRegion>>, memory_start: int, size: int, align: int) -> bool {
    exists|i: int| #[trigger] slot_fits(s, i, memory_start, size, align)
}

/// Slot `i` of `s` is the first that holds a region in which the request fits.
pub open spec fn is_first_fit(
    s: Seq<Option<MemoryRegion>>,
    i: int,
    memory_start: int,
    size: int,
    align: int,
) -> bool {
    &&& slot_fits(s, i, memory_start, size, align)
    &&& forall|j: int| 0 <= j < i ==> !#[trigger] slot_fits(s, j, memory_start, size, align)
}

/// The first slot of `s` that holds a region in which the request fits.
pub open spec fn first_fit(s: Seq<Option<MemoryRegion>>, memory_start: int, size: int, align: int) -> int {
    choose|i: int| is_first_fit(s, i, memory_start, size, align)
}

/// The number of bytes that a request of `size` bytes at alignment `align` takes behind
/// its padding: the size rounded up to a multiple of the alignment, where an empty
/// request counts as a request of one byte, so that every reservation has a byte of
/// its own by which it is found again and released.
pub open spec fn wanted(size: usize, align: usize) -> int {
    padded_size(
        if size == 0 {
            1
        } else {
            size as int
        },
        align as int,
    )
}

/// What a reservation of `size` bytes at alignment `align` returns and what it makes of
/// the table `s`, in a pool that starts at the address `memory_start`.
///
/// The request goes to the first free region in which its `wanted` bytes fit behind the
/// padding that aligns it; where there is none, the reservation fails with
/// `NoFittingRegion`. Where padding and bytes fill the region, the region is marked
/// used as it is, and no slot is taken. Else the region is cut: the left piece is
/// marked used and the remainder goes to the first vacant slot; where no slot is
/// vacant, the reservation fails with `NoIndexAvailable`. The offset returned is that
/// of the aligned address. On an error the table is unchanged.
pub open spec fn reservation(s: Seq<Option<MemoryRegion>>, memory_start: usize, size: usize, align: usize) -> (
    Result<usize, IndexError>,
    Seq<Option<MemoryRegion>>,
) {
    let want = wanted(size, align);
    if !has_fit(s, memory_start as int, want, align as int) {
        (Err(IndexError::NoFittingRegion), s)
    } else {
        let slot = first_fit(s, memory_start as int, want, align as int);
        let whole = s[slot].unwrap();
        let pad = pad_for(memory_start + whole.from, align as int);
        if pad + want == whole.size {
            (Ok((whole.from + pad) as usize), marked(s, slot, true))
        } else if full(s) {
            (Err(IndexError::NoIndexAvailable), s)
        } else {
            (
                Ok((whole.from + pad) as usize),
                marked(split_at(s, slot, (pad + want) as usize, vacancy(s)), slot, true),
            )
        }
    }
}

/// The padding is less than the alignment, and brings the address to a multiple of it.
pub proof fn lemma_pad_for(addr: int, align: int)
    requires
        0 <= addr,
        0 < align,
    ensures
        0 <= pad_for(addr, align) < align,
        (addr + pad_for(addr, align)) % align == 0,
        addr % align == 0 ==> pad_for(addr, align) == 0,
        addr % align != 0 ==> pad_for(addr, align) == align - addr % align,
{
    let r = addr % align;
    assert(0 <= r < align) by (nonlinear_arith)
        requires
            r == addr % align,
            0 < align,
    ;
    if r == 0 {
        assert(align % align == 0) by (nonlinear_arith)
            requires
                0 < align,
        ;
    } else {
        assert((align - r) % align == align - r) by (nonlinear_arith)
            requires
                0 < r < align,
        ;
        assert((addr + (align - r)) % align == 0) by (nonlinear_arith)
            requires
                r == addr % align,
                0 < align,
        ;
    }
}

/// The padding that aligns the absolute address of the pool offset `from`.
pub fn padding(memory_start: usize, from: usize, align: usize) -> (pad: usize)
    requires
        align > 0,
    ensures
        pad == pad_for(memory_start + from, align as int),
        pad < align,
{
    proof {
        lemma_pad_for(memory_start + from, align as int);
    }
    let rem = (memory_start as u128 + from as u128) % (align as u128);
    if rem == 0 {
        0
    } else {
        align - (rem as usize)
    }
}

/// Rounds `size` up to a multiple of `align`, where the result fits in a `usize`.
pub fn pad_to_align(size: usize, align: usize) -> (r: Option<usize>)
    requires
        align > 0,
    ensures
        match r {
            Some(p) => p == padded_size(size as int, align as int),
            None => padded_size(size as int, align as int) > usize::MAX,
        },
{
    let pad = padding(0, size, align);
    if pad <= usize::MAX - size {
        Some(size + pad)
    } else {
        None
    }
}

/// The region that a successful reservation marks as used: it begins where the chosen
/// free region begins, and holds the padding and the bytes wanted.
pub open spec fn reserved_region(
    s: Seq<Option<MemoryRegion>>,
    memory_start: usize,
    size: usize,
    align: usize,
) -> MemoryRegion {
    let want = wanted(size, align);
    let whole = s[first_fit(s, memory_start as int, want, align as int)].unwrap();
    MemoryRegion {
        from: whole.from,
        size: (pad_for(memory_start + whole.from, align as int) + want) as usize,
        used: true,
    }
}

/// The bytes `[offset, offset + size)` lie in the used region that slot `i` of `s` holds.
pub open spec fn encloses(s: Seq<Option<MemoryRegion>>, i: int, offset: int, size: int) -> bool {
    &&& is_region(s, i)
    &&& s[i].unwrap().used
    &&& s[i].unwrap().from <= offset
    &&& offset + size <= s[i].unwrap().spec_end()
}

/// Rounding up adds less than the alignment, and the result is a multiple of it.
pub proof fn lemma_padded_size(size: int, align: int)
    requires
        0 <= size,
        0 < align,
    ensures
        size <= padded_size(size, align) < size + align,
        padded_size(size, align) % align == 0,
{
    lemma_pad_for(size, align);
}

/// A request takes at least one byte and at least its size, less than one alignment
/// more than that, and a multiple of its alignment.
pub proof fn lemma_wanted(size: usize, align: usize)
    requires
        align > 0,
    ensures
        1 <= wanted(size, align),
        size <= wanted(size, align),
        size > 0 ==> wanted(size, align) == padded_size(size as int, align as int) && wanted(
            size,
            align,
        ) < size + align,
        size == 0 ==> wanted(size, align) == align,
        wanted(size, align) % (align as int) == 0,
{
    if size == 0 {
        lemma_padded_size(1, align as int);
        lemma_pad_for(1, align as int);
        if align == 1 {
            assert(1int % 1 == 0);
        } else {
            assert(1int % (align as int) == 1) by (nonlinear_arith)
                requires
                    align > 1,
            ;
        }
    } else {
        lemma_padded_size(size as int, align as int);
    }
}

/// Where the request fits in some region, there is a first slot in which it fits.
pub proof fn lemma_first_fit_exists(
    s: Seq<Option<MemoryRegion>>,
    memory_start: int,
    size: int,
    align: int,
)
    requires
        has_fit(s, memory_start, size, align),
    ensures
        is_first_fit(s, first_fit(s, memory_start, size, align), memory_start, size, align),
{
    let j = choose|j: int| slot_fits(s, j, memory_start, size, align);
    lemma_first_fit_up_to(s, memory_start, size, align, j);
}

/// Where the request fits in slot `j`, there is a first slot in which it fits.
proof fn lemma_first_fit_up_to(
    s: Seq<Option<MemoryRegion>>,
    memory_start: int,
    size: int,
    align: int,
    j: int,
)
    requires
        slot_fits(s, j, memory_start, size, align),
    ensures
        is_first_fit(s, first_fit(s, memory_start, size, align), memory_start, size, align),
    decreases j,
{
    if forall|k: int| 0 <= k < j ==> !#[trigger] slot_fits(s, k, memory_start, size, align) {
        assert(is_first_fit(s, j, memory_start, size, align));
    } else {
        let k = choose|k: int| 0 <= k < j && #[trigger] slot_fits(s, k, memory_start, size, align);
        lemma_first_fit_up_to(s, memory_start, size, align, k);
    }
}

/// Where some slot up to `j` is vacant, there is a first vacant slot.
pub proof fn lemma_first_vacant_exists(s: Seq<Option<MemoryRegion>>, j: int)
    requires
        0 <= j < s.len(),
        s[j] is None,
    ensures
        first_vacant(s, vacancy(s)),
    decreases j,
{
    if forall|k: int| 0 <= k < j ==> (#[trigger] s[k]) is Some {
        assert(first_vacant(s, j));
    } else {
        let k = choose|k: int| 0 <= k < j && !((#[trigger] s[k]) is Some);
        lemma_first_vacant_exists(s, k);
    }
}

/// A reservation fails only for want of a fitting region or of a vacant slot, and then
/// leaves the table as it is. It succeeds exactly where the request fits in some free
/// region and either a slot is vacant or the request fills the first such region.
pub proof fn lemma_reservation_errors(
    s: Seq<Option<MemoryRegion>>,
    memory_start: usize,
    size: usize,
    align: usize,
)
    ensures
        reservation(s, memory_start, size, align).0 matches Err(e) ==> (e
            == IndexError::NoFittingRegion || e == IndexError::NoIndexAvailable) && reservation(
            s,
            memory_start,
            size,
            align,
        ).1 == s,
        reservation(s, memory_start, size, align).0 is Ok <==> has_fit(
            s,
            memory_start as int,
            wanted(size, align),
            align as int,
        ) && ({
            let whole = s[first_fit(s, memory_start as int, wanted(size, align), align as int)].unwrap();
            !full(s) || pad_for(memory_start + whole.from, align as int) + wanted(size, align)
                == whole.size
        }),
{
}

/// A successful reservation, spelled out: the region that it chose, the padding, the
/// offset that it returns, and the table that it leaves, slot by slot.
pub proof fn lemma_reservation_shape(
    s: Seq<Option<MemoryRegion>>,
    memory_start: usize,
    size: usize,
    align: usize,
    m: int,
)
    requires
        covers(s, m),
        m <= usize::MAX,
        align > 0,
        reservation(s, memory_start, size, align).0 is Ok,
    ensures
        ({
            let want = wanted(size, align);
            let slot = first_fit(s, memory_start as int, want, align as int);
            let whole = s[slot].unwrap();
            let pad = pad_for(memory_start + whole.from, align as int);
            let (r, t) = reservation(s, memory_start, size, align);
            let taken = reserved_region(s, memory_start, size, align);
            &&& is_first_fit(s, slot, memory_start as int, want, align as int)
            &&& is_region(s, slot)
            &&& !whole.used
            &&& 0 <= pad < align
            &&& (memory_start + whole.from + pad) % (align as int) == 0
            &&& 1 <= want
            &&& size <= want
            &&& pad + want <= whole.size
            &&& whole.spec_end() <= m
            &&& r == Ok::<usize, IndexError>((whole.from + pad) as usize)
            &&& r.unwrap() == whole.from + pad
            &&& taken == (MemoryRegion { from: whole.from, size: (pad + want) as usize, used: true })
            &&& taken.size == pad + want
            &&& t.len() == s.len()
            &&& t[slot] == Some(taken)
            &&& pad + want < whole.size ==> {
                &&& first_vacant(s, vacancy(s))
                &&& t[vacancy(s)] == Some(
                    MemoryRegion {
                        from: (whole.from + pad + want) as usize,
                        size: (whole.size - pad - want) as usize,
                        used: false,
                    },
                )
            }
            &&& forall|k: int|
                0 <= k < s.len() && k != slot && !(pad + want < whole.size && k == vacancy(s))
                    ==> #[trigger] t[k] == s[k]
        }),
{
    let want = wanted(size, align);
    lemma_wanted(size, align);
    lemma_first_fit_exists(s, memory_start as int, want, align as int);
    let slot = first_fit(s, memory_start as int, want, align as int);
    assert(is_region(s, slot));
    let whole = s[slot].unwrap();
    lemma_pad_for(memory_start + whole.from, align as int);
    let pad = pad_for(memory_start + whole.from, align as int);
    if pad + want != whole.size {
        let j = choose|j: int| 0 <= j < s.len() && !(#[trigger] s[j] is Some);
        lemma_first_vacant_exists(s, j);
    }
}

/// A reservation leaves the table tiling the pool, with as many slots as before.
pub proof fn lemma_reservation_covers(
    s: Seq<Option<MemoryRegion>>,
    memory_start: usize,
    size: usize,
    align: usize,
    m: int,
)
    requires
        covers(s, m),
        m <= usize::MAX,
        align > 0,
    ensures
        covers(reservation(s, memory_start, size, align).1, m),
        reservation(s, memory_start, size, align).1.len() == s.len(),
{
    if reservation(s, memory_start, size, align).0 is Ok {
        lemma_reservation_shape(s, memory_start, size, align, m);
        let want = wanted(size, align);
        let slot = first_fit(s, memory_start as int, want, align as int);
        let whole = s[slot].unwrap();
        let pad = pad_for(memory_start + whole.from, align as int);
        if pad + want == whole.size {
            lemma_marked_covers(s, slot, true, m);
        } else {
            let cut = split_at(s, slot, (pad + want) as usize, vacancy(s));
            lemma_split_covers(s, slot, (pad + want) as usize, vacancy(s), m);
            assert(is_region(cut, slot));
            lemma_marked_covers(cut, slot, true, m);
        }
    }
}

/// A successful reservation is placed correctly. The address of its offset is a
/// multiple of the alignment. Its bytes lie inside the pool, in the used region that
/// the reservation made, which begins less than one alignment before the offset and
/// ends with the bytes wanted. And that region is the only used region of the table
/// around the bytes wanted.
pub proof fn lemma_reservation_placed(
    s: Seq<Option<MemoryRegion>>,
    memory_start: usize,
    size: usize,
    align: usize,
    m: int,
)
    requires
        covers(s, m),
        m <= usize::MAX,
        align > 0,
        reservation(s, memory_start, size, align).0 is Ok,
    ensures
        ({
            let (r, t) = reservation(s, memory_start, size, align);
            let want = wanted(size, align);
            let slot = first_fit(s, memory_start as int, want, align as int);
            let taken = reserved_region(s, memory_start, size, align);
            &&& (memory_start + r.unwrap()) % (align as int) == 0
            &&& r.unwrap() + size <= r.unwrap() + want <= m
            &&& r.unwrap() < m
            &&& encloses(t, slot, r.unwrap() as int, want)
            &&& encloses(t, slot, r.unwrap() as int, size as int)
            &&& t[slot] == Some(taken)
            &&& taken.spec_contains(r.unwrap() as int)
            &&& r.unwrap() - taken.from < align
            &&& taken.spec_end() == r.unwrap() + want
            &&& is_region(s, slot)
            &&& !s[slot].unwrap().used
            &&& s[slot].unwrap().from == taken.from
            &&& taken.size <= s[slot].unwrap().size
            &&& forall|i: int| #[trigger] encloses(t, i, r.unwrap() as int, want) ==> i == slot
        }),
{
    lemma_reservation_shape(s, memory_start, size, align, m);
    lemma_reservation_covers(s, memory_start, size, align, m);
    let (r, t) = reservation(s, memory_start, size, align);
    let want = wanted(size, align);
    let slot = first_fit(s, memory_start as int, want, align as int);
    assert(is_region(t, slot));
    assert forall|i: int| #[trigger] encloses(t, i, r.unwrap() as int, want) implies i == slot by {
        if i != slot {
            assert(is_region(t, i));
            assert(disjoint(t[i].unwrap(), t[slot].unwrap()));
        }
    }
}

/// A successful reservation keeps clear of what was in use: every region that was used
/// before is still in the table, and shares no byte with the new reservation.
pub proof fn lemma_reservation_apart(
    s: Seq<Option<MemoryRegion>>,
    memory_start: usize,
    size: usize,
    align: usize,
    m: int,
    x: MemoryRegion,
)
    requires
        covers(s, m),
        m <= usize::MAX,
        align > 0,
        reservation(s, memory_start, size, align).0 is Ok,
        has_region(s, x),
        x.used,
    ensures
        has_region(reservation(s, memory_start, size, align).1, x),
        x != reserved_region(s, memory_start, size, align),
        disjoint(x, reserved_region(s, memory_start, size, align)),
        reservation(s, memory_start, size, align).0.unwrap() + size <= x.from || x.spec_end()
            <= reservation(s, memory_start, size, align).0.unwrap(),
{
    lemma_reservation_shape(s, memory_start, size, align, m);
    let (r, t) = reservation(s, memory_start, size, align);
    let slot = first_fit(s, memory_start as int, wanted(size, align), align as int);
    let k = choose|k: int| holds_region(s, k, x);
    assert(is_region(s, k));
    assert(k != slot);
    assert(disjoint(x, s[slot].unwrap()));
    assert(t[k] == s[k]);
    assert(holds_region(t, k, x));
}

/// After a successful reservation the used regions are those that were used before and
/// the one that the reservation made.
pub proof fn lemma_reservation_used(
    s: Seq<Option<MemoryRegion>>,
    memory_start: usize,
    size: usize,
    align: usize,
    m: int,
)
    requires
        covers(s, m),
        m <= usize::MAX,
        align > 0,
        reservation(s, memory_start, size, align).0 is Ok,
    ensures
        forall|x: MemoryRegion|
            x.used ==> (#[trigger] has_region(reservation(s, memory_start, size, align).1, x)
                <==> has_region(s, x) || x == reserved_region(s, memory_start, size, align)),
{
    lemma_reservation_shape(s, memory_start, size, align, m);
    let (r, t) = reservation(s, memory_start, size, align);
    let slot = first_fit(s, memory_start as int, wanted(size, align), align as int);
    let taken = reserved_region(s, memory_start, size, align);
    assert(holds_region(t, slot, taken));
    assert forall|x: MemoryRegion| x.used implies (#[trigger] has_region(t, x) <==> has_region(s, x)
        || x == taken) by {
        if has_region(s, x) {
            lemma_reservation_apart(s, memory_start, size, align, m, x);
        }
        if has_region(t, x) && x != taken {
            let k = choose|k: int| holds_region(t, k, x);
            assert(k != slot);
            assert(t[k] == s[k]);
            assert(holds_region(s, k, x));
        }
    }
}

/// Two reservations that are live together share no byte: what a second successful
/// reservation hands out lies clear of what the first one handed out.
pub proof fn lemma_reservations_apart(
    s: Seq<Option<MemoryRegion>>,
    m: int,
    memory_start: usize,
    size1: usize,
    align1: usize,
    size2: usize,
    align2: usize,
)
    requires
        covers(s, m),
        m <= usize::MAX,
        align1 > 0,
        align2 > 0,
        reservation(s, memory_start, size1, align1).0 is Ok,
        reservation(reservation(s, memory_start, size1, align1).1, memory_start, size2, align2).0 is Ok,
    ensures
        ({
            let (first, t) = reservation(s, memory_start, size1, align1);
            let (second, u) = reservation(t, memory_start, size2, align2);
            &&& first.unwrap() + size1 <= second.unwrap() || second.unwrap() + size2 <= first.unwrap()
            &&& has_region(u, reserved_region(s, memory_start, size1, align1))
            &&& has_region(u, reserved_region(t, memory_start, size2, align2))
            &&& reserved_region(s, memory_start, size1, align1) != reserved_region(
                t,
                memory_start,
                size2,
                align2,
            )
        }),
{
    let (first, t) = reservation(s, memory_start, size1, align1);
    let taken = reserved_region(s, memory_start, size1, align1);
    lemma_reservation_covers(s, memory_start, size1, align1, m);
    lemma_reservation_placed(s, memory_start, size1, align1, m);
    let slot = first_fit(s, memory_start as int, wanted(size1, align1), align1 as int);
    assert(holds_region(t, slot, taken));
    lemma_reservation_apart(t, memory_start, size2, align2, m, taken);
    lemma_reservation_placed(t, memory_start, size2, align2, m);
    lemma_reservation_used(t, memory_start, size2, align2, m);
}

/// A request for the whole of a wholly free pool, at alignment 1, succeeds at offset 0
/// and takes no second slot. Until it is released, every further request is refused
/// with `NoFittingRegion` and leaves the table as it is.
pub proof fn lemma_whole_pool(n: nat, m: usize, memory_start: usize, size: usize, align: usize)
    requires
        n >= 1,
        m >= 1,
        align > 0,
    ensures
        reservation(fresh(n, m), memory_start, m, 1) == (
            Ok::<usize, IndexError>(0),
            marked(fresh(n, m), 0, true),
        ),
        reservation(marked(fresh(n, m), 0, true), memory_start, size, align) == (
            Err::<usize, IndexError>(IndexError::NoFittingRegion),
            marked(fresh(n, m), 0, true),
        ),
{
    let s = fresh(n, m);
    lemma_pad_for(m as int, 1);
    lemma_pad_for(memory_start as int, 1);
    assert(pad_for(m as int, 1) == 0);
    assert(pad_for(memory_start + 0, 1) == 0);
    assert(slot_fits(s, 0, memory_start as int, m as int, 1));
    assert(is_first_fit(s, 0, memory_start as int, m as int, 1));
    lemma_first_fit_exists(s, memory_start as int, m as int, 1);
    let t = marked(s, 0, true);
    let want = wanted(size, align);
    assert forall|i: int| !#[trigger] slot_fits(t, i, memory_start as int, want, align as int) by {}
}

/// Where the request fits in no free region behind the padding that its alignment asks
/// for, it is refused with `NoFittingRegion`; nothing is handed out misaligned.
pub proof fn lemma_no_fit(s: Seq<Option<MemoryRegion>>, memory_start: usize, size: usize, align: usize)
    requires
        align > 0,
        forall|i: int| #[trigger]
            is_region(s, i) && !s[i].unwrap().used ==> pad_for(
                memory_start + s[i].unwrap().from,
                align as int,
            ) + wanted(size, align) > s[i].unwrap().size,
    ensures
        reservation(s, memory_start, size, align) == (
            Err::<usize, IndexError>(IndexError::NoFittingRegion),
            s,
        ),
{
    let want = wanted(size, align);
    assert forall|i: int| !#[trigger] slot_fits(s, i, memory_start as int, want, align as int) by {
        if is_region(s, i) && !s[i].unwrap().used {
        }
    }
}

} // verus!

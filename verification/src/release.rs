//! What a release does to the table, and what follows from it.

use vstd::prelude::*;

use crate::index::MemoryRegion;
use crate::partition::{
    coalesced, covered, covers, first_holding, fresh, has_region, holder, holds, holds_region,
    is_region, lemma_fresh, lemma_marked_covers, lemma_normal_form_unique, marked, normal,
    normal_form_of, same_used, sorted,
};
use crate::placement::{
    lemma_reservation_apart, lemma_reservation_covers, lemma_reservation_placed,
    lemma_reservation_used, lemma_reservations_apart, reservation, reserved_region,
};
use crate::normalize::lemma_normal_form_exists;
use crate::IndexError;

verus! {

/// A release of the pool offset `a` returns `r` and turns the table `s` into `t`.
///
/// Where a region contains the offset, that region is marked free and the table is
/// sorted and coalesced. Where none does, the release fails with `OutOfMemory` and the
/// table stays as it is.
pub open spec fn release(
    s: Seq<Option<MemoryRegion>>,
    a: int,
    r: Result<(), IndexError>,
    t: Seq<Option<MemoryRegion>>,
) -> bool {
    if covered(s, a) {
        r == Ok::<(), IndexError>(()) && normal_form_of(t, marked(s, holder(s, a), false))
    } else {
        r == Err::<(), IndexError>(IndexError::OutOfMemory) && t == s
    }
}

/// The table that a successful release of the pool offset `a` makes of `s`.
pub open spec fn released(s: Seq<Option<MemoryRegion>>, a: int) -> Seq<Option<MemoryRegion>> {
    choose|t: Seq<Option<MemoryRegion>>| release(s, a, Ok::<(), IndexError>(()), t)
}

/// Where some region contains the address, there is a first slot whose region does.
pub proof fn lemma_holder(s: Seq<Option<MemoryRegion>>, a: int)
    requires
        covered(s, a),
    ensures
        first_holding(s, holder(s, a), a),
{
    let j = choose|j: int| holds(s, j, a);
    lemma_holder_up_to(s, a, j);
}

/// Where the region in slot `j` contains the address, there is a first slot whose region
/// does.
proof fn lemma_holder_up_to(s: Seq<Option<MemoryRegion>>, a: int, j: int)
    requires
        holds(s, j, a),
    ensures
        first_holding(s, holder(s, a), a),
    decreases j,
{
    if forall|k: int| 0 <= k < j ==> !#[trigger] holds(s, k, a) {
        assert(first_holding(s, j, a));
    } else {
        let k = choose|k: int| 0 <= k < j && #[trigger] holds(s, k, a);
        lemma_holder_up_to(s, a, k);
    }
}

/// In a table that tiles a pool of `m` bytes, a release succeeds exactly on the offsets
/// below `m`.
pub proof fn lemma_release_succeeds(s: Seq<Option<MemoryRegion>>, m: int, a: int)
    requires
        covers(s, m),
        0 <= a,
    ensures
        covered(s, a) <==> a < m,
{
    if covered(s, a) {
        let j = choose|j: int| holds(s, j, a);
        assert(is_region(s, j));
    }
}

/// A release leaves the table tiling the pool, and leaves it sorted and coalesced where
/// it succeeded: no free region ends where another begins.
pub proof fn lemma_release_covers(
    s: Seq<Option<MemoryRegion>>,
    m: int,
    a: int,
    r: Result<(), IndexError>,
    t: Seq<Option<MemoryRegion>>,
)
    requires
        covers(s, m),
        release(s, a, r, t),
    ensures
        covers(t, m),
        t.len() == s.len(),
        r is Ok ==> sorted(t) && coalesced(t),
{
    if covered(s, a) {
        lemma_holder(s, a);
        lemma_marked_covers(s, holder(s, a), false, m);
    }
}

/// After a successful release the used regions are those that were used before and do
/// not contain the released offset.
pub proof fn lemma_release_used(
    s: Seq<Option<MemoryRegion>>,
    m: int,
    a: int,
    r: Result<(), IndexError>,
    t: Seq<Option<MemoryRegion>>,
)
    requires
        covers(s, m),
        release(s, a, r, t),
        r is Ok,
    ensures
        forall|x: MemoryRegion|
            x.used ==> (#[trigger] has_region(t, x) <==> has_region(s, x) && !x.spec_contains(a)),
{
    lemma_holder(s, a);
    let h = holder(s, a);
    let mid = marked(s, h, false);
    assert forall|x: MemoryRegion| x.used implies (#[trigger] has_region(t, x) <==> has_region(s, x)
        && !x.spec_contains(a)) by {
        assert(has_region(mid, x) <==> has_region(t, x));
        if has_region(mid, x) {
            let k = choose|k: int| holds_region(mid, k, x);
            assert(k != h);
            assert(holds_region(s, k, x));
            assert(is_region(s, k));
            assert(is_region(s, h));
        }
        if has_region(s, x) && !x.spec_contains(a) {
            let k = choose|k: int| holds_region(s, k, x);
            assert(holds_region(mid, k, x));
        }
    }
}

/// A release has one outcome: in a table that tiles a pool, what a successful release
/// leaves is `released`.
pub proof fn lemma_released(
    s: Seq<Option<MemoryRegion>>,
    m: int,
    a: int,
    r: Result<(), IndexError>,
    t: Seq<Option<MemoryRegion>>,
)
    requires
        covers(s, m),
        release(s, a, r, t),
        r is Ok,
    ensures
        t == released(s, a),
        release(s, a, r, released(s, a)),
{
    lemma_holder(s, a);
    let mid = marked(s, holder(s, a), false);
    lemma_marked_covers(s, holder(s, a), false, m);
    let u = released(s, a);
    assert(release(s, a, Ok::<(), IndexError>(()), u));
    crate::partition::lemma_normal_form_of_unique(mid, t, u, m);
}

/// In a table that tiles a pool, the release of an offset of the pool succeeds, and
/// `released` is what it leaves.
pub proof fn lemma_release_exists(s: Seq<Option<MemoryRegion>>, m: int, a: int)
    requires
        covers(s, m),
        m <= usize::MAX,
        0 <= a < m,
    ensures
        release(s, a, Ok::<(), IndexError>(()), released(s, a)),
{
    assert(covered(s, a));
    lemma_holder(s, a);
    let mid = marked(s, holder(s, a), false);
    lemma_marked_covers(s, holder(s, a), false, m);
    let t = lemma_normal_form_exists(mid, m);
    assert(release(s, a, Ok::<(), IndexError>(()), t));
}

/// After a release the used regions are those that were used before and do not contain
/// the released offset: the region of a released value is no longer in use, and every
/// other region in use stays so.
pub proof fn lemma_released_used(s: Seq<Option<MemoryRegion>>, m: int, a: int)
    requires
        covers(s, m),
        m <= usize::MAX,
        0 <= a < m,
    ensures
        released(s, a).len() == s.len(),
        covers(released(s, a), m),
        normal(released(s, a)),
        forall|x: MemoryRegion|
            x.used ==> (#[trigger] has_region(released(s, a), x) <==> has_region(s, x)
                && !x.spec_contains(a)),
{
    let ok = Ok::<(), IndexError>(());
    lemma_release_exists(s, m, a);
    lemma_release_covers(s, m, a, ok, released(s, a));
    lemma_release_used(s, m, a, ok, released(s, a));
}

/// Full reclamation: a table in normal form that tiles the pool and holds no used
/// region is the table of a wholly free pool.
pub proof fn lemma_all_free(s: Seq<Option<MemoryRegion>>, m: usize)
    requires
        covers(s, m as int),
        normal(s),
        s.len() >= 1,
        m >= 1,
        forall|x: MemoryRegion| #[trigger] has_region(s, x) ==> !x.used,
    ensures
        s == fresh(s.len(), m),
{
    let f = fresh(s.len(), m);
    lemma_fresh(s.len(), m);
    assert forall|x: MemoryRegion| x.used implies (#[trigger] has_region(s, x) <==> #[trigger] has_region(
        f,
        x,
    )) by {
        if has_region(f, x) {
            let k = choose|k: int| holds_region(f, k, x);
        }
    }
    lemma_normal_form_unique(s, f, m as int);
}

/// A reservation followed by the release of its offset restores a table in normal
/// form.
pub proof fn lemma_reserve_release(
    s: Seq<Option<MemoryRegion>>,
    m: int,
    memory_start: usize,
    size: usize,
    align: usize,
)
    requires
        covers(s, m),
        m <= usize::MAX,
        normal(s),
        align > 0,
        reservation(s, memory_start, size, align).0 is Ok,
    ensures
        released(
            reservation(s, memory_start, size, align).1,
            reservation(s, memory_start, size, align).0.unwrap() as int,
        ) == s,
{
    let (o, t) = reservation(s, memory_start, size, align);
    let offset = o.unwrap() as int;
    let taken = reserved_region(s, memory_start, size, align);
    lemma_reservation_covers(s, memory_start, size, align, m);
    lemma_reservation_placed(s, memory_start, size, align, m);
    lemma_reservation_used(s, memory_start, size, align, m);
    lemma_released_used(t, m, offset);
    let u = released(t, offset);
    assert(taken.spec_contains(offset));
    assert forall|x: MemoryRegion| x.used implies (#[trigger] has_region(s, x) <==> #[trigger] has_region(
        u,
        x,
    )) by {
        if has_region(s, x) {
            lemma_reservation_apart(s, memory_start, size, align, m, x);
        }
        if has_region(u, x) {
            assert(has_region(t, x));
            assert(x != taken);
        }
    }
    lemma_release_exists(t, m, offset);
    lemma_normal_form_unique(s, u, m);
}

/// Two reservations, followed by the release of the first offset and then of the
/// second, restore a table in normal form.
pub proof fn lemma_reserve_twice_release(
    s: Seq<Option<MemoryRegion>>,
    m: int,
    memory_start: usize,
    size1: usize,
    align1: usize,
    size2: usize,
    align2: usize,
)
    requires
        covers(s, m),
        m <= usize::MAX,
        normal(s),
        align1 > 0,
        align2 > 0,
        reservation(s, memory_start, size1, align1).0 is Ok,
        reservation(reservation(s, memory_start, size1, align1).1, memory_start, size2, align2).0 is Ok,
    ensures
        ({
            let (first, t) = reservation(s, memory_start, size1, align1);
            let (second, u) = reservation(t, memory_start, size2, align2);
            released(released(u, first.unwrap() as int), second.unwrap() as int) == s
        }),
{
    let (first, t) = reservation(s, memory_start, size1, align1);
    let (second, u) = reservation(t, memory_start, size2, align2);
    let a = first.unwrap() as int;
    let c = second.unwrap() as int;
    let r1 = reserved_region(s, memory_start, size1, align1);
    let r2 = reserved_region(t, memory_start, size2, align2);
    let ok = Ok::<(), IndexError>(());
    lemma_reservation_covers(s, memory_start, size1, align1, m);
    lemma_reservation_placed(s, memory_start, size1, align1, m);
    lemma_reservation_used(s, memory_start, size1, align1, m);
    lemma_reservation_covers(t, memory_start, size2, align2, m);
    lemma_reservation_placed(t, memory_start, size2, align2, m);
    lemma_reservation_used(t, memory_start, size2, align2, m);
    lemma_reservations_apart(s, m, memory_start, size1, align1, size2, align2);
    let v = released(u, a);
    lemma_release_exists(u, m, a);
    lemma_release_covers(u, m, a, ok, v);
    lemma_release_used(u, m, a, ok, v);
    let w = released(v, c);
    lemma_release_exists(v, m, c);
    lemma_release_covers(v, m, c, ok, w);
    lemma_release_used(v, m, c, ok, w);
    assert(r1.spec_contains(a));
    assert(r2.spec_contains(c));
    assert forall|x: MemoryRegion| x.used implies (#[trigger] has_region(s, x) <==> #[trigger] has_region(
        w,
        x,
    )) by {
        if has_region(s, x) {
            lemma_reservation_apart(s, memory_start, size1, align1, m, x);
            assert(has_region(t, x));
            lemma_reservation_apart(t, memory_start, size2, align2, m, x);
            assert(has_region(u, x));
            assert(!x.spec_contains(a));
            assert(has_region(v, x));
            assert(!x.spec_contains(c));
        }
        if has_region(w, x) {
            assert(has_region(v, x));
            assert(has_region(u, x));
            assert(x != r2);
            assert(has_region(t, x));
            assert(x != r1);
        }
    }
    lemma_normal_form_unique(s, w, m);
}

} // verus!

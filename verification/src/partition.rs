//! What it means for a table of slots to partition a pool, stated over sequences.
//!
//! A table is a sequence of slots, each holding a region or nothing. The predicates
//! below speak of the table as a whole: that its regions tile `[0, m)`, that they are
//! stored in ascending order, that no two free regions touch. The lemmas relate them.

use vstd::prelude::*;

use crate::index::MemoryRegion;

verus! {

/// Slot `i` of `s` holds a region.
pub open spec fn is_region(s: Seq<Option<MemoryRegion>>, i: int) -> bool {
    0 <= i < s.len() && s[i] is Some
}

/// Slot `i` of `s` holds a region that contains the address `a`.
pub open spec fn holds(s: Seq<Option<MemoryRegion>>, i: int, a: int) -> bool {
    is_region(s, i) && s[i].unwrap().spec_contains(a)
}

/// Some region of `s` contains the address `a`.
pub open spec fn covered(s: Seq<Option<MemoryRegion>>, a: int) -> bool {
    exists|i: int| #[trigger] holds(s, i, a)
}

/// Slot `i` of `s` holds exactly the region `r`.
pub open spec fn holds_region(s: Seq<Option<MemoryRegion>>, i: int, r: MemoryRegion) -> bool {
    0 <= i < s.len() && s[i] == Some(r)
}

/// The region `r` is stored in some slot of `s`.
pub open spec fn has_region(s: Seq<Option<MemoryRegion>>, r: MemoryRegion) -> bool {
    exists|i: int| #[trigger] holds_region(s, i, r)
}

/// Slot `i` of `s`, one of the slots `lo` up to `hi`, holds exactly the region `r`.
pub open spec fn holds_region_in(s: Seq<Option<MemoryRegion>>, lo: int, hi: int, i: int, r: MemoryRegion) -> bool {
    lo <= i < hi && holds_region(s, i, r)
}

/// The region `r` is stored in one of the slots `lo` up to `hi` of `s`.
pub open spec fn has_region_in(s: Seq<Option<MemoryRegion>>, lo: int, hi: int, r: MemoryRegion) -> bool {
    exists|i: int| #[trigger] holds_region_in(s, lo, hi, i, r)
}

/// Slot `i` of `s` is the first that holds no region.
pub open spec fn first_vacant(s: Seq<Option<MemoryRegion>>, i: int) -> bool {
    &&& 0 <= i < s.len()
    &&& s[i] is None
    &&& forall|j: int| 0 <= j < i ==> (#[trigger] s[j]) is Some
}

/// Every slot of `s` holds a region.
pub open spec fn full(s: Seq<Option<MemoryRegion>>) -> bool {
    forall|j: int| 0 <= j < s.len() ==> (#[trigger] s[j]) is Some
}

/// Slot `i` of `s` is the first whose region contains the address `a`.
pub open spec fn first_holding(s: Seq<Option<MemoryRegion>>, i: int, a: int) -> bool {
    holds(s, i, a) && forall|j: int| 0 <= j < i ==> !#[trigger] holds(s, j, a)
}

/// `s` after the region in slot `slot` has been cut at `size`: the slot keeps the left
/// piece, of exactly `size` bytes, and slot `right` takes the remainder. Both pieces keep
/// the used flag of the region.
pub open spec fn split_at(s: Seq<Option<MemoryRegion>>, slot: int, size: usize, right: int) -> Seq<
    Option<MemoryRegion>,
> {
    let r = s[slot].unwrap();
    s.update(slot, Some(MemoryRegion { from: r.from, size: size, used: r.used })).update(
        right,
        Some(
            MemoryRegion {
                from: (r.from + size) as usize,
                size: (r.size - size) as usize,
                used: r.used,
            },
        ),
    )
}

/// `s` with the used flag of the region in slot `slot` set to `used`.
pub open spec fn marked(s: Seq<Option<MemoryRegion>>, slot: int, used: bool) -> Seq<Option<MemoryRegion>> {
    s.update(slot, Some(MemoryRegion { used: used, ..s[slot].unwrap() }))
}

/// The first vacant slot of `s`.
pub open spec fn vacancy(s: Seq<Option<MemoryRegion>>) -> int {
    choose|i: int| first_vacant(s, i)
}

/// The slot of `s` whose region contains the address `a`.
pub open spec fn holder(s: Seq<Option<MemoryRegion>>, a: int) -> int {
    choose|i: int| first_holding(s, i, a)
}

/// The table of a pool of `m` bytes that is wholly free: one free region in slot 0, and
/// every other of the `n` slots vacant.
pub open spec fn fresh(n: nat, m: usize) -> Seq<Option<MemoryRegion>> {
    Seq::new(
        n,
        |i: int|
            if i == 0 {
                Some(MemoryRegion { from: 0, size: m, used: false })
            } else {
                None
            },
    )
}

/// The number of regions that `s` holds.
pub open spec fn region_count(s: Seq<Option<MemoryRegion>>) -> nat
    decreases s.len(),
{
    if s.len() == 0 {
        0
    } else {
        region_count(s.drop_last()) + if s.last() is Some {
            1nat
        } else {
            0nat
        }
    }
}

/// The byte ranges of `a` and `b` have no byte in common.
pub open spec fn disjoint(a: MemoryRegion, b: MemoryRegion) -> bool {
    a.spec_end() <= b.from || b.spec_end() <= a.from
}

/// The regions of `s` tile `[0, m)`: each is non-empty and inside the pool, no two
/// overlap, and every address of the pool lies in one of them.
pub open spec fn covers(s: Seq<Option<MemoryRegion>>, m: int) -> bool {
    &&& 0 <= m
    &&& forall|i: int| #[trigger]
        is_region(s, i) ==> s[i].unwrap().size > 0 && s[i].unwrap().spec_end() <= m
    &&& forall|i: int, j: int|
        #![trigger is_region(s, i), is_region(s, j)]
        is_region(s, i) && is_region(s, j) && i != j ==> disjoint(s[i].unwrap(), s[j].unwrap())
    &&& forall|a: int| 0 <= a < m ==> #[trigger] covered(s, a)
}

/// The order in which slots are stored after sorting: regions by ascending start,
/// and every region before every vacant slot.
pub open spec fn slot_le(a: Option<MemoryRegion>, b: Option<MemoryRegion>) -> bool {
    match (a, b) {
        (Some(x), Some(y)) => x.from <= y.from,
        (Some(_), None) => true,
        (None, Some(_)) => false,
        (None, None) => true,
    }
}

/// The slots of `s` are stored in order: regions first, by ascending start.
pub open spec fn sorted(s: Seq<Option<MemoryRegion>>) -> bool {
    forall|i: int, j: int|
        #![trigger s[i], s[j]]
        0 <= i < j < s.len() ==> slot_le(s[i], s[j])
}

/// No free region of `s` ends where another free region begins.
pub open spec fn coalesced(s: Seq<Option<MemoryRegion>>) -> bool {
    forall|i: int, j: int|
        #![trigger is_region(s, i), is_region(s, j)]
        is_region(s, i) && is_region(s, j) && s[i].unwrap().spec_end() == s[j].unwrap().from
            ==> s[i].unwrap().used || s[j].unwrap().used
}

/// `s` and `t` hold the same used regions.
pub open spec fn same_used(s: Seq<Option<MemoryRegion>>, t: Seq<Option<MemoryRegion>>) -> bool {
    forall|r: MemoryRegion| r.used ==> (#[trigger] has_region(s, r) <==> #[trigger] has_region(t, r))
}

/// The table is in the form that a release leaves it in: sorted and coalesced.
pub open spec fn normal(s: Seq<Option<MemoryRegion>>) -> bool {
    sorted(s) && coalesced(s)
}

/// `t` is what sorting and coalescing makes of `s`: a table of the same length, in
/// normal form, that tiles whatever `s` tiles and keeps exactly the used regions of `s`.
pub open spec fn normal_form_of(t: Seq<Option<MemoryRegion>>, s: Seq<Option<MemoryRegion>>) -> bool {
    &&& t.len() == s.len()
    &&& normal(t)
    &&& same_used(s, t)
    &&& forall|m: int| #[trigger] covers(s, m) ==> covers(t, m)
}

/// `s` with the contents of slots `i` and `j` exchanged.
pub open spec fn swapped(s: Seq<Option<MemoryRegion>>, i: int, j: int) -> Seq<Option<MemoryRegion>> {
    s.update(i, s[j]).update(j, s[i])
}

/// Where slot `k` is found after slots `i` and `j` have been exchanged.
pub open spec fn swap_index(i: int, j: int, k: int) -> int {
    if k == i {
        j
    } else if k == j {
        i
    } else {
        k
    }
}

/// A table tiles at most one pool size.
pub proof fn lemma_covers_unique(s: Seq<Option<MemoryRegion>>, m1: int, m2: int)
    requires
        covers(s, m1),
        covers(s, m2),
    ensures
        m1 == m2,
{
    if m1 < m2 {
        assert(covered(s, m1));
        let i = choose|i: int| holds(s, i, m1);
        assert(is_region(s, i));
    } else if m2 < m1 {
        assert(covered(s, m2));
        let i = choose|i: int| holds(s, i, m2);
        assert(is_region(s, i));
    }
}

/// Exchanging two slots changes neither what the table tiles nor which regions it holds.
pub proof fn lemma_swapped(s: Seq<Option<MemoryRegion>>, i: int, j: int)
    requires
        0 <= i < s.len(),
        0 <= j < s.len(),
    ensures
        forall|m: int| #[trigger] covers(s, m) ==> covers(swapped(s, i, j), m),
        forall|r: MemoryRegion| #[trigger] has_region(s, r) <==> has_region(swapped(s, i, j), r),
{
    let t = swapped(s, i, j);
    assert forall|m: int| #[trigger] covers(s, m) implies covers(t, m) by {
        assert forall|k: int| #[trigger] is_region(t, k) implies t[k].unwrap().size > 0
            && t[k].unwrap().spec_end() <= m by {
            assert(is_region(s, swap_index(i, j, k)));
        }
        assert forall|k: int, l: int|
            #![trigger is_region(t, k), is_region(t, l)]
            is_region(t, k) && is_region(t, l) && k != l implies disjoint(
            t[k].unwrap(),
            t[l].unwrap(),
        ) by {
            assert(is_region(s, swap_index(i, j, k)));
            assert(is_region(s, swap_index(i, j, l)));
        }
        assert forall|a: int| 0 <= a < m implies #[trigger] covered(t, a) by {
            assert(covered(s, a));
            let k = choose|k: int| holds(s, k, a);
            assert(holds(t, swap_index(i, j, k), a));
        }
    }
    assert forall|r: MemoryRegion| #[trigger] has_region(s, r) <==> has_region(t, r) by {
        if has_region(s, r) {
            let k = choose|k: int| holds_region(s, k, r);
            assert(holds_region(t, swap_index(i, j, k), r));
        }
        if has_region(t, r) {
            let k = choose|k: int| holds_region(t, k, r);
            assert(holds_region(s, swap_index(i, j, k), r));
        }
    }
}

/// The region in slot `i + 1` begins where the region in slot `i` ends.
pub open spec fn follows(s: Seq<Option<MemoryRegion>>, i: int) -> bool {
    s[i + 1].unwrap().from == s[i].unwrap().spec_end()
}

/// Slots `lo` up to `hi` hold non-empty regions, each beginning where the one before ends.
pub open spec fn linked(s: Seq<Option<MemoryRegion>>, lo: int, hi: int) -> bool {
    &&& forall|i: int| lo <= i < hi ==> #[trigger] is_region(s, i) && s[i].unwrap().size > 0
    &&& forall|i: int| lo <= i < hi - 1 ==> #[trigger] follows(s, i)
}

/// The first `c` slots of `s` hold regions that walk from `0` to `m` without a gap, and
/// the other slots are vacant.
pub open spec fn chain(s: Seq<Option<MemoryRegion>>, c: int, m: int) -> bool {
    &&& 0 <= c <= s.len()
    &&& linked(s, 0, c)
    &&& forall|i: int| c <= i < s.len() ==> (#[trigger] s[i]) is None
    &&& if c == 0 {
        m == 0
    } else {
        s[0].unwrap().from == 0 && s[c - 1].unwrap().spec_end() == m
    }
}

/// No two free regions stand in neighbouring slots among the first `c`.
pub open spec fn alternating(s: Seq<Option<MemoryRegion>>, c: int) -> bool {
    forall|i: int| 0 <= i < c - 1 ==> #[trigger] s[i].unwrap().used || s[i + 1].unwrap().used
}

/// In a linked run an earlier region ends before a later one begins.
pub proof fn lemma_linked_order(s: Seq<Option<MemoryRegion>>, lo: int, hi: int, i: int, j: int)
    requires
        linked(s, lo, hi),
        lo <= i < j < hi,
    ensures
        s[i].unwrap().spec_end() <= s[j].unwrap().from,
    decreases j - i,
{
    if j == i + 1 {
        assert(follows(s, i));
    } else {
        lemma_linked_order(s, lo, hi, i, j - 1);
        assert(is_region(s, j - 1));
        assert(follows(s, j - 1));
    }
}

/// Every address between the start and the end of a linked run lies in one of its regions.
pub proof fn lemma_linked_locate(s: Seq<Option<MemoryRegion>>, lo: int, hi: int, a: int) -> (k: int)
    requires
        linked(s, lo, hi),
        0 <= lo < hi <= s.len(),
        s[lo].unwrap().from <= a < s[hi - 1].unwrap().spec_end(),
    ensures
        lo <= k < hi,
        holds(s, k, a),
    decreases hi - lo,
{
    assert(is_region(s, hi - 1));
    if s[hi - 1].unwrap().from <= a {
        hi - 1
    } else {
        assert(follows(s, hi - 2));
        lemma_linked_locate(s, lo, hi - 1, a)
    }
}

/// A chain tiles `[0, m)` and is stored in order.
pub proof fn lemma_chain_covers(s: Seq<Option<MemoryRegion>>, c: int, m: int)
    requires
        chain(s, c, m),
    ensures
        covers(s, m),
        sorted(s),
{
    assert forall|i: int| #[trigger] is_region(s, i) implies s[i].unwrap().size > 0
        && s[i].unwrap().spec_end() <= m by {
        if i < c - 1 {
            lemma_linked_order(s, 0, c, i, c - 1);
            assert(is_region(s, c - 1));
        }
    }
    assert forall|i: int, j: int|
        #![trigger is_region(s, i), is_region(s, j)]
        is_region(s, i) && is_region(s, j) && i != j implies disjoint(
        s[i].unwrap(),
        s[j].unwrap(),
    ) by {
        if i < j {
            lemma_linked_order(s, 0, c, i, j);
        } else {
            lemma_linked_order(s, 0, c, j, i);
        }
    }
    assert forall|a: int| 0 <= a < m implies #[trigger] covered(s, a) by {
        let k = lemma_linked_locate(s, 0, c, a);
        assert(holds(s, k, a));
    }
    assert forall|i: int, j: int| #![trigger s[i], s[j]] 0 <= i < j < s.len() implies slot_le(
        s[i],
        s[j],
    ) by {
        if j < c {
            lemma_linked_order(s, 0, c, i, j);
            assert(is_region(s, i));
            assert(is_region(s, j));
        } else if i < c {
            assert(is_region(s, i));
        }
    }
}

/// A chain in which no two neighbouring slots are both free is coalesced.
pub proof fn lemma_chain_coalesced(s: Seq<Option<MemoryRegion>>, c: int, m: int)
    requires
        chain(s, c, m),
        alternating(s, c),
    ensures
        coalesced(s),
{
    assert forall|i: int, j: int|
        #![trigger is_region(s, i), is_region(s, j)]
        is_region(s, i) && is_region(s, j) && s[i].unwrap().spec_end() == s[j].unwrap().from implies s[i].unwrap().used
        || s[j].unwrap().used by {
        if j < i {
            lemma_linked_order(s, 0, c, j, i);
        } else if j > i + 1 {
            lemma_linked_order(s, 0, c, i, i + 1);
            lemma_linked_order(s, 0, c, i + 1, j);
            assert(is_region(s, i + 1));
        } else if j == i {
        } else {
            assert(s[i].unwrap().used || s[i + 1].unwrap().used);
        }
    }
}

/// In a sorted table the regions come first: there is a count `c` such that exactly the
/// first `c` slots hold regions.
pub proof fn lemma_sorted_count(s: Seq<Option<MemoryRegion>>) -> (c: int)
    requires
        sorted(s),
    ensures
        0 <= c <= s.len(),
        forall|i: int| 0 <= i < c ==> (#[trigger] s[i]) is Some,
        forall|i: int| c <= i < s.len() ==> (#[trigger] s[i]) is None,
    decreases s.len(),
{
    if s.len() == 0 {
        0
    } else if s.last() is Some {
        assert forall|i: int| 0 <= i < s.len() implies (#[trigger] s[i]) is Some by {
            if i < s.len() - 1 {
                assert(slot_le(s[i], s[s.len() - 1]));
            }
        }
        s.len() as int
    } else {
        let t = s.drop_last();
        assert forall|i: int, j: int| #![trigger t[i], t[j]] 0 <= i < j < t.len() implies slot_le(
            t[i],
            t[j],
        ) by {
            assert(slot_le(s[i], s[j]));
        }
        let c = lemma_sorted_count(t);
        assert forall|i: int| 0 <= i < c implies (#[trigger] s[i]) is Some by {
            assert(t[i] is Some);
        }
        assert forall|i: int| c <= i < s.len() implies (#[trigger] s[i]) is None by {
            if i < s.len() - 1 {
                assert(t[i] is None);
            }
        }
        c
    }
}

/// A sorted table that tiles `[0, m)` is a chain from `0` to `m`.
pub proof fn lemma_sorted_covers_chain(s: Seq<Option<MemoryRegion>>, m: int) -> (c: int)
    requires
        sorted(s),
        covers(s, m),
    ensures
        chain(s, c, m),
{
    let c = lemma_sorted_count(s);
    assert forall|i: int| 0 <= i < c implies #[trigger] is_region(s, i) && s[i].unwrap().size > 0 by {
        assert(s[i] is Some);
    }
    assert forall|i: int| 0 <= i < c - 1 implies #[trigger] follows(s, i) by {
        assert(s[i] is Some);
        assert(s[i + 1] is Some);
        assert(is_region(s, i));
        assert(is_region(s, i + 1));
        assert(slot_le(s[i], s[i + 1]));
        let a = s[i].unwrap().spec_end();
        if a < s[i + 1].unwrap().from {
            assert(covered(s, a));
            let k = choose|k: int| holds(s, k, a);
            assert(is_region(s, k));
            if k < i {
                assert(slot_le(s[k], s[i]));
            } else if k > i + 1 {
                assert(slot_le(s[i + 1], s[k]));
            }
        }
    }
    if c == 0 {
        if m > 0 {
            assert(covered(s, 0));
            let k = choose|k: int| holds(s, k, 0);
            assert(s[k] is Some);
        }
    } else {
        assert(s[0] is Some);
        assert(is_region(s, 0));
        assert(s[c - 1] is Some);
        assert(is_region(s, c - 1));
        assert(covered(s, 0));
        let k = choose|k: int| holds(s, k, 0);
        if k > 0 {
            assert(slot_le(s[0], s[k]));
        }
        let a = s[c - 1].unwrap().spec_end();
        if a < m {
            assert(covered(s, a));
            let k2 = choose|k2: int| holds(s, k2, a);
            assert(is_region(s, k2));
            if k2 < c - 1 {
                assert(slot_le(s[k2], s[c - 1]));
            } else if k2 >= c {
                assert(s[k2] is None);
            }
        }
    }
    c
}

/// In a table that tiles a pool, two slots that hold regions with the same start are
/// one slot.
pub proof fn lemma_covers_distinct(s: Seq<Option<MemoryRegion>>, m: int, i: int, j: int)
    requires
        covers(s, m),
        is_region(s, i),
        is_region(s, j),
        s[i].unwrap().from == s[j].unwrap().from,
    ensures
        i == j,
{
}

/// Two tables in normal form that tile the same pool and hold the same used regions
/// agree on their first `k` slots.
proof fn lemma_normal_prefix(
    s: Seq<Option<MemoryRegion>>,
    t: Seq<Option<MemoryRegion>>,
    m: int,
    cs: int,
    ct: int,
    k: int,
)
    requires
        s.len() == t.len(),
        covers(s, m),
        covers(t, m),
        normal(s),
        normal(t),
        same_used(s, t),
        chain(s, cs, m),
        chain(t, ct, m),
        0 <= k <= s.len(),
    ensures
        forall|i: int| 0 <= i < k ==> s[i] == t[i],
    decreases k,
{
    if k > 0 {
        lemma_normal_prefix(s, t, m, cs, ct, k - 1);
        let i = k - 1;
        if i > 0 {
            assert(s[i - 1] == t[i - 1]);
        }
        if i < cs {
            assert(is_region(s, i));
        }
        if i < ct {
            assert(is_region(t, i));
        }
        if 0 < i < cs {
            assert(follows(s, i - 1));
            assert(is_region(s, i - 1));
        }
        if 0 < i < ct {
            assert(follows(t, i - 1));
            assert(is_region(t, i - 1));
        }
        if 0 < i && i - 1 < cs {
            assert(is_region(s, i - 1));
        }
        if 0 < i && i - 1 < ct {
            assert(is_region(t, i - 1));
        }
        if i < cs && i < ct {
            let rs = s[i].unwrap();
            let rt = t[i].unwrap();
            assert(rs.from == rt.from);
            if rs.used {
                assert(holds_region(s, i, rs));
                assert(has_region(s, rs));
                assert(has_region(t, rs));
                let j = choose|j: int| holds_region(t, j, rs);
                assert(is_region(t, j));
                lemma_covers_distinct(t, m, i, j);
            } else if rt.used {
                assert(holds_region(t, i, rt));
                assert(has_region(t, rt));
                assert(has_region(s, rt));
                let j = choose|j: int| holds_region(s, j, rt);
                assert(is_region(s, j));
                lemma_covers_distinct(s, m, i, j);
            } else {
                lemma_normal_overhang(s, t, m, cs, i);
                lemma_normal_overhang(t, s, m, ct, i);
            }
        } else if i < cs {
            assert(s[i] is Some);
            assert(t[i] is None);
            assert(false);
        } else if i < ct {
            assert(t[i] is Some);
            assert(s[i] is None);
            assert(false);
        } else {
            assert(s[i] is None);
            assert(t[i] is None);
        }
    }
}

/// In two tables as above, a free region of one is at least as long as the free region
/// that the other holds in the same slot and from the same start.
proof fn lemma_normal_overhang(
    s: Seq<Option<MemoryRegion>>,
    t: Seq<Option<MemoryRegion>>,
    m: int,
    cs: int,
    i: int,
)
    requires
        s.len() == t.len(),
        covers(s, m),
        covers(t, m),
        normal(s),
        same_used(s, t) || same_used(t, s),
        chain(s, cs, m),
        0 <= i < cs,
        is_region(t, i),
        s[i].unwrap().from == t[i].unwrap().from,
        !s[i].unwrap().used,
        !t[i].unwrap().used,
    ensures
        s[i].unwrap().size >= t[i].unwrap().size,
{
    if s[i].unwrap().size < t[i].unwrap().size {
        assert(is_region(s, i));
        assert(is_region(s, cs - 1));
        assert(i + 1 < cs);
        assert(follows(s, i));
        assert(is_region(s, i + 1));
        let u = s[i + 1].unwrap();
        assert(u.used);
        assert(holds_region(s, i + 1, u));
        assert(has_region(s, u));
        assert(has_region(t, u));
        let j = choose|j: int| holds_region(t, j, u);
        assert(is_region(t, j));
        if j != i {
            assert(disjoint(t[i].unwrap(), t[j].unwrap()));
        }
    }
}

/// The normal form is unique: two tables in normal form that tile the same pool and
/// hold the same used regions are the same table.
pub proof fn lemma_normal_form_unique(s: Seq<Option<MemoryRegion>>, t: Seq<Option<MemoryRegion>>, m: int)
    requires
        s.len() == t.len(),
        covers(s, m),
        covers(t, m),
        normal(s),
        normal(t),
        same_used(s, t),
    ensures
        s == t,
{
    let cs = lemma_sorted_covers_chain(s, m);
    let ct = lemma_sorted_covers_chain(t, m);
    lemma_normal_prefix(s, t, m, cs, ct, s.len() as int);
    assert(s =~= t);
}

/// Sorting and coalescing has one outcome: any two normal forms of a table that tiles a
/// pool are equal.
pub proof fn lemma_normal_form_of_unique(
    s: Seq<Option<MemoryRegion>>,
    t1: Seq<Option<MemoryRegion>>,
    t2: Seq<Option<MemoryRegion>>,
    m: int,
)
    requires
        covers(s, m),
        normal_form_of(t1, s),
        normal_form_of(t2, s),
    ensures
        t1 == t2,
{
    assert forall|r: MemoryRegion| r.used implies (#[trigger] has_region(t1, r) <==> #[trigger] has_region(
        t2,
        r,
    )) by {
        assert(has_region(s, r) <==> has_region(t1, r));
        assert(has_region(s, r) <==> has_region(t2, r));
    }
    lemma_normal_form_unique(t1, t2, m);
}

/// Setting the used flag of a region leaves the tiling as it is.
pub proof fn lemma_marked_covers(s: Seq<Option<MemoryRegion>>, slot: int, used: bool, m: int)
    requires
        covers(s, m),
        is_region(s, slot),
    ensures
        covers(marked(s, slot, used), m),
{
    let t = marked(s, slot, used);
    assert forall|i: int| #[trigger] is_region(t, i) implies t[i].unwrap().size > 0
        && t[i].unwrap().spec_end() <= m by {
        assert(is_region(s, i));
    }
    assert forall|i: int, j: int|
        #![trigger is_region(t, i), is_region(t, j)]
        is_region(t, i) && is_region(t, j) && i != j implies disjoint(
        t[i].unwrap(),
        t[j].unwrap(),
    ) by {
        assert(is_region(s, i));
        assert(is_region(s, j));
    }
    assert forall|a: int| 0 <= a < m implies #[trigger] covered(t, a) by {
        assert(covered(s, a));
        let k = choose|k: int| holds(s, k, a);
        assert(holds(t, k, a));
    }
}

/// Cutting a region in two non-empty pieces leaves the tiling as it is.
pub proof fn lemma_split_covers(s: Seq<Option<MemoryRegion>>, slot: int, size: usize, right: int, m: int)
    requires
        covers(s, m),
        is_region(s, slot),
        0 < size < s[slot].unwrap().size,
        0 <= right < s.len(),
        s[right] is None,
        m <= usize::MAX,
    ensures
        covers(split_at(s, slot, size, right), m),
{
    let t = split_at(s, slot, size, right);
    let whole = s[slot].unwrap();
    assert forall|i: int| #[trigger] is_region(t, i) implies t[i].unwrap().size > 0
        && t[i].unwrap().spec_end() <= m by {
        if i != right {
            assert(is_region(s, i));
        }
    }
    assert forall|i: int, j: int|
        #![trigger is_region(t, i), is_region(t, j)]
        is_region(t, i) && is_region(t, j) && i != j implies disjoint(
        t[i].unwrap(),
        t[j].unwrap(),
    ) by {
        if i != right {
            assert(is_region(s, i));
        }
        if j != right {
            assert(is_region(s, j));
        }
    }
    assert forall|a: int| 0 <= a < m implies #[trigger] covered(t, a) by {
        assert(covered(s, a));
        let k = choose|k: int| holds(s, k, a);
        if k == slot {
            if a < whole.from + size {
                assert(holds(t, slot, a));
            } else {
                assert(holds(t, right, a));
            }
        } else {
            assert(holds(t, k, a));
        }
    }
}

/// The table of a wholly free pool tiles the pool and is in normal form.
pub proof fn lemma_fresh(n: nat, m: usize)
    requires
        n >= 1,
        m >= 1,
    ensures
        covers(fresh(n, m), m as int),
        normal(fresh(n, m)),
{
    let s = fresh(n, m);
    assert forall|a: int| 0 <= a < m implies #[trigger] covered(s, a) by {
        assert(holds(s, 0, a));
    }
}

/// A table never holds more regions than it has slots, and holds as many exactly when
/// it is full.
pub proof fn lemma_region_count(s: Seq<Option<MemoryRegion>>)
    ensures
        region_count(s) <= s.len(),
        region_count(s) == s.len() <==> full(s),
    decreases s.len(),
{
    if s.len() > 0 {
        let t = s.drop_last();
        lemma_region_count(t);
        if full(s) {
            assert forall|j: int| 0 <= j < t.len() implies (#[trigger] t[j]) is Some by {
                assert(s[j] is Some);
            }
            assert(s[s.len() - 1] is Some);
        }
        if region_count(s) == s.len() {
            assert forall|j: int| 0 <= j < s.len() implies (#[trigger] s[j]) is Some by {
                if j < t.len() {
                    assert(t[j] is Some);
                }
            }
        }
    }
}

/// One step of the coalescing walk over a sorted table `src`. The walk has written
/// `write` regions into `before` and read the slots up to `start`; it now reads on to
/// `read` and writes the region `w` into slot `write`, which gives `now`. Where `w` is
/// used, it is the one region read; where it is free, all the regions read were free.
/// Then the regions written are linked as before, and the used regions of `src` are
/// still those written together with those yet to be read.
pub proof fn lemma_emitted(
    before: Seq<Option<MemoryRegion>>,
    now: Seq<Option<MemoryRegion>>,
    src: Seq<Option<MemoryRegion>>,
    write: int,
    start: int,
    read: int,
    c: int,
    w: MemoryRegion,
)
    requires
        0 <= write <= start < read <= c <= src.len(),
        before.len() == src.len(),
        now == before.update(write, Some(w)),
        linked(before, 0, write),
        w.size > 0,
        write > 0 ==> w.from == before[write - 1].unwrap().spec_end(),
        if w.used {
            read == start + 1 && src[start] == Some(w)
        } else {
            forall|k: int| start <= k < read ==> !(#[trigger] src[k]).unwrap().used
        },
        forall|x: MemoryRegion|
            x.used ==> (#[trigger] has_region(src, x) <==> has_region_in(before, 0, write, x)
                || has_region_in(src, start, c, x)),
    ensures
        linked(now, 0, write + 1),
        forall|x: MemoryRegion|
            x.used ==> (#[trigger] has_region(src, x) <==> has_region_in(now, 0, write + 1, x)
                || has_region_in(src, read, c, x)),
{
    let grown = write + 1;
    assert forall|i: int| 0 <= i < grown implies #[trigger] is_region(now, i) && now[i].unwrap().size
        > 0 by {
        if i < write {
            assert(is_region(before, i));
        }
    }
    assert forall|i: int| 0 <= i < grown - 1 implies #[trigger] follows(now, i) by {
        if i < write - 1 {
            assert(follows(before, i));
        }
    }
    assert forall|x: MemoryRegion| x.used implies (#[trigger] has_region(src, x) <==> has_region_in(
        now,
        0,
        grown,
        x,
    ) || has_region_in(src, read, c, x)) by {
        if has_region_in(before, 0, write, x) {
            let k = choose|k: int| holds_region_in(before, 0, write, k, x);
            assert(holds_region_in(now, 0, grown, k, x));
        }
        if has_region_in(src, start, c, x) {
            let k = choose|k: int| holds_region_in(src, start, c, k, x);
            if k < read {
                assert(!src[k].unwrap().used || w.used);
                assert(holds_region_in(now, 0, grown, write, x));
            } else {
                assert(holds_region_in(src, read, c, k, x));
            }
        }
        if has_region_in(now, 0, grown, x) {
            let k = choose|k: int| holds_region_in(now, 0, grown, k, x);
            if k == write {
                assert(holds_region_in(src, start, c, start, x));
            } else {
                assert(holds_region_in(before, 0, write, k, x));
            }
        }
        if has_region_in(src, read, c, x) {
            let k = choose|k: int| holds_region_in(src, read, c, k, x);
            assert(holds_region_in(src, start, c, k, x));
        }
    }
}

} // verus!

//! Every table that tiles a pool has a normal form.
//!
//! The proof builds one: it brings the slots into order by exchanging neighbours, and
//! then merges touching free regions two at a time.

use vstd::prelude::*;

use crate::index::MemoryRegion;
use crate::partition::{
    alternating, chain, covers, follows, has_region, holds_region, is_region, lemma_chain_coalesced,
    lemma_chain_covers, lemma_covers_unique, lemma_sorted_covers_chain, lemma_swapped,
    normal_form_of, same_used, slot_le, sorted, swapped,
};

verus! {

/// `t` holds the regions of `s` in another order: it has as many slots, tiles what `s`
/// tiles, and holds the same regions.
pub open spec fn rearranged(s: Seq<Option<MemoryRegion>>, t: Seq<Option<MemoryRegion>>) -> bool {
    &&& t.len() == s.len()
    &&& forall|m: int| #[trigger] covers(s, m) ==> covers(t, m)
    &&& forall|r: MemoryRegion| #[trigger] has_region(s, r) <==> has_region(t, r)
}

/// The first `k` slots of `s` are in order.
pub open spec fn sorted_up_to(s: Seq<Option<MemoryRegion>>, k: int) -> bool {
    forall|a: int, b: int| #![trigger s[a], s[b]] 0 <= a < b < k ==> slot_le(s[a], s[b])
}

/// Lets the slot at `j` sink to its place among the slots before it, which are in order.
proof fn lemma_sink(t: Seq<Option<MemoryRegion>>, i: int, j: int) -> (u: Seq<Option<MemoryRegion>>)
    requires
        0 <= j <= i < t.len(),
        forall|a: int, b: int|
            #![trigger t[a], t[b]]
            0 <= a < b <= i && a != j && b != j ==> slot_le(t[a], t[b]),
        forall|b: int| j < b <= i ==> slot_le(t[j], #[trigger] t[b]),
    ensures
        rearranged(t, u),
        sorted_up_to(u, i + 1),
    decreases j,
{
    if j > 0 && !slot_le(t[j - 1], t[j]) {
        let t1 = swapped(t, j, j - 1);
        lemma_swapped(t, j, j - 1);
        assert forall|a: int, b: int|
            #![trigger t1[a], t1[b]]
            0 <= a < b <= i && a != j - 1 && b != j - 1 implies slot_le(t1[a], t1[b]) by {
            if b == j {
                assert(slot_le(t[a], t[j - 1]));
            } else if a == j {
                assert(slot_le(t[j - 1], t[b]));
            } else {
                assert(slot_le(t[a], t[b]));
            }
        }
        assert forall|b: int| j - 1 < b <= i implies slot_le(t1[j - 1], #[trigger] t1[b]) by {
            if b > j {
                assert(slot_le(t[j], t[b]));
            }
        }
        let u = lemma_sink(t1, i, j - 1);
        assert forall|m: int| #[trigger] covers(t, m) implies covers(u, m) by {
            assert(covers(t1, m));
        }
        assert forall|r: MemoryRegion| #[trigger] has_region(t, r) <==> has_region(u, r) by {
            assert(has_region(t, r) <==> has_region(t1, r));
            assert(has_region(t1, r) <==> has_region(u, r));
        }
        u
    } else {
        assert forall|a: int, b: int| #![trigger t[a], t[b]] 0 <= a < b < i + 1 implies slot_le(
            t[a],
            t[b],
        ) by {
            if b == j && j > 0 && a != j - 1 {
                assert(slot_le(t[a], t[j - 1]));
            }
        }
        t
    }
}

/// Brings the first `k` slots into order.
proof fn lemma_sort_up_to(s: Seq<Option<MemoryRegion>>, k: int) -> (t: Seq<Option<MemoryRegion>>)
    requires
        0 <= k <= s.len(),
    ensures
        rearranged(s, t),
        sorted_up_to(t, k),
    decreases k,
{
    if k <= 1 {
        s
    } else {
        let t0 = lemma_sort_up_to(s, k - 1);
        let t = lemma_sink(t0, k - 1, k - 1);
        assert forall|m: int| #[trigger] covers(s, m) implies covers(t, m) by {
            assert(covers(t0, m));
        }
        assert forall|r: MemoryRegion| #[trigger] has_region(s, r) <==> has_region(t, r) by {
            assert(has_region(s, r) <==> has_region(t0, r));
            assert(has_region(t0, r) <==> has_region(t, r));
        }
        t
    }
}

/// `t` with the free regions in slots `i` and `i + 1` merged into one in slot `i`, the
/// slots behind them moved up by one, and the last slot vacated.
pub open spec fn merged_at(t: Seq<Option<MemoryRegion>>, i: int) -> Seq<Option<MemoryRegion>> {
    Seq::new(
        t.len(),
        |k: int|
            if k < i {
                t[k]
            } else if k == i {
                Some(
                    MemoryRegion {
                        from: t[i].unwrap().from,
                        size: (t[i].unwrap().size + t[i + 1].unwrap().size) as usize,
                        used: false,
                    },
                )
            } else if k + 1 < t.len() {
                t[k + 1]
            } else {
                None
            },
    )
}

/// Merging two neighbouring free regions of a chain leaves a chain, one region
/// shorter, with the same used regions.
proof fn lemma_merged_at(t: Seq<Option<MemoryRegion>>, c: int, m: int, i: int)
    requires
        chain(t, c, m),
        m <= usize::MAX,
        0 <= i < c - 1,
        !t[i].unwrap().used,
        !t[i + 1].unwrap().used,
    ensures
        chain(merged_at(t, i), c - 1, m),
        same_used(t, merged_at(t, i)),
{
    let u = merged_at(t, i);
    assert(is_region(t, i));
    assert(is_region(t, i + 1));
    assert(follows(t, i));
    lemma_chain_covers(t, c, m);
    assert forall|k: int| 0 <= k < c - 1 implies #[trigger] is_region(u, k) && u[k].unwrap().size > 0 by {
        if k < i {
            assert(is_region(t, k));
        } else if k > i {
            assert(is_region(t, k + 1));
        }
    }
    assert forall|k: int| 0 <= k < c - 2 implies #[trigger] follows(u, k) by {
        if k + 1 < i {
            assert(follows(t, k));
        } else if k + 1 == i {
            assert(follows(t, k));
        } else if k == i {
            assert(follows(t, i + 1));
        } else {
            assert(follows(t, k + 1));
        }
    }
    assert forall|k: int| c - 1 <= k < u.len() implies (#[trigger] u[k]) is None by {
        if k + 1 < t.len() {
            assert(t[k + 1] is None);
        }
    }
    if i + 1 == c - 1 {
        assert(u[c - 2] == u[i]);
    } else {
        assert(u[c - 2] == t[c - 1]);
    }
    assert forall|x: MemoryRegion| x.used implies (#[trigger] has_region(t, x) <==> #[trigger] has_region(
        u,
        x,
    )) by {
        if has_region(t, x) {
            let k = choose|k: int| holds_region(t, k, x);
            if k < i {
                assert(holds_region(u, k, x));
            } else {
                assert(k > i + 1);
                assert(holds_region(u, k - 1, x));
            }
        }
        if has_region(u, x) {
            let k = choose|k: int| holds_region(u, k, x);
            if k < i {
                assert(holds_region(t, k, x));
            } else {
                assert(k > i);
                assert(holds_region(t, k + 1, x));
            }
        }
    }
}

/// Merges touching free regions of a chain until none are left.
proof fn lemma_coalesce(t: Seq<Option<MemoryRegion>>, c: int, m: int) -> (r: (
    Seq<Option<MemoryRegion>>,
    int,
))
    requires
        chain(t, c, m),
        m <= usize::MAX,
    ensures
        r.0.len() == t.len(),
        chain(r.0, r.1, m),
        alternating(r.0, r.1),
        same_used(t, r.0),
    decreases c,
{
    if exists|i: int| 0 <= i < c - 1 && !(#[trigger] t[i]).unwrap().used && !t[i + 1].unwrap().used {
        let i = choose|i: int| 0 <= i < c - 1 && !(#[trigger] t[i]).unwrap().used && !t[i
            + 1].unwrap().used;
        let t1 = merged_at(t, i);
        lemma_merged_at(t, c, m, i);
        let r = lemma_coalesce(t1, c - 1, m);
        assert forall|x: MemoryRegion| x.used implies (#[trigger] has_region(t, x) <==> #[trigger] has_region(
            r.0,
            x,
        )) by {
            assert(has_region(t, x) <==> has_region(t1, x));
            assert(has_region(t1, x) <==> has_region(r.0, x));
        }
        r
    } else {
        assert forall|i: int| 0 <= i < c - 1 implies #[trigger] t[i].unwrap().used || t[i
            + 1].unwrap().used by {
            if !t[i].unwrap().used && !t[i + 1].unwrap().used {
                assert(!(t[i]).unwrap().used && !t[i + 1].unwrap().used);
            }
        }
        (t, c)
    }
}

/// A table that tiles a pool has a normal form.
pub proof fn lemma_normal_form_exists(s: Seq<Option<MemoryRegion>>, m: int) -> (t: Seq<
    Option<MemoryRegion>,
>)
    requires
        covers(s, m),
        m <= usize::MAX,
    ensures
        normal_form_of(t, s),
{
    let t0 = lemma_sort_up_to(s, s.len() as int);
    assert(sorted(t0));
    assert(covers(t0, m));
    let c = lemma_sorted_covers_chain(t0, m);
    let r = lemma_coalesce(t0, c, m);
    let t = r.0;
    lemma_chain_covers(t, r.1, m);
    lemma_chain_coalesced(t, r.1, m);
    assert forall|x: MemoryRegion| x.used implies (#[trigger] has_region(s, x) <==> #[trigger] has_region(
        t,
        x,
    )) by {
        assert(has_region(s, x) <==> has_region(t0, x));
        assert(has_region(t0, x) <==> has_region(t, x));
    }
    assert forall|m2: int| #[trigger] covers(s, m2) implies covers(t, m2) by {
        lemma_covers_unique(s, m, m2);
    }
    t
}

} // verus!

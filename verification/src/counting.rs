//! The counters of a control block follow the handles: what a history of events makes of
//! a control block, and how many handles that history leaves.

use vstd::prelude::*;

use crate::rc::{after, Event, RcBox, ValueRef};

verus! {

/// The control block after the events of `history`, in order.
pub open spec fn run(b: RcBox, history: Seq<Event>) -> RcBox
    decreases history.len(),
{
    if history.len() == 0 {
        b
    } else {
        after(run(b, history.drop_last()), history.last())
    }
}

/// The number of strong handles that exist after `history`, where one existed before
/// it: a clone and a successful upgrade make one, a drop takes one away.
pub open spec fn strong_handles(b: RcBox, history: Seq<Event>) -> int
    decreases history.len(),
{
    if history.len() == 0 {
        1
    } else {
        let before = strong_handles(b, history.drop_last());
        match history.last() {
            Event::Clone => before + 1,
            Event::Upgrade => if run(b, history.drop_last()).strong > 0 {
                before + 1
            } else {
                before
            },
            Event::DropStrong => before - 1,
            _ => before,
        }
    }
}

/// The number of weak handles that exist after `history`, where none existed before
/// it: a downgrade makes one, a drop takes one away.
pub open spec fn weak_handles(history: Seq<Event>) -> int
    decreases history.len(),
{
    if history.len() == 0 {
        0
    } else {
        let before = weak_handles(history.drop_last());
        match history.last() {
            Event::Downgrade => before + 1,
            Event::DropWeak => before - 1,
            _ => before,
        }
    }
}

/// Every event of `history` happens to a handle that exists: a clone, a downgrade and
/// the drop of a strong handle need a strong handle, an upgrade and the drop of a weak
/// handle need a weak one. And no count passes what a counter can hold.
pub open spec fn permitted(b: RcBox, history: Seq<Event>) -> bool
    decreases history.len(),
{
    history.len() == 0 || {
        &&& permitted(b, history.drop_last())
        &&& match history.last() {
            Event::Clone | Event::Downgrade | Event::DropStrong => strong_handles(
                b,
                history.drop_last(),
            ) >= 1,
            Event::Upgrade | Event::DropWeak => weak_handles(history.drop_last()) >= 1,
        }
        &&& strong_handles(b, history) <= usize::MAX
        &&& weak_handles(history) <= usize::MAX
    }
}

/// The counters are conserved: after any permitted history of a control block that
/// began with one strong handle and a living value, the strong counter is the number of
/// strong handles, the weak counter is the number of weak handles, and the value lives,
/// where it was stored, exactly while the strong counter is above zero.
pub proof fn lemma_counters_follow_handles(v: ValueRef, history: Seq<Event>)
    requires
        permitted(RcBox { val: Some(v), strong: 1, weak: 0 }, history),
    ensures
        ({
            let first = RcBox { val: Some(v), strong: 1, weak: 0 };
            let b = run(first, history);
            &&& b.strong == strong_handles(first, history)
            &&& b.weak == weak_handles(history)
            &&& b.val is Some <==> b.strong > 0
            &&& b.val is Some ==> b.val == Some(v)
        }),
    decreases history.len(),
{
    if history.len() > 0 {
        lemma_counters_follow_handles(v, history.drop_last());
    }
}

/// While a strong handle lives, a weak handle made from it upgrades to a strong handle
/// of the same value: the two events leave one more handle of each kind and the value
/// where it was.
pub proof fn lemma_upgrade_of_downgrade(b: RcBox)
    requires
        1 <= b.strong < usize::MAX,
        b.weak < usize::MAX,
    ensures
        after(after(b, Event::Downgrade), Event::Upgrade) == (RcBox {
            val: b.val,
            strong: (b.strong + 1) as usize,
            weak: (b.weak + 1) as usize,
        }),
{
}

/// Once the last strong handle is gone, an upgrade changes nothing: there is no value
/// to hand out.
pub proof fn lemma_upgrade_of_dead(b: RcBox)
    requires
        b.strong == 1,
    ensures
        after(b, Event::DropStrong).strong == 0,
        after(b, Event::DropStrong).val is None,
        after(after(b, Event::DropStrong), Event::Upgrade) == after(b, Event::DropStrong),
{
}

} // verus!

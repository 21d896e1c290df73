//! Shared ownership of a value in the pool: strong and weak handles to a control block
//! that is itself stored in the pool.

use vstd::bytes::{
    lemma_auto_spec_u64_to_from_le_bytes, spec_u64_from_le_bytes, spec_u64_to_le_bytes,
    u64_from_le_bytes, u64_to_le_bytes,
};
use vstd::prelude::*;
use vstd::slice::slice_subrange;

use crate::allocator::{stored, IndexAllocator};
use crate::placement::reservation;
use crate::release::{lemma_released, release, released};
use crate::IndexError;

verus! {

/// The number of bytes that a control block takes in the pool: five words of eight bytes.
pub const BLOCK_SIZE: usize = 40;

/// The alignment at which a control block is stored.
pub const BLOCK_ALIGN: usize = 8;

/// Where a value lies in the pool.
#[derive(Debug, Clone, Copy, PartialEq, Eq, Structural)]
pub struct ValueRef {
    /// The offset of the first byte of the value.
    pub at: usize,
    /// The number of bytes of the value.
    pub len: usize,
}

/// The control block of a shared value: where the value lies, while it lives, and how
/// many strong and weak handles there are.
#[derive(Debug, Clone, Copy, PartialEq, Eq, Structural)]
pub struct RcBox {
    /// Where the value lies; `None` once it was released.
    pub val: Option<ValueRef>,
    /// The number of strong handles.
    pub strong: usize,
    /// The number of weak handles.
    pub weak: usize,
}

/// The word that stands at position `k` of a stored control block.
pub open spec fn word(b: RcBox, k: int) -> u64 {
    if k == 0 {
        if b.val is Some {
            1
        } else {
            0
        }
    } else if k == 1 {
        if b.val is Some {
            b.val.unwrap().at as u64
        } else {
            0
        }
    } else if k == 2 {
        if b.val is Some {
            b.val.unwrap().len as u64
        } else {
            0
        }
    } else if k == 3 {
        b.strong as u64
    } else {
        b.weak as u64
    }
}

/// The bytes of a control block as it is stored: its five words, little-endian.
pub open spec fn encode(b: RcBox) -> Seq<u8> {
    spec_u64_to_le_bytes(word(b, 0)) + spec_u64_to_le_bytes(word(b, 1)) + spec_u64_to_le_bytes(
        word(b, 2),
    ) + spec_u64_to_le_bytes(word(b, 3)) + spec_u64_to_le_bytes(word(b, 4))
}

/// The word at position `k` of the stored bytes `s`.
pub open spec fn word_of(s: Seq<u8>, k: int) -> u64 {
    spec_u64_from_le_bytes(s.subrange(8 * k, 8 * k + 8))
}

/// The control block that the bytes `s` hold.
pub open spec fn decode(s: Seq<u8>) -> RcBox {
    RcBox {
        val: if word_of(s, 0) != 0 {
            Some(ValueRef { at: word_of(s, 1) as usize, len: word_of(s, 2) as usize })
        } else {
            None
        },
        strong: word_of(s, 3) as usize,
        weak: word_of(s, 4) as usize,
    }
}

/// The control block that stands in the bytes `bytes` at the offset `at`.
pub open spec fn block_at(bytes: Seq<u8>, at: int) -> RcBox {
    decode(bytes.subrange(at, at + BLOCK_SIZE))
}

/// A stored control block has `BLOCK_SIZE` bytes and reads back as it was written.
pub proof fn lemma_encode(b: RcBox)
    ensures
        encode(b).len() == BLOCK_SIZE,
        decode(encode(b)) == b,
{
    lemma_auto_spec_u64_to_from_le_bytes();
    let s = encode(b);
    assert(s.subrange(0, 8) =~= spec_u64_to_le_bytes(word(b, 0)));
    assert(s.subrange(8, 16) =~= spec_u64_to_le_bytes(word(b, 1)));
    assert(s.subrange(16, 24) =~= spec_u64_to_le_bytes(word(b, 2)));
    assert(s.subrange(24, 32) =~= spec_u64_to_le_bytes(word(b, 3)));
    assert(s.subrange(32, 40) =~= spec_u64_to_le_bytes(word(b, 4)));
}

/// What is written at an offset is what stands there afterwards, and a control block
/// that lies clear of the written bytes stays as it was.
pub proof fn lemma_stored(bytes: Seq<u8>, at: int, val: Seq<u8>, other: int)
    requires
        0 <= at,
        at + val.len() <= bytes.len(),
    ensures
        stored(bytes, at, val).len() == bytes.len(),
        stored(bytes, at, val).subrange(at, at + val.len()) == val,
        0 <= other && other + BLOCK_SIZE <= bytes.len() && (other + BLOCK_SIZE <= at || at
            + val.len() <= other) ==> block_at(stored(bytes, at, val), other) == block_at(
            bytes,
            other,
        ),
{
    assert(stored(bytes, at, val).subrange(at, at + val.len()) =~= val);
    if 0 <= other && other + BLOCK_SIZE <= bytes.len() && (other + BLOCK_SIZE <= at || at
        + val.len() <= other) {
        assert(stored(bytes, at, val).subrange(other, other + BLOCK_SIZE) =~= bytes.subrange(
            other,
            other + BLOCK_SIZE,
        ));
    }
}

impl RcBox {
    /// Appends the eight bytes of `w` to `out`.
    fn push_word(out: &mut Vec<u8>, w: u64)
        ensures
            final(out)@ == old(out)@ + spec_u64_to_le_bytes(w),
    {
        let bytes = u64_to_le_bytes(w);
        let mut i: usize = 0;
        while i < 8
            invariant
                i <= 8,
                bytes@.len() == 8,
                out@ == old(out)@ + bytes@.take(i as int),
            decreases 8 - i,
        {
            out.push(bytes[i]);
            proof {
                assert(out@ =~= old(out)@ + bytes@.take(i + 1));
            }
            i += 1;
        }
        proof {
            assert(bytes@.take(8) =~= bytes@);
        }
    }

    /// The bytes of the control block as it is stored.
    pub fn to_bytes(&self) -> (out: Vec<u8>)
        ensures
            out@ == encode(*self),
            out@.len() == BLOCK_SIZE,
    {
        proof {
            lemma_encode(*self);
        }
        let (tag, at, len): (u64, u64, u64) = match self.val {
            Some(v) => (1, v.at as u64, v.len as u64),
            None => (0, 0, 0),
        };
        let mut out: Vec<u8> = Vec::new();
        Self::push_word(&mut out, tag);
        Self::push_word(&mut out, at);
        Self::push_word(&mut out, len);
        Self::push_word(&mut out, self.strong as u64);
        Self::push_word(&mut out, self.weak as u64);
        proof {
            assert(out@ =~= encode(*self));
        }
        out
    }

    /// The control block that `BLOCK_SIZE` stored bytes hold.
    pub fn from_bytes(s: &[u8]) -> (b: Self)
        requires
            s@.len() == BLOCK_SIZE,
        ensures
            b == decode(s@),
    {
        let tag = u64_from_le_bytes(slice_subrange(s, 0, 8));
        let at = u64_from_le_bytes(slice_subrange(s, 8, 16));
        let len = u64_from_le_bytes(slice_subrange(s, 16, 24));
        let strong = u64_from_le_bytes(slice_subrange(s, 24, 32));
        let weak = u64_from_le_bytes(slice_subrange(s, 32, 40));
        RcBox {
            val: if tag != 0 {
                Some(ValueRef { at: at as usize, len: len as usize })
            } else {
                None
            },
            strong: strong as usize,
            weak: weak as usize,
        }
    }

    /// Reads the control block that stands at the offset `at` of the pool.
    pub fn load<const MEMORY_SIZE: usize, const INDEX_SIZE: usize>(
        allocator: &IndexAllocator<MEMORY_SIZE, INDEX_SIZE>,
        at: usize,
    ) -> (b: Self)
        requires
            at + BLOCK_SIZE <= MEMORY_SIZE,
        ensures
            b == block_at(allocator.bytes(), at as int),
    {
        Self::from_bytes(allocator.read(at, BLOCK_SIZE))
    }

    /// Writes the control block at the offset `at` of the pool.
    pub fn store<const MEMORY_SIZE: usize, const INDEX_SIZE: usize>(
        &self,
        allocator: &mut IndexAllocator<MEMORY_SIZE, INDEX_SIZE>,
        at: usize,
    )
        requires
            old(allocator).wf(),
            at + BLOCK_SIZE <= MEMORY_SIZE,
        ensures
            final(allocator).wf(),
            final(allocator).regions() == old(allocator).regions(),
            final(allocator).bytes() == stored(old(allocator).bytes(), at as int, encode(*self)),
            block_at(final(allocator).bytes(), at as int) == *self,
    {
        let bytes = self.to_bytes();
        allocator.write(at, bytes.as_slice());
        proof {
            lemma_encode(*self);
            lemma_stored(old(allocator).bytes(), at as int, encode(*self), at as int);
        }
    }
}

/// What can happen to the handles of one control block.
#[derive(Debug, Clone, Copy, PartialEq, Eq, Structural)]
pub enum Event {
    /// A strong handle is cloned.
    Clone,
    /// A weak handle is made from a strong one.
    Downgrade,
    /// A weak handle is asked for a strong one.
    Upgrade,
    /// A strong handle is dropped.
    DropStrong,
    /// A weak handle is dropped.
    DropWeak,
}

/// The control block after an event. An upgrade adds a strong handle only while there
/// is one; the drop of the last strong handle takes the value away.
pub open spec fn after(b: RcBox, e: Event) -> RcBox {
    match e {
        Event::Clone => RcBox { strong: (b.strong + 1) as usize, ..b },
        Event::Downgrade => RcBox { weak: (b.weak + 1) as usize, ..b },
        Event::Upgrade => if b.strong > 0 {
            RcBox { strong: (b.strong + 1) as usize, ..b }
        } else {
            b
        },
        Event::DropStrong => if b.strong == 1 {
            RcBox { val: None, strong: 0, weak: b.weak }
        } else {
            RcBox { strong: (b.strong - 1) as usize, ..b }
        },
        Event::DropWeak => RcBox { weak: (b.weak - 1) as usize, ..b },
    }
}

/// What an event asks of whoever holds the pool.
#[derive(Debug, Clone, Copy, PartialEq, Eq, Structural)]
pub struct Effect {
    /// The event hands out a new handle.
    pub handle: bool,
    /// The region of the value is to be released.
    pub release_value: bool,
    /// The region of the control block is to be released.
    pub release_block: bool,
}

/// The event can happen to the control block: a counter that is to grow is not at its
/// limit, and a counter that is to shrink is above zero.
pub open spec fn allowed(b: RcBox, e: Event) -> bool {
    match e {
        Event::Clone | Event::Upgrade => b.strong < usize::MAX,
        Event::Downgrade => b.weak < usize::MAX,
        Event::DropStrong => b.strong >= 1,
        Event::DropWeak => b.weak >= 1,
    }
}

/// What an event asks for. A clone and a downgrade hand out a handle, an upgrade does
/// so while a strong handle exists. The value is released with the last strong handle,
/// the control block with the last handle of either kind.
pub open spec fn effect(b: RcBox, e: Event) -> Effect {
    Effect {
        handle: match e {
            Event::Clone | Event::Downgrade => true,
            Event::Upgrade => b.strong > 0,
            _ => false,
        },
        release_value: e == Event::DropStrong && b.strong == 1,
        release_block: (e == Event::DropStrong && b.strong == 1 && b.weak == 0) || (e
            == Event::DropWeak && b.strong == 0 && b.weak == 1),
    }
}

impl RcBox {
    /// Whether the event can happen to the control block.
    pub fn allows(&self, e: Event) -> (r: bool)
        ensures
            r == allowed(*self, e),
    {
        match e {
            Event::Clone => self.strong < usize::MAX,
            Event::Upgrade => self.strong < usize::MAX,
            Event::Downgrade => self.weak < usize::MAX,
            Event::DropStrong => self.strong >= 1,
            Event::DropWeak => self.weak >= 1,
        }
    }

    /// What the event asks for, before it happens.
    pub fn effect_of(&self, e: Event) -> (r: Effect)
        ensures
            r == effect(*self, e),
    {
        match e {
            Event::Clone => Effect { handle: true, release_value: false, release_block: false },
            Event::Downgrade => Effect { handle: true, release_value: false, release_block: false },
            Event::Upgrade => Effect {
                handle: self.strong > 0,
                release_value: false,
                release_block: false,
            },
            Event::DropStrong => Effect {
                handle: false,
                release_value: self.strong == 1,
                release_block: self.strong == 1 && self.weak == 0,
            },
            Event::DropWeak => Effect {
                handle: false,
                release_value: false,
                release_block: self.strong == 0 && self.weak == 1,
            },
        }
    }

    /// Lets the event happen to the counters, and says what it asks for. The regions
    /// are not touched: releasing them is left to the caller.
    pub fn step(&mut self, e: Event) -> (r: Effect)
        requires
            allowed(*old(self), e),
        ensures
            *final(self) == after(*old(self), e),
            r == effect(*old(self), e),
    {
        let asked = self.effect_of(e);
        match e {
            Event::Clone => {
                self.increment_strong();
            },
            Event::Downgrade => {
                self.increment_weak();
            },
            Event::Upgrade => {
                if asked.handle {
                    self.increment_strong();
                }
            },
            Event::DropStrong => {
                self.decrement_strong();
                if asked.release_value {
                    self.val = None;
                }
            },
            Event::DropWeak => {
                self.decrement_weak();
            },
        }
        asked
    }

    /// Stores `val` in the pool and returns a control block for it, with no handle yet.
    pub fn try_new<const MEMORY_SIZE: usize, const INDEX_SIZE: usize>(
        val: &[u8],
        align: usize,
        memory_start: usize,
        allocator: &mut IndexAllocator<MEMORY_SIZE, INDEX_SIZE>,
    ) -> (r: Result<Self, IndexError>)
        requires
            old(allocator).wf(),
            align > 0,
        ensures
            final(allocator).wf(),
            match r {
                Ok(b) => {
                    &&& b.val is Some
                    &&& b == (RcBox { val: b.val, strong: 0, weak: 0 })
                    &&& b.val.unwrap().len == val@.len()
                    &&& b.val.unwrap().at < MEMORY_SIZE
                    &&& b.val.unwrap().at + val@.len() <= MEMORY_SIZE
                    &&& reservation(old(allocator).regions(), memory_start, val@.len() as usize, align) == (
                        Ok::<usize, IndexError>(b.val.unwrap().at),
                        final(allocator).regions(),
                    )
                    &&& final(allocator).bytes() == stored(
                        old(allocator).bytes(),
                        b.val.unwrap().at as int,
                        val@,
                    )
                },
                Err(e) => {
                    &&& e == IndexError::NoFittingRegion || e == IndexError::NoIndexAvailable
                    &&& reservation(old(allocator).regions(), memory_start, val@.len() as usize, align) == (
                        Err::<usize, IndexError>(e),
                        old(allocator).regions(),
                    )
                    &&& final(allocator).regions() == old(allocator).regions()
                    &&& final(allocator).bytes() == old(allocator).bytes()
                },
            },
    {
        let at = allocator.try_alloc_value(memory_start, val, align)?;
        Ok(RcBox { val: Some(ValueRef { at, len: val.len() }), strong: 0, weak: 0 })
    }

    /// Releases the region of the value and forgets the value.
    pub fn try_free_inner<const MEMORY_SIZE: usize, const INDEX_SIZE: usize>(
        &mut self,
        allocator: &mut IndexAllocator<MEMORY_SIZE, INDEX_SIZE>,
    ) -> (r: Result<(), IndexError>)
        requires
            old(allocator).wf(),
            old(self).val is Some,
        ensures
            final(allocator).wf(),
            release(
                old(allocator).regions(),
                old(self).val.unwrap().at as int,
                r,
                final(allocator).regions(),
            ),
            r is Ok <==> old(self).val.unwrap().at < MEMORY_SIZE,
            final(allocator).bytes() == old(allocator).bytes(),
            *final(self) == if r is Ok {
                RcBox { val: None, ..*old(self) }
            } else {
                *old(self)
            },
    {
        match self.val {
            Some(v) => {
                allocator.try_free_addr(v.at)?;
                self.val = None;
                Ok(())
            },
            None => Ok(()),
        }
    }

    /// Counts one strong handle more.
    pub fn increment_strong(&mut self)
        requires
            old(self).strong < usize::MAX,
        ensures
            *final(self) == (RcBox { strong: (old(self).strong + 1) as usize, ..*old(self) }),
    {
        self.strong = self.strong + 1;
    }

    /// Counts one strong handle less.
    pub fn decrement_strong(&mut self)
        requires
            old(self).strong > 0,
        ensures
            *final(self) == (RcBox { strong: (old(self).strong - 1) as usize, ..*old(self) }),
    {
        self.strong = self.strong - 1;
    }

    /// Counts one weak handle more.
    pub fn increment_weak(&mut self)
        requires
            old(self).weak < usize::MAX,
        ensures
            *final(self) == (RcBox { weak: (old(self).weak + 1) as usize, ..*old(self) }),
    {
        self.weak = self.weak + 1;
    }

    /// Counts one weak handle less.
    pub fn decrement_weak(&mut self)
        requires
            old(self).weak > 0,
        ensures
            *final(self) == (RcBox { weak: (old(self).weak - 1) as usize, ..*old(self) }),
    {
        self.weak = self.weak - 1;
    }

    /// Gives the control block up: releases the region of the value, if it still lives.
    pub fn drop<const MEMORY_SIZE: usize, const INDEX_SIZE: usize>(
        self,
        allocator: &mut IndexAllocator<MEMORY_SIZE, INDEX_SIZE>,
    )
        requires
            old(allocator).wf(),
            self.val is Some ==> self.val.unwrap().at < MEMORY_SIZE,
        ensures
            final(allocator).wf(),
            final(allocator).bytes() == old(allocator).bytes(),
            final(allocator).regions() == if self.val is Some {
                released(old(allocator).regions(), self.val.unwrap().at as int)
            } else {
                old(allocator).regions()
            },
    {
        if let Some(v) = self.val {
            let freed = allocator.try_free_addr(v.at);
            proof {
                lemma_released(
                    old(allocator).regions(),
                    MEMORY_SIZE as int,
                    v.at as int,
                    freed,
                    allocator.regions(),
                );
            }
        }
    }
}

/// A strong handle to a shared value in the pool of an
/// `IndexAllocator<MEMORY_SIZE, INDEX_SIZE>`. The value lives as long as a strong
/// handle to it does.
pub struct Rc<const MEMORY_SIZE: usize, const INDEX_SIZE: usize> {
    rc_box: usize,
}

/// A weak handle to a shared value: it keeps the control block, not the value.
pub struct Weak<const MEMORY_SIZE: usize, const INDEX_SIZE: usize> {
    rc_box: usize,
}

impl<const MEMORY_SIZE: usize, const INDEX_SIZE: usize> Rc<MEMORY_SIZE, INDEX_SIZE> {
    /// The offset of the control block in the pool.
    pub closed spec fn at(&self) -> usize {
        self.rc_box
    }

    /// The control block lies inside the pool.
    #[verifier::type_invariant]
    closed spec fn in_pool(&self) -> bool {
        self.rc_box + BLOCK_SIZE <= MEMORY_SIZE
    }

    /// The control block, as the allocator holds it.
    pub open spec fn block(&self, allocator: &IndexAllocator<MEMORY_SIZE, INDEX_SIZE>) -> RcBox {
        block_at(allocator.bytes(), self.at() as int)
    }

    /// The shared value, as the allocator holds it.
    pub open spec fn value(&self, allocator: &IndexAllocator<MEMORY_SIZE, INDEX_SIZE>) -> Seq<u8> {
        let v = self.block(allocator).val.unwrap();
        allocator.bytes().subrange(v.at as int, v.at + v.len)
    }

    /// Stores `val` in the pool at alignment `align`, stores a control block for it with
    /// one strong handle, and returns that handle.
    ///
    /// The value is reserved first, then the control block, each as `reservation` says.
    /// Where the value cannot be reserved, the allocator is unchanged. Where the control
    /// block cannot be, the region of the value is released again. Either way the error
    /// is `NoFittingRegion` or `NoIndexAvailable`.
    pub fn try_new(
        val: &[u8],
        align: usize,
        memory_start: usize,
        allocator: &mut IndexAllocator<MEMORY_SIZE, INDEX_SIZE>,
    ) -> (r: Result<Self, IndexError>)
        requires
            old(allocator).wf(),
            align > 0,
        ensures
            final(allocator).wf(),
            r matches Err(e) ==> e == IndexError::NoFittingRegion || e == IndexError::NoIndexAvailable,
            ({
                let (first, s1) = reservation(
                    old(allocator).regions(),
                    memory_start,
                    val@.len() as usize,
                    align,
                );
                match first {
                    Err(e) => {
                        &&& r matches Err(f) && f == e
                        &&& final(allocator).regions() == old(allocator).regions()
                        &&& final(allocator).bytes() == old(allocator).bytes()
                    },
                    Ok(at) => {
                        let b1 = stored(old(allocator).bytes(), at as int, val@);
                        let block = RcBox {
                            val: Some(ValueRef { at: at, len: val@.len() as usize }),
                            strong: 1,
                            weak: 0,
                        };
                        let (second, s2) = reservation(s1, memory_start, BLOCK_SIZE, BLOCK_ALIGN);
                        match second {
                            Ok(c) => {
                                &&& r matches Ok(rc) && rc.at() == c && rc.block(final(allocator))
                                    == block && rc.value(final(allocator)) == val@
                                &&& at + val@.len() <= MEMORY_SIZE
                                &&& c + BLOCK_SIZE <= MEMORY_SIZE
                                &&& final(allocator).regions() == s2
                                &&& final(allocator).bytes() == stored(b1, c as int, encode(block))
                            },
                            Err(e) => {
                                &&& r matches Err(f) && f == e
                                &&& final(allocator).bytes() == b1
                                &&& final(allocator).regions() == released(s1, at as int)
                            },
                        }
                    },
                }
            }),
    {
        let mut rc_box = RcBox::try_new(val, align, memory_start, allocator)?;
        rc_box.increment_strong();
        let ghost b1 = allocator.bytes();
        let ghost v = rc_box.val.unwrap();
        match allocator.try_alloc_value(memory_start, rc_box.to_bytes().as_slice(), BLOCK_ALIGN) {
            Ok(at) => {
                let made = Rc { rc_box: at };
                proof {
                    lemma_encode(rc_box);
                    lemma_stored(b1, at as int, encode(rc_box), at as int);
                    crate::placement::lemma_reservations_apart(
                        old(allocator).regions(),
                        MEMORY_SIZE as int,
                        memory_start,
                        val@.len() as usize,
                        align,
                        BLOCK_SIZE,
                        BLOCK_ALIGN,
                    );
                    lemma_stored(old(allocator).bytes(), v.at as int, val@, v.at as int);
                    assert(allocator.bytes().subrange(v.at as int, v.at + v.len) =~= b1.subrange(
                        v.at as int,
                        v.at + v.len,
                    ));
                }
                Ok(made)
            },
            Err(e) => {
                rc_box.drop(allocator);
                Err(e)
            },
        }
    }

    /// Reads the control block.
    pub fn load(&self, allocator: &IndexAllocator<MEMORY_SIZE, INDEX_SIZE>) -> (b: RcBox)
        ensures
            b == self.block(allocator),
    {
        proof {
            use_type_invariant(self);
        }
        RcBox::load(allocator, self.rc_box)
    }

    /// Makes another strong handle to the same value.
    pub fn clone(&self, allocator: &mut IndexAllocator<MEMORY_SIZE, INDEX_SIZE>) -> (r: Self)
        requires
            old(allocator).wf(),
            allowed(self.block(old(allocator)), Event::Clone),
        ensures
            final(allocator).wf(),
            r.at() == self.at(),
            self.block(final(allocator)) == after(self.block(old(allocator)), Event::Clone),
            final(allocator).regions() == old(allocator).regions(),
            final(allocator).bytes() == stored(
                old(allocator).bytes(),
                self.at() as int,
                encode(after(self.block(old(allocator)), Event::Clone)),
            ),
    {
        proof {
            use_type_invariant(self);
        }
        let mut rc_box = self.load(allocator);
        rc_box.step(Event::Clone);
        rc_box.store(allocator, self.rc_box);
        Rc { rc_box: self.rc_box }
    }

    /// Makes a weak handle to the value.
    pub fn downgrade(&self, allocator: &mut IndexAllocator<MEMORY_SIZE, INDEX_SIZE>) -> (r: Weak<
        MEMORY_SIZE,
        INDEX_SIZE,
    >)
        requires
            old(allocator).wf(),
            allowed(self.block(old(allocator)), Event::Downgrade),
        ensures
            final(allocator).wf(),
            r.at() == self.at(),
            r.block(final(allocator)) == after(self.block(old(allocator)), Event::Downgrade),
            final(allocator).regions() == old(allocator).regions(),
            final(allocator).bytes() == stored(
                old(allocator).bytes(),
                self.at() as int,
                encode(after(self.block(old(allocator)), Event::Downgrade)),
            ),
    {
        proof {
            use_type_invariant(self);
        }
        let mut rc_box = self.load(allocator);
        rc_box.step(Event::Downgrade);
        rc_box.store(allocator, self.rc_box);
        Weak { rc_box: self.rc_box }
    }

    /// The number of strong handles to the value.
    #[must_use]
    pub fn strong_count(&self, allocator: &IndexAllocator<MEMORY_SIZE, INDEX_SIZE>) -> (n: usize)
        ensures
            n == self.block(allocator).strong,
    {
        self.load(allocator).strong
    }

    /// The number of weak handles to the value.
    #[must_use]
    pub fn weak_count(&self, allocator: &IndexAllocator<MEMORY_SIZE, INDEX_SIZE>) -> (n: usize)
        ensures
            n == self.block(allocator).weak,
    {
        self.load(allocator).weak
    }

    /// The shared value.
    pub fn deref<'a>(&self, allocator: &'a IndexAllocator<MEMORY_SIZE, INDEX_SIZE>) -> (r: &'a [u8])
        requires
            self.block(allocator).val is Some,
            self.block(allocator).val.unwrap().at + self.block(allocator).val.unwrap().len
                <= MEMORY_SIZE,
        ensures
            r@ == self.value(allocator),
    {
        let rc_box = self.load(allocator);
        match rc_box.val {
            Some(v) => allocator.read(v.at, v.len),
            None => allocator.read(0, 0),
        }
    }

    /// Gives the handle up. The counters move as `after` says; what is released is what
    /// `effect` says: with the last strong handle the region of the value, and where no
    /// weak handle is left either, the region of the control block too.
    pub fn drop(self, allocator: &mut IndexAllocator<MEMORY_SIZE, INDEX_SIZE>)
        requires
            old(allocator).wf(),
            allowed(self.block(old(allocator)), Event::DropStrong),
            effect(self.block(old(allocator)), Event::DropStrong).release_value ==> self.block(
                old(allocator),
            ).val is Some && self.block(old(allocator)).val.unwrap().at < MEMORY_SIZE,
        ensures
            final(allocator).wf(),
            final(allocator).bytes() == stored(
                old(allocator).bytes(),
                self.at() as int,
                encode(after(self.block(old(allocator)), Event::DropStrong)),
            ),
            block_at(final(allocator).bytes(), self.at() as int) == after(
                self.block(old(allocator)),
                Event::DropStrong,
            ),
            final(allocator).regions() == ({
                let b = self.block(old(allocator));
                let asked = effect(b, Event::DropStrong);
                let s1 = if asked.release_value {
                    released(old(allocator).regions(), b.val.unwrap().at as int)
                } else {
                    old(allocator).regions()
                };
                if asked.release_block {
                    released(s1, self.at() as int)
                } else {
                    s1
                }
            }),
    {
        proof {
            use_type_invariant(&self);
        }
        let mut rc_box = self.load(allocator);
        let asked = rc_box.effect_of(Event::DropStrong);
        rc_box.decrement_strong();
        if asked.release_value {
            let freed = rc_box.try_free_inner(allocator);
            proof {
                lemma_released(
                    old(allocator).regions(),
                    MEMORY_SIZE as int,
                    self.block(old(allocator)).val.unwrap().at as int,
                    freed,
                    allocator.regions(),
                );
            }
        }
        rc_box.store(allocator, self.rc_box);
        if asked.release_block {
            let ghost s1 = allocator.regions();
            let gone = allocator.try_free_addr(self.rc_box);
            proof {
                lemma_released(s1, MEMORY_SIZE as int, self.rc_box as int, gone, allocator.regions());
            }
        }
    }
}

impl<const MEMORY_SIZE: usize, const INDEX_SIZE: usize> Weak<MEMORY_SIZE, INDEX_SIZE> {
    /// The offset of the control block in the pool.
    pub closed spec fn at(&self) -> usize {
        self.rc_box
    }

    /// The control block lies inside the pool.
    #[verifier::type_invariant]
    closed spec fn in_pool(&self) -> bool {
        self.rc_box + BLOCK_SIZE <= MEMORY_SIZE
    }

    /// The control block, as the allocator holds it.
    pub open spec fn block(&self, allocator: &IndexAllocator<MEMORY_SIZE, INDEX_SIZE>) -> RcBox {
        block_at(allocator.bytes(), self.at() as int)
    }

    /// Reads the control block.
    pub fn load(&self, allocator: &IndexAllocator<MEMORY_SIZE, INDEX_SIZE>) -> (b: RcBox)
        ensures
            b == self.block(allocator),
    {
        proof {
            use_type_invariant(self);
        }
        RcBox::load(allocator, self.rc_box)
    }

    /// A strong handle to the value, while a strong handle to it exists; `None` once the
    /// value was released.
    #[must_use]
    pub fn upgrade(&self, allocator: &mut IndexAllocator<MEMORY_SIZE, INDEX_SIZE>) -> (r: Option<
        Rc<MEMORY_SIZE, INDEX_SIZE>,
    >)
        requires
            old(allocator).wf(),
            allowed(self.block(old(allocator)), Event::Upgrade),
        ensures
            final(allocator).wf(),
            r is Some <==> self.block(old(allocator)).strong > 0,
            r is Some <==> effect(self.block(old(allocator)), Event::Upgrade).handle,
            r matches Some(rc) ==> rc.at() == self.at(),
            self.block(final(allocator)) == after(self.block(old(allocator)), Event::Upgrade),
            final(allocator).regions() == old(allocator).regions(),
            final(allocator).bytes() == if self.block(old(allocator)).strong > 0 {
                stored(
                    old(allocator).bytes(),
                    self.at() as int,
                    encode(after(self.block(old(allocator)), Event::Upgrade)),
                )
            } else {
                old(allocator).bytes()
            },
    {
        proof {
            use_type_invariant(self);
        }
        let mut rc_box = self.load(allocator);
        if rc_box.step(Event::Upgrade).handle {
            rc_box.store(allocator, self.rc_box);
            Some(Rc { rc_box: self.rc_box })
        } else {
            None
        }
    }

    /// The number of strong handles to the value.
    #[must_use]
    pub fn strong_count(&self, allocator: &IndexAllocator<MEMORY_SIZE, INDEX_SIZE>) -> (n: usize)
        ensures
            n == self.block(allocator).strong,
    {
        self.load(allocator).strong
    }

    /// The number of weak handles to the value.
    #[must_use]
    pub fn weak_count(&self, allocator: &IndexAllocator<MEMORY_SIZE, INDEX_SIZE>) -> (n: usize)
        ensures
            n == self.block(allocator).weak,
    {
        self.load(allocator).weak
    }

    /// Gives the handle up. The counters move as `after` says; where it was the last
    /// handle of either kind, the region of the control block is released, as `effect`
    /// says.
    pub fn drop(self, allocator: &mut IndexAllocator<MEMORY_SIZE, INDEX_SIZE>)
        requires
            old(allocator).wf(),
            allowed(self.block(old(allocator)), Event::DropWeak),
        ensures
            final(allocator).wf(),
            final(allocator).bytes() == stored(
                old(allocator).bytes(),
                self.at() as int,
                encode(after(self.block(old(allocator)), Event::DropWeak)),
            ),
            block_at(final(allocator).bytes(), self.at() as int) == after(
                self.block(old(allocator)),
                Event::DropWeak,
            ),
            final(allocator).regions() == if effect(
                self.block(old(allocator)),
                Event::DropWeak,
            ).release_block {
                released(old(allocator).regions(), self.at() as int)
            } else {
                old(allocator).regions()
            },
    {
        proof {
            use_type_invariant(&self);
        }
        let mut rc_box = self.load(allocator);
        let asked = rc_box.step(Event::DropWeak);
        rc_box.store(allocator, self.rc_box);
        if asked.release_block {
            let gone = allocator.try_free_addr(self.rc_box);
            proof {
                lemma_released(
                    old(allocator).regions(),
                    MEMORY_SIZE as int,
                    self.rc_box as int,
                    gone,
                    allocator.regions(),
                );
            }
        }
    }
}

} // verus!

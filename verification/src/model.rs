//! The mathematical model of one consumer's buffer.
//!
//! A buffer is seen as its overflow policy, the geometry of its page table,
//! the flat positions of its two cursors and the sequence of its unread
//! records, oldest first. What a write or a read does is a function on such
//! views; the executable buffer is specified against these functions.

use crate::paging::{grown_page_count, lemma_grown_table_has_room, lemma_ring_add_wraps_once, ring_add};
use crate::sequences::{clones_of, newest};
use vstd::prelude::*;

verus! {

/// What a buffer does with a write that does not fit.
#[derive(Clone, Copy, PartialEq, Eq, Debug, Structural)]
pub enum BufferCacheMode {
    /// The page table keeps its size; the oldest unread records make room.
    Fixed,
    /// The page table grows; nothing is discarded.
    Dynamic,
}

/// A geometry that a buffer can have on this machine: pages are not empty,
/// there are at least two, and the slots can be counted.
pub open spec fn geometry_ok(page_size: nat, page_count: nat) -> bool {
    &&& page_size >= 1
    &&& page_count >= 2
    &&& page_count * page_size <= usize::MAX
}

/// One buffer as a mathematical value.
pub struct BufferView<T> {
    /// The overflow policy.
    pub mode: BufferCacheMode,
    /// Slots per page.
    pub page_size: nat,
    /// Pages in the table.
    pub page_count: nat,
    /// Flat position of the next slot to read.
    pub read_pos: nat,
    /// Flat position of the next slot to write.
    pub write_pos: nat,
    /// The unread records, oldest first.
    pub items: Seq<T>,
}

impl<T> BufferView<T> {
    /// The empty buffer of the given policy and geometry, both cursors at the
    /// first slot of the first page.
    pub open spec fn empty(mode: BufferCacheMode, page_size: nat, page_count: nat) -> Self {
        BufferView { mode, page_size, page_count, read_pos: 0, write_pos: 0, items: Seq::empty() }
    }

    /// Number of slots in the page table.
    pub open spec fn slots(self) -> nat {
        self.page_count * self.page_size
    }

    /// Number of unread records.
    pub open spec fn len(self) -> nat {
        self.items.len()
    }

    /// How many unread records the buffer can hold without overflowing. A
    /// fixed buffer keeps one slot free, so that equal cursors mean empty.
    pub open spec fn capacity(self) -> nat {
        match self.mode {
            BufferCacheMode::Fixed => (self.slots() - 1) as nat,
            BufferCacheMode::Dynamic => self.slots(),
        }
    }

    /// Room left before the next overflow.
    pub open spec fn free(self) -> nat {
        (self.capacity() - self.len()) as nat
    }

    /// The invariant of a buffer: a sound geometry, no more unread records
    /// than the capacity, the write cursor as many slots after the read
    /// cursor as there are unread records, and both cursors at the first slot
    /// whenever nothing is unread.
    pub open spec fn inv(self) -> bool {
        &&& geometry_ok(self.page_size, self.page_count)
        &&& self.read_pos < self.slots()
        &&& self.len() <= self.capacity()
        &&& self.write_pos == ring_add(self.read_pos as int, self.len() as int, self.slots() as int)
        &&& self.len() == 0 ==> self.read_pos == 0
    }

    /// Whether a write of `incoming` records can be carried out on this
    /// machine: it fits, or the policy overwrites, or the grown table is
    /// still countable.
    pub open spec fn accepts(self, incoming: nat) -> bool {
        ||| incoming <= self.free()
        ||| self.mode == BufferCacheMode::Fixed
        ||| grown_page_count(self.page_count, self.page_size, incoming) * self.page_size
            <= usize::MAX
    }

    /// The buffer after `stored` was put behind the unread records, with no
    /// overflow.
    pub open spec fn appended(self, stored: Seq<T>) -> Self {
        BufferView {
            write_pos: ring_add(
                self.write_pos as int,
                stored.len() as int,
                self.slots() as int,
            ) as nat,
            items: self.items + stored,
            ..self
        }
    }

    /// The fixed buffer after a batch at least as long as its capacity: only
    /// the newest records of the batch remain, laid out from the first slot.
    pub open spec fn replaced(self, stored: Seq<T>) -> Self {
        BufferView {
            read_pos: 0,
            write_pos: (self.slots() - 1) as nat,
            items: newest(stored, self.capacity()),
            ..self
        }
    }

    /// The fixed buffer after a batch that is shorter than its capacity but
    /// does not fit: the batch is written from the write cursor on, the read
    /// cursor moves to the slot after the new write cursor, and the newest
    /// records, as many as the capacity, remain.
    pub open spec fn overwritten(self, stored: Seq<T>) -> Self {
        let w = ring_add(self.write_pos as int, stored.len() as int, self.slots() as int);
        BufferView {
            read_pos: ring_add(w, 1, self.slots() as int) as nat,
            write_pos: w as nat,
            items: newest(self.items + stored, self.capacity()),
            ..self
        }
    }

    /// The growing buffer after it has made room for `incoming` records: a
    /// larger table, the unread records moved to its start in their order.
    pub open spec fn grown(self, incoming: nat) -> Self {
        BufferView {
            page_count: grown_page_count(self.page_count, self.page_size, incoming),
            read_pos: 0,
            write_pos: self.len(),
            ..self
        }
    }

    /// The buffer after a write that stored the records `stored`.
    pub open spec fn write(self, stored: Seq<T>) -> Self {
        if stored.len() <= self.free() {
            self.appended(stored)
        } else {
            match self.mode {
                BufferCacheMode::Fixed => if stored.len() >= self.capacity() {
                    self.replaced(stored)
                } else {
                    self.overwritten(stored)
                },
                BufferCacheMode::Dynamic => self.grown(stored.len()).appended(stored),
            }
        }
    }

    /// How many records a read of `length` hands out.
    pub open spec fn read_len(self, length: nat) -> nat {
        if length <= self.len() {
            length
        } else {
            self.len()
        }
    }

    /// The records that a read of `length` hands out, before they are copied.
    pub open spec fn read_items(self, length: nat) -> Seq<T> {
        self.items.take(self.read_len(length) as int)
    }

    /// The buffer after a read of `length`: the records handed out are gone,
    /// the read cursor has moved past them, and a buffer left empty has both
    /// cursors back at the first slot.
    pub open spec fn read(self, length: nat) -> Self {
        let k = self.read_len(length);
        if k == self.len() {
            BufferView { read_pos: 0, write_pos: 0, items: Seq::empty(), ..self }
        } else {
            BufferView {
                read_pos: ring_add(self.read_pos as int, k as int, self.slots() as int) as nat,
                items: self.items.skip(k as int),
                ..self
            }
        }
    }

    /// A write on a buffer that accepts it keeps the invariant.
    pub proof fn lemma_write_keeps_inv(self, stored: Seq<T>)
        requires
            self.inv(),
            self.accepts(stored.len()),
        ensures
            self.write(stored).inv(),
    {
        broadcast use lemma_ring_add_wraps_once;

        let n = self.slots() as int;
        assert(self.page_count * self.page_size >= 2) by (nonlinear_arith)
            requires
                self.page_size >= 1,
                self.page_count >= 2,
        ;
        if stored.len() <= self.free() {
        } else {
            match self.mode {
                BufferCacheMode::Fixed => {
                    if stored.len() >= self.capacity() {
                    } else {
                        let w = ring_add(self.write_pos as int, stored.len() as int, n);
                        assert(ring_add(w, 1, n) == if w + 1 < n {
                            w + 1
                        } else {
                            0
                        });
                    }
                },
                BufferCacheMode::Dynamic => {
                    lemma_grown_table_has_room(self.page_count, self.page_size, stored.len());
                },
            }
        }
    }

    /// A read keeps the invariant.
    pub proof fn lemma_read_keeps_inv(self, length: nat)
        requires
            self.inv(),
        ensures
            self.read(length).inv(),
    {
        broadcast use lemma_ring_add_wraps_once;

    }
}

/// `post` is `pre` after a write of `data`: what was stored is an
/// element-wise clone of `data`, and the buffer is what the model gives for
/// those stored records.
pub open spec fn wrote<T: Clone>(pre: BufferView<T>, data: Seq<T>, post: BufferView<T>) -> bool {
    exists|stored: Seq<T>| #[trigger] clones_of(data, stored) && post == pre.write(stored)
}

} // verus!

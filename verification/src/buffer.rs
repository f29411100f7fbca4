//! One consumer's paged circular buffer.

use crate::model::{geometry_ok, wrote, BufferCacheMode, BufferView};
use crate::sequences::clones_of;
use crate::paging::{
    ceil_div, flatten, grown_page_count, lemma_cursor_step, lemma_flatten_index,
    lemma_flatten_store, lemma_grown_table_has_room, lemma_ring_add_wraps_once,
    lemma_slot_of_in_range, ring_add, slot_of, table_shape,
};
use vstd::arithmetic::div_mod::{lemma_mod_self_0, lemma_small_mod};
use vstd::prelude::*;
use vstd::slice::slice_subrange;

verus! {

/// A consumer's backing store: a table of pages of equal size, a write cursor
/// and a read cursor into it, the number of unread records and the policy for
/// a write that does not fit.
pub struct BufferCache<T> {
    cache: Vec<Vec<T>>,
    mode: BufferCacheMode,
    buf_length: u64,
    page_size: u64,
    w_index: u64,
    r_index: u64,
    size: u64,
    w_page_index: u64,
    r_page_index: u64,
}

impl<T> View for BufferCache<T> {
    type V = BufferView<T>;

    /// The buffer as a mathematical value: the unread records are the slots
    /// from the read cursor on, around the ring of the table.
    closed spec fn view(&self) -> BufferView<T> {
        BufferView {
            mode: self.mode,
            page_size: self.page_size as nat,
            page_count: self.buf_length as nat,
            read_pos: self.rpos(),
            write_pos: self.wpos(),
            items: Seq::new(
                self.size as nat,
                |i: int| self.flat()[ring_add(self.rpos() as int, i, self.n_slots() as int)],
            ),
        }
    }
}

impl<T> BufferCache<T> {
    /// The slots of the page table as one sequence.
    spec fn flat(&self) -> Seq<T> {
        flatten(self.cache@, self.page_size as nat)
    }

    /// Number of slots of the page table.
    spec fn n_slots(&self) -> nat {
        self.buf_length as nat * self.page_size as nat
    }

    /// Flat position of the read cursor.
    spec fn rpos(&self) -> nat {
        slot_of(self.r_page_index as nat, self.r_index as nat, self.page_size as nat)
    }

    /// Flat position of the write cursor.
    spec fn wpos(&self) -> nat {
        slot_of(self.w_page_index as nat, self.w_index as nat, self.page_size as nat)
    }

    /// The page table has the declared geometry and both cursors point into it.
    pub closed spec fn table_ok(&self) -> bool {
        &&& geometry_ok(self.page_size as nat, self.buf_length as nat)
        &&& table_shape(self.cache@, self.buf_length as nat, self.page_size as nat)
        &&& self.r_page_index < self.buf_length
        &&& self.r_index < self.page_size
        &&& self.w_page_index < self.buf_length
        &&& self.w_index < self.page_size
    }

    /// Well-formedness: the storage matches the geometry and the view
    /// satisfies the buffer invariant.
    pub open spec fn wf(&self) -> bool {
        &&& self.table_ok()
        &&& self@.inv()
    }
}

/// A page of `page_size` slots, each holding the default record.
fn make_page<T: Default>(page_size: u64) -> (page: Vec<T>)
    requires
        page_size <= usize::MAX,
    ensures
        page@.len() == page_size,
{
    let mut page: Vec<T> = Vec::with_capacity(page_size as usize);
    let mut filled: u64 = 0;
    while filled < page_size
        invariant
            filled <= page_size,
            page@.len() == filled,
        decreases page_size - filled,
    {
        page.push(T::default());
        filled += 1;
    }
    page
}

/// A table of `page_count` pages of `page_size` default records each.
fn make_table<T: Default>(page_count: u64, page_size: u64) -> (table: Vec<Vec<T>>)
    requires
        page_count <= usize::MAX,
        page_size <= usize::MAX,
    ensures
        table_shape(table@, page_count as nat, page_size as nat),
{
    let mut table: Vec<Vec<T>> = Vec::with_capacity(page_count as usize);
    let mut made: u64 = 0;
    while made < page_count
        invariant
            made <= page_count,
            page_size <= usize::MAX,
            table_shape(table@, made as nat, page_size as nat),
        decreases page_count - made,
    {
        let page = make_page(page_size);
        table.push(page);
        made += 1;
    }
    table
}

/// Whether a buffer of `buf_length` pages of `page_size` slots can exist on
/// this machine.
pub fn geometry_fits(page_size: u64, buf_length: u64) -> (ok: bool)
    ensures
        ok == geometry_ok(page_size as nat, buf_length as nat),
{
    if page_size < 1 || buf_length < 2 {
        return false;
    }
    match buf_length.checked_mul(page_size) {
        None => false,
        Some(slots) => slots <= usize::MAX as u64,
    }
}

/// The cursor one slot further along the ring of a table: the next offset in
/// the page, or the start of the next page, or the start of the first page
/// after the last slot of the last.
fn advance(page: u64, offset: u64, page_count: u64, page_size: u64) -> (next: (u64, u64))
    requires
        page < page_count,
        offset < page_size,
    ensures
        next.0 < page_count,
        next.1 < page_size,
        slot_of(next.0 as nat, next.1 as nat, page_size as nat) == ring_add(
            slot_of(page as nat, offset as nat, page_size as nat) as int,
            1,
            (page_count as nat * page_size as nat) as int,
        ),
{
    let mut index: u64 = offset + 1;
    let mut page_index: u64 = page;
    if index == page_size {
        index = 0;
        page_index = (page + 1) % page_count;
    }
    proof {
        lemma_cursor_step(page as nat, offset as nat, page_count as nat, page_size as nat);
        if page + 1 < page_count {
            lemma_small_mod((page + 1) as nat, page_count as nat);
        } else {
            lemma_mod_self_0(page_count as int);
        }
        assert(slot_of(0, 0, page_size as nat) == 0);
    }
    (page_index, index)
}

impl<T> BufferCache<T> where T: Default + Clone {
    /// Copies `data[from..]` into the slots from the write cursor on, around
    /// the ring, and leaves the write cursor after the last slot written. No
    /// other slot and no other field changes.
    fn fill(&mut self, data: &Vec<T>, from: usize)
        requires
            old(self).table_ok(),
            from <= data@.len(),
            data@.len() - from <= old(self).n_slots(),
        ensures
            final(self).table_ok(),
            final(self).mode == old(self).mode,
            final(self).buf_length == old(self).buf_length,
            final(self).page_size == old(self).page_size,
            final(self).size == old(self).size,
            final(self).r_index == old(self).r_index,
            final(self).r_page_index == old(self).r_page_index,
            final(self).flat().len() == old(self).flat().len(),
            final(self).wpos() == ring_add(
                old(self).wpos() as int,
                data@.len() - from,
                old(self).n_slots() as int,
            ),
            forall|d: int|
                0 <= d < data@.len() - from ==> cloned(
                    data@[from + d],
                    final(self).flat()[#[trigger] ring_add(
                        old(self).wpos() as int,
                        d,
                        old(self).n_slots() as int,
                    )],
                ),
            forall|d: int|
                data@.len() - from <= d < old(self).n_slots() ==> final(self).flat()[#[trigger] ring_add(
                    old(self).wpos() as int,
                    d,
                    old(self).n_slots() as int,
                )] == old(self).flat()[ring_add(
                    old(self).wpos() as int,
                    d,
                    old(self).n_slots() as int,
                )],
    {
        let ghost n = self.n_slots() as int;
        let ghost w0 = self.wpos() as int;
        let ghost flat0 = self.flat();
        let count: usize = data.len();
        let mut i: usize = from;
        proof {
            lemma_slot_of_in_range(
                self.w_page_index as nat,
                self.w_index as nat,
                self.buf_length as nat,
                self.page_size as nat,
            );
            lemma_ring_add_wraps_once(w0, 0, n);
        }
        while i < count
            invariant
                from <= i <= count,
                count == data@.len(),
                count - from <= n,
                n == self.n_slots(),
                0 <= w0 < n,
                flat0.len() == n,
                self.flat().len() == n,
                self.table_ok(),
                self.mode == old(self).mode,
                self.buf_length == old(self).buf_length,
                self.page_size == old(self).page_size,
                self.size == old(self).size,
                self.r_index == old(self).r_index,
                self.r_page_index == old(self).r_page_index,
                self.wpos() == ring_add(w0, i - from, n),
                forall|d: int|
                    0 <= d < i - from ==> cloned(
                        data@[from + d],
                        self.flat()[#[trigger] ring_add(w0, d, n)],
                    ),
                forall|d: int|
                    i - from <= d < n ==> self.flat()[#[trigger] ring_add(w0, d, n)]
                        == flat0[ring_add(w0, d, n)],
            decreases count - i,
        {
            let ghost before = self.cache@;
            let ghost flat_before = self.flat();
            let ghost pos = self.wpos() as int;
            proof {
                Self::lemma_geometry_bounds(self.page_size, self.buf_length);
            }
            let value = data[i].clone();
            self.cache[self.w_page_index as usize][self.w_index as usize] = value;
            proof {
                lemma_flatten_store(
                    before,
                    self.cache@,
                    self.buf_length as nat,
                    self.page_size as nat,
                    self.w_page_index as nat,
                    self.w_index as nat,
                    value,
                );
                assert(self.flat() == flat_before.update(pos, value));
            }
            let next = advance(self.w_page_index, self.w_index, self.buf_length, self.page_size);
            self.w_page_index = next.0;
            self.w_index = next.1;
            proof {
                lemma_ring_add_wraps_once(w0, i - from, n);
                lemma_ring_add_wraps_once(w0, i + 1 - from, n);
                lemma_ring_add_wraps_once(pos, 1, n);
                assert forall|d: int| 0 <= d < i + 1 - from implies cloned(
                    data@[from + d],
                    self.flat()[#[trigger] ring_add(w0, d, n)],
                ) by {
                    lemma_ring_add_wraps_once(w0, d, n);
                    if d < i - from {
                        assert(ring_add(w0, d, n) != pos);
                    }
                }
                assert forall|d: int| i + 1 - from <= d < n implies self.flat()[#[trigger] ring_add(
                    w0,
                    d,
                    n,
                )] == flat0[ring_add(w0, d, n)] by {
                    lemma_ring_add_wraps_once(w0, d, n);
                    assert(ring_add(w0, d, n) != pos);
                }
            }
            i += 1;
        }
    }

    /// Stores a batch that fits behind the unread records. Returns, for the
    /// proof, the records as they were stored.
    fn append(&mut self, data: &Vec<T>) -> (stored: Ghost<Seq<T>>)
        requires
            old(self).wf(),
            data@.len() <= old(self)@.free(),
        ensures
            final(self).wf(),
            clones_of(data@, stored@),
            final(self)@ == old(self)@.appended(stored@),
    {
        let ghost n = self.n_slots() as int;
        let ghost w0 = self.wpos() as int;
        let ghost r0 = self.rpos() as int;
        let ghost s0 = self.size as int;
        let ghost flat0 = self.flat();
        let ghost items0 = self@.items;
        let target_len: u64 = data.len() as u64;
        self.fill(data, 0);
        self.size += target_len;
        let ghost stored = Seq::new(data@.len(), |j: int| self.flat()[ring_add(w0, j, n)]);
        proof {
            let count = data@.len() as int;
            assert(clones_of(data@, stored)) by {
                assert forall|j: int| 0 <= j < count implies cloned(
                    #[trigger] data@[j],
                    stored[j],
                ) by {
                    assert(cloned(data@[0 + j], self.flat()[ring_add(w0, j, n)]));
                }
            }
            lemma_ring_add_wraps_once(r0, s0, n);
            lemma_ring_add_wraps_once(w0, count, n);
            lemma_ring_add_wraps_once(r0, s0 + count, n);
            let expected = old(self)@.appended(stored);
            assert(self@.items.len() == expected.items.len());
            assert forall|i: int| 0 <= i < s0 + count implies self@.items[i]
                == expected.items[i] by {
                lemma_ring_add_wraps_once(r0, i, n);
                if i < s0 {
                    let d = n - s0 + i;
                    lemma_ring_add_wraps_once(w0, d, n);
                    assert(ring_add(w0, d, n) == ring_add(r0, i, n));
                    assert(self.flat()[ring_add(w0, d, n)] == flat0[ring_add(w0, d, n)]);
                    assert(items0[i] == flat0[ring_add(r0, i, n)]);
                } else {
                    lemma_ring_add_wraps_once(w0, i - s0, n);
                    assert(ring_add(w0, i - s0, n) == ring_add(r0, i, n));
                }
            }
            assert(self@.items =~= expected.items);
            old(self)@.lemma_write_keeps_inv(stored);
        }
        Ghost(stored)
    }

    /// Makes room for `incoming` more records: allocates the larger table,
    /// moves the unread records to its start in their order, and puts the
    /// read cursor on the first slot and the write cursor behind them.
    fn grow(&mut self, incoming: u64)
        requires
            old(self).wf(),
            grown_page_count(
                old(self)@.page_count,
                old(self)@.page_size,
                incoming as nat,
            ) * old(self)@.page_size <= usize::MAX,
        ensures
            final(self).wf(),
            final(self)@ == old(self)@.grown(incoming as nat),
    {
        let ghost n = self.n_slots() as int;
        let ghost r0 = self.rpos() as int;
        let ghost flat0 = self.flat();
        let ghost items0 = self@.items;
        let page_size: u64 = self.page_size;
        let old_buf_length: u64 = self.buf_length;
        let size: u64 = self.size;
        let extra: u64 = ceil_div(incoming, page_size);
        proof {
            Self::lemma_geometry_bounds(page_size, old_buf_length);
            lemma_grown_table_has_room(old_buf_length as nat, page_size as nat, incoming as nat);
            let g = grown_page_count(old_buf_length as nat, page_size as nat, incoming as nat);
            assert(g <= g * page_size) by (nonlinear_arith)
                requires
                    page_size >= 1,
            ;
            lemma_slot_of_in_range(
                self.r_page_index as nat,
                self.r_index as nat,
                old_buf_length as nat,
                page_size as nat,
            );
        }
        let target_buf_length: u64 = (old_buf_length + extra) * 2;
        let ghost n2 = (target_buf_length as nat * page_size as nat) as int;
        let mut table: Vec<Vec<T>> = make_table(target_buf_length, page_size);
        let mut moved: u64 = 0;
        let mut from_page: u64 = self.r_page_index;
        let mut from_index: u64 = self.r_index;
        let mut to_page: u64 = 0;
        let mut to_index: u64 = 0;
        proof {
            lemma_ring_add_wraps_once(r0, 0, n);
        }
        while moved < size
            invariant
                moved <= size,
                size <= n,
                n < n2,
                n == old_buf_length as nat * page_size as nat,
                n2 == target_buf_length as nat * page_size as nat,
                n2 <= usize::MAX,
                page_size >= 1,
                0 <= r0 < n,
                flat0.len() == n,
                self.page_size == page_size,
                self.buf_length == old_buf_length,
                self.size == size,
                self.mode == old(self).mode,
                table_shape(self.cache@, old_buf_length as nat, page_size as nat),
                table_shape(table@, target_buf_length as nat, page_size as nat),
                from_page < old_buf_length,
                from_index < page_size,
                to_page < target_buf_length,
                to_index < page_size,
                slot_of(from_page as nat, from_index as nat, page_size as nat) == ring_add(
                    r0,
                    moved as int,
                    n,
                ),
                slot_of(to_page as nat, to_index as nat, page_size as nat) == moved,
                forall|j: int|
                    0 <= j < moved ==> (#[trigger] flatten(table@, page_size as nat)[j])
                        == flat0[ring_add(r0, j, n)],
                forall|d: int|
                    moved <= d < n ==> self.flat()[#[trigger] ring_add(r0, d, n)]
                        == flat0[ring_add(r0, d, n)],
            decreases size - moved,
        {
            let ghost source_before = self.cache@;
            let ghost target_before = table@;
            let ghost source_flat = self.flat();
            let ghost target_flat = flatten(table@, page_size as nat);
            let ghost from_pos = slot_of(from_page as nat, from_index as nat, page_size as nat) as int;
            proof {
                assert(old_buf_length <= n) by (nonlinear_arith)
                    requires
                        n == old_buf_length as nat * page_size as nat,
                        page_size >= 1,
                ;
                assert(target_buf_length <= n2) by (nonlinear_arith)
                    requires
                        n2 == target_buf_length as nat * page_size as nat,
                        page_size >= 1,
                ;
                assert(page_size <= n2) by (nonlinear_arith)
                    requires
                        n2 == target_buf_length as nat * page_size as nat,
                        target_buf_length >= 1,
                ;
                lemma_flatten_index(
                    source_before,
                    old_buf_length as nat,
                    page_size as nat,
                    from_page as nat,
                    from_index as nat,
                );
                lemma_flatten_index(
                    target_before,
                    target_buf_length as nat,
                    page_size as nat,
                    to_page as nat,
                    to_index as nat,
                );
            }
            let ghost leaving = self.cache@[from_page as int]@[from_index as int];
            let ghost filler = table@[to_page as int]@[to_index as int];
            core::mem::swap(
                &mut self.cache[from_page as usize][from_index as usize],
                &mut table[to_page as usize][to_index as usize],
            );
            proof {
                lemma_flatten_store(
                    source_before,
                    self.cache@,
                    old_buf_length as nat,
                    page_size as nat,
                    from_page as nat,
                    from_index as nat,
                    filler,
                );
                lemma_flatten_store(
                    target_before,
                    table@,
                    target_buf_length as nat,
                    page_size as nat,
                    to_page as nat,
                    to_index as nat,
                    leaving,
                );
                lemma_ring_add_wraps_once(r0, moved as int, n);
                lemma_ring_add_wraps_once(r0, moved + 1, n);
                lemma_ring_add_wraps_once(from_pos, 1, n);
                lemma_ring_add_wraps_once(moved as int, 1, n2);
                assert(leaving == flat0[ring_add(r0, moved as int, n)]);
                assert forall|j: int| 0 <= j < moved + 1 implies (#[trigger] flatten(
                    table@,
                    page_size as nat,
                )[j]) == flat0[ring_add(r0, j, n)] by {
                    if j < moved {
                        assert(target_flat[j] == flat0[ring_add(r0, j, n)]);
                    }
                }
                assert forall|d: int| moved + 1 <= d < n implies self.flat()[#[trigger] ring_add(
                    r0,
                    d,
                    n,
                )] == flat0[ring_add(r0, d, n)] by {
                    lemma_ring_add_wraps_once(r0, d, n);
                    assert(ring_add(r0, d, n) != from_pos);
                }
            }
            let from_next = advance(from_page, from_index, old_buf_length, page_size);
            from_page = from_next.0;
            from_index = from_next.1;
            let to_next = advance(to_page, to_index, target_buf_length, page_size);
            to_page = to_next.0;
            to_index = to_next.1;
            moved += 1;
        }
        self.cache = table;
        self.buf_length = target_buf_length;
        self.r_index = 0;
        self.r_page_index = 0;
        self.w_index = to_index;
        self.w_page_index = to_page;
        proof {
            let expected = old(self)@.grown(incoming as nat);
            lemma_ring_add_wraps_once(0, size as int, n2);
            assert(self@.items.len() == expected.items.len());
            assert forall|i: int| 0 <= i < size implies self@.items[i] == expected.items[i] by {
                lemma_ring_add_wraps_once(0, i, n2);
                assert(flatten(self.cache@, page_size as nat)[i] == flat0[ring_add(r0, i, n)]);
                assert(items0[i] == flat0[ring_add(r0, i, n)]);
            }
            assert(self@.items =~= expected.items);
        }
    }

    /// Stores the newest records of a batch at least as long as the
    /// capacity, from the first slot on; everything unread before is
    /// discarded. Returns, for the proof, the batch as it was stored.
    fn replace(&mut self, data: &Vec<T>) -> (stored: Ghost<Seq<T>>)
        requires
            old(self).wf(),
            old(self)@.mode == BufferCacheMode::Fixed,
            data@.len() >= old(self)@.capacity(),
        ensures
            final(self).wf(),
            clones_of(data@, stored@),
            final(self)@ == old(self)@.replaced(stored@),
    {
        let ghost n = self.n_slots() as int;
        let capacity: u64 = self.capacity();
        let target_len: u64 = data.len() as u64;
        let start_data_index: u64 = target_len - capacity;
        self.r_index = 0;
        self.r_page_index = 0;
        self.w_index = 0;
        self.w_page_index = 0;
        self.fill(data, start_data_index as usize);
        self.size = capacity;
        let ghost stored = Seq::new(
            data@.len(),
            |j: int|
                if j >= start_data_index {
                    self.flat()[ring_add(0, j - start_data_index, n)]
                } else {
                    data@[j]
                },
        );
        proof {
            assert(clones_of(data@, stored)) by {
                assert forall|j: int| 0 <= j < data@.len() implies cloned(
                    #[trigger] data@[j],
                    stored[j],
                ) by {
                    if j >= start_data_index {
                        let d = j - start_data_index;
                        assert(cloned(
                            data@[start_data_index + d],
                            self.flat()[ring_add(0, d, n)],
                        ));
                    }
                }
            }
            let expected = old(self)@.replaced(stored);
            lemma_ring_add_wraps_once(0, capacity as int, n);
            assert(self@.items.len() == expected.items.len());
            assert forall|i: int| 0 <= i < capacity implies self@.items[i]
                == expected.items[i] by {
                lemma_ring_add_wraps_once(0, i, n);
            }
            assert(self@.items =~= expected.items);
        }
        Ghost(stored)
    }

    /// Stores a batch shorter than the capacity that does not fit: writes it
    /// from the write cursor on, over the oldest unread records, and moves
    /// the read cursor to the slot after the new write cursor. Returns, for
    /// the proof, the batch as it was stored.
    fn overwrite(&mut self, data: &Vec<T>) -> (stored: Ghost<Seq<T>>)
        requires
            old(self).wf(),
            old(self)@.mode == BufferCacheMode::Fixed,
            old(self)@.free() < data@.len() < old(self)@.capacity(),
        ensures
            final(self).wf(),
            clones_of(data@, stored@),
            final(self)@ == old(self)@.overwritten(stored@),
    {
        let ghost n = self.n_slots() as int;
        let ghost w0 = self.wpos() as int;
        let ghost r0 = self.rpos() as int;
        let ghost s0 = self.size as int;
        let ghost flat0 = self.flat();
        let ghost items0 = self@.items;
        let ghost count = data@.len() as int;
        let capacity: u64 = self.capacity();
        self.fill(data, 0);
        let next = advance(self.w_page_index, self.w_index, self.buf_length, self.page_size);
        self.r_page_index = next.0;
        self.r_index = next.1;
        self.size = capacity;
        let ghost stored = Seq::new(data@.len(), |j: int| self.flat()[ring_add(w0, j, n)]);
        proof {
            assert(clones_of(data@, stored)) by {
                assert forall|j: int| 0 <= j < count implies cloned(
                    #[trigger] data@[j],
                    stored[j],
                ) by {
                    assert(cloned(data@[0 + j], self.flat()[ring_add(w0, j, n)]));
                }
            }
            let w1 = ring_add(w0, count, n);
            let r1 = ring_add(w1, 1, n);
            lemma_ring_add_wraps_once(r0, s0, n);
            lemma_ring_add_wraps_once(w0, count, n);
            lemma_ring_add_wraps_once(w1, 1, n);
            lemma_ring_add_wraps_once(r1, capacity as int, n);
            let expected = old(self)@.overwritten(stored);
            let all = items0 + stored;
            let skipped = s0 + count - capacity;
            assert(expected.items == all.skip(skipped));
            assert(self@.items.len() == expected.items.len());
            assert forall|i: int| 0 <= i < capacity implies self@.items[i]
                == expected.items[i] by {
                let k = skipped + i;
                lemma_ring_add_wraps_once(r1, i, n);
                if k < s0 {
                    let d = n - s0 + k;
                    lemma_ring_add_wraps_once(r0, k, n);
                    lemma_ring_add_wraps_once(w0, d, n);
                    assert(ring_add(w0, d, n) == ring_add(r1, i, n));
                    assert(self.flat()[ring_add(w0, d, n)] == flat0[ring_add(w0, d, n)]);
                    assert(items0[k] == flat0[ring_add(r0, k, n)]);
                } else {
                    lemma_ring_add_wraps_once(w0, k - s0, n);
                    assert(ring_add(w0, k - s0, n) == ring_add(r1, i, n));
                }
            }
            assert(self@.items =~= expected.items);
            old(self)@.lemma_write_keeps_inv(stored);
        }
        Ghost(stored)
    }

    /// Whether a write of `incoming` records can be carried out on this
    /// machine: always, unless the buffer would have to grow beyond what the
    /// machine can count.
    pub fn accepts(&self, incoming: u64) -> (ok: bool)
        requires
            self.wf(),
        ensures
            ok == self@.accepts(incoming as nat),
    {
        if incoming <= self.capacity() - self.size {
            return true;
        }
        match self.mode {
            BufferCacheMode::Fixed => true,
            BufferCacheMode::Dynamic => {
                let extra: u64 = ceil_div(incoming, self.page_size);
                let ghost grown = grown_page_count(
                    self.buf_length as nat,
                    self.page_size as nat,
                    incoming as nat,
                );
                proof {
                    assert(grown <= grown * self.page_size) by (nonlinear_arith)
                        requires
                            self.page_size >= 1,
                    ;
                }
                match self.buf_length.checked_add(extra) {
                    None => false,
                    Some(sum) => match sum.checked_mul(2) {
                        None => false,
                        Some(count) => match count.checked_mul(self.page_size) {
                            None => false,
                            Some(slots) => slots <= usize::MAX as u64,
                        },
                    },
                }
            },
        }
    }

    /// Writes `data`, cloning each record into the buffer. A batch that fits
    /// is put behind the unread records. One that does not fit makes the
    /// overwriting buffer discard its oldest records, and the growing buffer
    /// enlarge its page table first.
    pub fn write_cloned(&mut self, data: &Vec<T>)
        requires
            old(self).wf(),
            old(self)@.accepts(data@.len()),
        ensures
            final(self).wf(),
            wrote(old(self)@, data@, final(self)@),
    {
        let target_len: u64 = data.len() as u64;
        if target_len > self.capacity() - self.size() {
            match self.mode {
                BufferCacheMode::Fixed => {
                    if target_len >= self.capacity() {
                        let stored = self.replace(data);
                        proof {
                            old(self)@.lemma_write_keeps_inv(stored@);
                            assert(clones_of(data@, stored@) && self@ == old(self)@.write(stored@));
                        }
                    } else {
                        let stored = self.overwrite(data);
                        assert(clones_of(data@, stored@) && self@ == old(self)@.write(stored@));
                    }
                },
                BufferCacheMode::Dynamic => {
                    self.grow(target_len);
                    proof {
                        lemma_grown_table_has_room(
                            old(self)@.page_count,
                            old(self)@.page_size,
                            target_len as nat,
                        );
                    }
                    let stored = self.append(data);
                    assert(clones_of(data@, stored@) && self@ == old(self)@.write(stored@));
                },
            }
            return ;
        }
        let stored = self.append(data);
        assert(clones_of(data@, stored@) && self@ == old(self)@.write(stored@));
    }

    /// Writes `data`: see [`BufferCache::write_cloned`].
    pub fn write(&mut self, data: Vec<T>)
        requires
            old(self).wf(),
            old(self)@.accepts(data@.len()),
        ensures
            final(self).wf(),
            wrote(old(self)@, data@, final(self)@),
    {
        self.write_cloned(&data)
    }

    /// An empty buffer with the default configuration: overwriting, two
    /// pages of 4096 slots.
    pub fn new() -> (buffer: BufferCache<T>)
        ensures
            buffer.wf(),
            buffer@ == BufferView::<T>::empty(BufferCacheMode::Fixed, 4096, 2),
    {
        let page_size: u64 = 4096;
        let buf_length: u64 = 2;
        let buf_cache = make_table(buf_length, page_size);
        let buffer = BufferCache {
            cache: buf_cache,
            mode: BufferCacheMode::Fixed,
            buf_length,
            page_size,
            w_index: 0,
            r_index: 0,
            size: 0,
            w_page_index: 0,
            r_page_index: 0,
        };
        proof {
            buffer.lemma_empty_view();
        }
        buffer
    }

    /// A buffer whose cursors are all zero and which holds nothing is the
    /// empty buffer of its policy and geometry.
    proof fn lemma_empty_view(&self)
        requires
            geometry_ok(self.page_size as nat, self.buf_length as nat),
            table_shape(self.cache@, self.buf_length as nat, self.page_size as nat),
            self.w_index == 0,
            self.r_index == 0,
            self.size == 0,
            self.w_page_index == 0,
            self.r_page_index == 0,
        ensures
            self.wf(),
            self@ == BufferView::<T>::empty(self.mode, self.page_size as nat, self.buf_length as nat),
    {
        broadcast use crate::paging::lemma_ring_add_wraps_once;

        assert(self.buf_length as nat * self.page_size as nat >= 2) by (nonlinear_arith)
            requires
                self.page_size >= 1,
                self.buf_length >= 2,
        ;
        assert(self@.items =~= Seq::<T>::empty());
    }

    /// Number of unread records.
    pub fn size(&self) -> (n: u64)
        ensures
            n == self@.len(),
    {
        return self.size;
    }

    /// How many unread records the buffer holds at most before a write
    /// overflows: one less than the number of slots under the overwriting
    /// policy, the number of slots under the growing one.
    pub fn capacity(&self) -> (n: u64)
        requires
            self.wf(),
        ensures
            n == self@.capacity(),
    {
        assert(self.page_size * self.buf_length == self.buf_length * self.page_size)
            by (nonlinear_arith);
        match self.mode {
            BufferCacheMode::Fixed => self.page_size * self.buf_length - 1,
            BufferCacheMode::Dynamic => self.page_size * self.buf_length,
        }
    }

    /// Whether the buffer holds as many unread records as its capacity.
    pub fn is_full(&self) -> (full: bool)
        requires
            self.wf(),
        ensures
            full == (self@.capacity() == self@.len()),
    {
        self.capacity() == self.size()
    }

    /// The overflow policy.
    pub fn mode(&self) -> (mode: BufferCacheMode)
        ensures
            mode == self@.mode,
    {
        self.mode
    }

    /// Makes this the empty overwriting buffer of `buf_length` pages of
    /// `page_size` slots.
    pub fn set_fixed_mode(&mut self, buf_length: u64, page_size: u64)
        requires
            geometry_ok(page_size as nat, buf_length as nat),
        ensures
            final(self).wf(),
            final(self)@ == BufferView::<T>::empty(
                BufferCacheMode::Fixed,
                page_size as nat,
                buf_length as nat,
            ),
    {
        proof {
            Self::lemma_geometry_bounds(page_size, buf_length);
        }
        self.buf_length = buf_length;
        self.page_size = page_size;
        self.cache = make_table(buf_length, page_size);
        self.mode = BufferCacheMode::Fixed;
        self.w_index = 0;
        self.r_index = 0;
        self.size = 0;
        self.w_page_index = 0;
        self.r_page_index = 0;
        proof {
            self.lemma_empty_view();
        }
    }

    /// Makes this the empty growing buffer of two pages of `page_size` slots.
    pub fn set_dynamic_mode(&mut self, page_size: u64)
        requires
            geometry_ok(page_size as nat, 2),
        ensures
            final(self).wf(),
            final(self)@ == BufferView::<T>::empty(BufferCacheMode::Dynamic, page_size as nat, 2),
    {
        proof {
            Self::lemma_geometry_bounds(page_size, 2);
        }
        self.buf_length = 2;
        self.page_size = page_size;
        self.cache = make_table(self.buf_length, page_size);
        self.mode = BufferCacheMode::Dynamic;
        self.w_index = 0;
        self.r_index = 0;
        self.size = 0;
        self.w_page_index = 0;
        self.r_page_index = 0;
        proof {
            self.lemma_empty_view();
        }
    }

    /// Hands out up to `length` unread records, oldest first, as clones, and
    /// drops them from the buffer. Fewer are handed out where fewer are
    /// unread. A buffer left empty has its cursors reset to the first slot.
    pub fn read(&mut self, length: u64) -> (out: Vec<T>)
        requires
            old(self).wf(),
        ensures
            final(self).wf(),
            final(self)@ == old(self)@.read(length as nat),
            clones_of(old(self)@.read_items(length as nat), out@),
    {
        let ghost n = self.n_slots() as int;
        let ghost r0 = self.rpos() as int;
        let ghost s0 = self.size as int;
        let ghost flat0 = self.flat();
        let ghost items0 = self@.items;
        let mut lens: u64 = length;
        //check whether buf has enough data for reading
        if lens > self.size() {
            lens = self.size();
        }
        let mut res: Vec<T> = Vec::new();
        if lens == 0 {
            proof {
                lemma_ring_add_wraps_once(r0, 0, n);
                lemma_ring_add_wraps_once(r0, s0, n);
                assert(self@.items =~= old(self)@.read(length as nat).items);
                assert(old(self)@.read_items(length as nat) =~= res@);
            }
            return res;
        }
        let taken: u64 = lens;
        proof {
            lemma_ring_add_wraps_once(r0, 0, n);
            Self::lemma_geometry_bounds(self.page_size, self.buf_length);
        }
        while lens != 0
            invariant
                self.table_ok(),
                self.cache@ == old(self).cache@,
                self.mode == old(self).mode,
                self.buf_length == old(self).buf_length,
                self.page_size == old(self).page_size,
                self.size == old(self).size,
                self.w_index == old(self).w_index,
                self.w_page_index == old(self).w_page_index,
                n == self.n_slots(),
                flat0 == self.flat(),
                flat0.len() == n,
                0 <= r0 < n,
                lens <= taken <= self.size <= n,
                n <= usize::MAX,
                res@.len() == taken - lens,
                self.rpos() == ring_add(r0, taken - lens, n),
                forall|j: int|
                    0 <= j < taken - lens ==> cloned(flat0[ring_add(r0, j, n)], #[trigger] res@[j]),
            decreases lens,
        {
            let ghost done = (taken - lens) as int;
            let ghost pos = self.rpos() as int;
            let ghost res_before = res@;
            let read_index_start: u64 = self.r_index;
            let cur_page_readable_size: u64 = self.page_size - self.r_index;
            let page_index: u64 = self.r_page_index;
            let read_index_end: u64;
            proof {
                lemma_slot_of_in_range(
                    page_index as nat,
                    read_index_start as nat,
                    self.buf_length as nat,
                    self.page_size as nat,
                );
                lemma_cursor_step(
                    page_index as nat,
                    (self.page_size - 1) as nat,
                    self.buf_length as nat,
                    self.page_size as nat,
                );
                lemma_slot_of_in_range(
                    page_index as nat,
                    (self.page_size - 1) as nat,
                    self.buf_length as nat,
                    self.page_size as nat,
                );
                lemma_ring_add_wraps_once(r0, done, n);
                Self::lemma_geometry_bounds(self.page_size, self.buf_length);
            }
            if cur_page_readable_size > lens {
                //current page data is enough
                read_index_end = read_index_start + lens;
                self.r_index += lens;
            } else {
                read_index_end = read_index_start + cur_page_readable_size;
                self.r_index = 0;
                self.read_page_add();
            }
            let rs: usize = read_index_start as usize;
            let re: usize = read_index_end as usize;
            let page = &self.cache[page_index as usize];
            res.extend_from_slice(slice_subrange(page.as_slice(), rs, re));
            let ghost run = (read_index_end - read_index_start) as int;
            lens -= read_index_end - read_index_start;
            proof {
                lemma_ring_add_wraps_once(r0, done + run, n);
                lemma_ring_add_wraps_once(pos + run - 1, 1, n);
                assert(self.rpos() == ring_add(r0, done + run, n));
                assert forall|j: int| 0 <= j < done + run implies cloned(
                    flat0[ring_add(r0, j, n)],
                    #[trigger] res@[j],
                ) by {
                    if j < done {
                        assert(res@[j] == res_before[j]);
                    } else {
                        let t = j - done;
                        lemma_ring_add_wraps_once(r0, j, n);
                        lemma_flatten_index(
                            self.cache@,
                            self.buf_length as nat,
                            self.page_size as nat,
                            page_index as nat,
                            (read_index_start + t) as nat,
                        );
                        assert(ring_add(r0, j, n) == pos + t);
                        assert(page@.subrange(rs as int, re as int)[t] == page@[rs + t]);
                    }
                }
            }
        }
        self.size -= taken;
        if self.size == 0 {
            //reset index
            self.w_page_index = 0;
            self.w_index = 0;
            self.r_page_index = 0;
            self.r_index = 0;
        }
        proof {
            let expected = old(self)@.read(length as nat);
            lemma_ring_add_wraps_once(r0, s0, n);
            lemma_ring_add_wraps_once(r0, taken as int, n);
            let r1 = ring_add(r0, taken as int, n);
            lemma_ring_add_wraps_once(r1, s0 - taken, n);
            assert(self@.items.len() == expected.items.len());
            assert forall|i: int| 0 <= i < s0 - taken implies self@.items[i]
                == expected.items[i] by {
                lemma_ring_add_wraps_once(r1, i, n);
                lemma_ring_add_wraps_once(r0, taken + i, n);
                assert(items0[taken + i] == flat0[ring_add(r0, taken + i, n)]);
            }
            assert(self@.items =~= expected.items);
            assert(clones_of(old(self)@.read_items(length as nat), res@)) by {
                let handed = old(self)@.read_items(length as nat);
                assert forall|j: int| 0 <= j < handed.len() implies cloned(
                    #[trigger] handed[j],
                    res@[j],
                ) by {
                    assert(items0[j] == flat0[ring_add(r0, j, n)]);
                }
            }
            old(self)@.lemma_read_keeps_inv(length as nat);
        }
        res
    }

    /// Hands out every unread record: a read of as many as there are.
    pub fn read_all(&mut self) -> (out: Vec<T>)
        requires
            old(self).wf(),
        ensures
            final(self).wf(),
            final(self)@ == old(self)@.read(old(self)@.len()),
            clones_of(old(self)@.items, out@),
    {
        let everything: u64 = self.size();
        proof {
            assert(self@.read_items(self@.len()) =~= self@.items);
        }
        self.read(everything)
    }

    /// Moves the read cursor to the page after its own, the first page after
    /// the last.
    fn read_page_add(&mut self)
        requires
            old(self).r_page_index < old(self).buf_length,
        ensures
            *final(self) == (BufferCache {
                r_page_index: if old(self).r_page_index + 1 < old(self).buf_length {
                    (old(self).r_page_index + 1) as u64
                } else {
                    0
                },
                ..*old(self)
            }),
    {
        proof {
            if self.r_page_index + 1 < self.buf_length {
                lemma_small_mod((self.r_page_index + 1) as nat, self.buf_length as nat);
            } else {
                lemma_mod_self_0(self.buf_length as int);
            }
        }
        self.r_page_index = (self.r_page_index + 1) % self.buf_length;
    }

    /// In a sound geometry the page size and the page count are themselves
    /// no larger than the number of slots.
    proof fn lemma_geometry_bounds(page_size: u64, page_count: u64)
        requires
            geometry_ok(page_size as nat, page_count as nat),
        ensures
            page_size <= page_count as nat * page_size as nat,
            page_count <= page_count as nat * page_size as nat,
            page_size <= usize::MAX,
            page_count <= usize::MAX,
    {
        assert(page_size as nat <= page_count as nat * page_size as nat) by (nonlinear_arith)
            requires
                page_count >= 1,
        ;
        assert(page_count as nat <= page_count as nat * page_size as nat) by (nonlinear_arith)
            requires
                page_size >= 1,
        ;
    }

    /// Whether anything is unread.
    pub fn readable(&self) -> (any: bool)
        ensures
            any == (self@.len() != 0),
    {
        self.size() != 0
    }
}

} // verus!

//! Page geometry: ceiling division, the growth rule of the page table, and the
//! correspondence between a paged table and the flat sequence of its slots.
//!
//! A table of `page_count` pages of `page_size` slots each is read as one
//! sequence of `page_count * page_size` slots; slot `q` lives in page
//! `q / page_size` at offset `q % page_size`. Positions on the ring of slots
//! are advanced with [`ring_add`].

use vstd::arithmetic::div_mod::*;
use vstd::prelude::*;

verus! {

/// The least number of blocks of `d` elements that hold `n` elements.
pub open spec fn div_ceil(n: nat, d: nat) -> nat
    recommends
        d > 0,
{
    ((n + d - 1) / (d as int)) as nat
}

/// `div_ceil(n, d)` blocks cover `n` elements, and one block fewer does not.
pub proof fn lemma_div_ceil_is_least_cover(n: nat, d: nat)
    requires
        d > 0,
    ensures
        div_ceil(n, d) * d >= n,
        n > 0 ==> (div_ceil(n, d) - 1) * d < n,
        n == 0 ==> div_ceil(n, d) == 0,
{
    let m = (n + d - 1) as int;
    let q0 = m / (d as int);
    lemma_fundamental_div_mod(m, d as int);
    lemma_mod_bound(m, d as int);
    lemma_div_pos_is_pos(m, d as int);
    assert(q0 * d == d * q0) by (nonlinear_arith);
    assert((q0 - 1) * d == q0 * d - d) by (nonlinear_arith);
    if n == 0 {
        lemma_basic_div(m, d as int);
    }
}

/// Ceiling of `n / d`, computed on integers.
pub fn ceil_div(n: u64, d: u64) -> (q: u64)
    requires
        d > 0,
    ensures
        q == div_ceil(n as nat, d as nat),
{
    let whole: u64 = n / d;
    let rest: u64 = n % d;
    proof {
        let m = (n + d - 1) as int;
        lemma_fundamental_div_mod(n as int, d as int);
        assert(d * (n / d) == (n / d) * d) by (nonlinear_arith);
        if rest == 0 {
            // m = whole * d + (d - 1)
            lemma_fundamental_div_mod_converse(m, d as int, whole as int, d - 1);
        } else {
            // m = (whole + 1) * d + (rest - 1)
            assert((whole + 1) * d == whole * d + d) by (nonlinear_arith);
            lemma_fundamental_div_mod_converse(m, d as int, whole + 1, rest - 1);
            assert(whole * d <= n);
            assert(whole < u64::MAX) by (nonlinear_arith)
                requires
                    whole * d + rest == n,
                    rest < d,
                    rest > 0,
                    n <= u64::MAX,
                    whole >= 0,
            ;
        }
    }
    if rest == 0 {
        whole
    } else {
        whole + 1
    }
}

/// The page count of a growing buffer after it has made room for `incoming`
/// more elements: the old count plus the pages that `incoming` elements fill,
/// doubled.
pub open spec fn grown_page_count(page_count: nat, page_size: nat, incoming: nat) -> nat {
    (page_count + div_ceil(incoming, page_size)) * 2
}

/// A table grown for `incoming` elements holds them beside everything the old
/// table could hold.
pub proof fn lemma_grown_table_has_room(page_count: nat, page_size: nat, incoming: nat)
    requires
        page_size > 0,
    ensures
        grown_page_count(page_count, page_size, incoming) * page_size >= 2 * (page_count * page_size
            + incoming),
        grown_page_count(page_count, page_size, incoming) >= 2 * page_count,
{
    lemma_div_ceil_is_least_cover(incoming, page_size);
    let c = div_ceil(incoming, page_size);
    assert(((page_count + c) * 2) * page_size == 2 * (page_count * page_size) + 2 * (c * page_size))
        by (nonlinear_arith);
}

/// The position `d` slots after `pos` on a ring of `n` slots.
pub open spec fn ring_add(pos: int, d: int, n: int) -> int {
    (pos + d) % n
}

/// Advancing by at most one full turn wraps at most once.
pub broadcast proof fn lemma_ring_add_wraps_once(pos: int, d: int, n: int)
    requires
        0 <= pos < n,
        0 <= d <= n,
    ensures
        #[trigger] ring_add(pos, d, n) == if pos + d < n {
            pos + d
        } else {
            pos + d - n
        },
{
    if pos + d < n {
        lemma_small_mod((pos + d) as nat, n as nat);
    } else {
        lemma_mod_sub_multiples_vanish(pos + d, n);
        lemma_small_mod((pos + d - n) as nat, n as nat);
    }
}

/// Every page of the table has `page_size` slots, and there are `page_count` pages.
pub open spec fn table_shape<T>(table: Seq<Vec<T>>, page_count: nat, page_size: nat) -> bool {
    &&& table.len() == page_count
    &&& forall|p: int| 0 <= p < page_count ==> (#[trigger] table[p])@.len() == page_size
}

/// The slots of a table in order: page 0 first, each page from offset 0.
pub open spec fn flatten<T>(table: Seq<Vec<T>>, page_size: nat) -> Seq<T> {
    Seq::new(
        table.len() * page_size,
        |q: int| table[q / (page_size as int)]@[q % (page_size as int)],
    )
}

/// The flat position of the slot at `offset` in page `page`.
pub open spec fn slot_of(page: nat, offset: nat, page_size: nat) -> nat {
    page * page_size + offset
}

/// A cursor inside the table denotes a flat position inside the table, and
/// that position leads back to the cursor.
pub proof fn lemma_slot_of_in_range(page: nat, offset: nat, page_count: nat, page_size: nat)
    requires
        page < page_count,
        offset < page_size,
    ensures
        slot_of(page, offset, page_size) < page_count * page_size,
        slot_of(page, offset, page_size) as int / (page_size as int) == page,
        slot_of(page, offset, page_size) as int % (page_size as int) == offset,
{
    assert(page * page_size + page_size <= page_count * page_size) by (nonlinear_arith)
        requires
            page + 1 <= page_count,
    ;
    assert(page * page_size == page_size * page) by (nonlinear_arith);
    lemma_fundamental_div_mod_converse(
        slot_of(page, offset, page_size) as int,
        page_size as int,
        page as int,
        offset as int,
    );
}

/// A flat position inside the table splits into a page and an offset inside the table.
pub proof fn lemma_position_splits(q: int, page_count: nat, page_size: nat)
    requires
        0 <= q < page_count * page_size,
        page_size > 0,
    ensures
        0 <= q / (page_size as int) < page_count,
        0 <= q % (page_size as int) < page_size,
        slot_of((q / (page_size as int)) as nat, (q % (page_size as int)) as nat, page_size) == q,
{
    let ps = page_size as int;
    lemma_fundamental_div_mod(q, ps);
    lemma_mod_bound(q, ps);
    lemma_div_pos_is_pos(q, ps);
    let p = q / ps;
    assert(ps * p == p * ps) by (nonlinear_arith);
    if p >= page_count {
        assert(p * ps >= page_count * ps) by (nonlinear_arith)
            requires
                p >= page_count,
                ps > 0,
        ;
    }
}

/// The flat sequence shows at a cursor's position what the table holds at the cursor.
pub proof fn lemma_flatten_index<T>(
    table: Seq<Vec<T>>,
    page_count: nat,
    page_size: nat,
    page: nat,
    offset: nat,
)
    requires
        table_shape(table, page_count, page_size),
        page < page_count,
        offset < page_size,
    ensures
        flatten(table, page_size).len() == page_count * page_size,
        slot_of(page, offset, page_size) < page_count * page_size,
        flatten(table, page_size)[slot_of(page, offset, page_size) as int] == table[page as int]@[offset as int],
{
    lemma_slot_of_in_range(page, offset, page_count, page_size);
}

/// Storing into one slot of one page changes the flat sequence at that slot's
/// position and nowhere else.
pub proof fn lemma_flatten_store<T>(
    before: Seq<Vec<T>>,
    after: Seq<Vec<T>>,
    page_count: nat,
    page_size: nat,
    page: nat,
    offset: nat,
    value: T,
)
    requires
        table_shape(before, page_count, page_size),
        page < page_count,
        offset < page_size,
        after.len() == before.len(),
        forall|p: int| 0 <= p < page_count && p != page ==> after[p] == before[p],
        after[page as int]@ == before[page as int]@.update(offset as int, value),
    ensures
        table_shape(after, page_count, page_size),
        flatten(after, page_size) == flatten(before, page_size).update(
            slot_of(page, offset, page_size) as int,
            value,
        ),
{
    let ps = page_size as int;
    let target = slot_of(page, offset, page_size) as int;
    lemma_slot_of_in_range(page, offset, page_count, page_size);
    assert forall|p: int| 0 <= p < page_count implies (#[trigger] after[p])@.len() == page_size by {
        if p != page {
            assert(after[p] == before[p]);
        }
    }
    let a = flatten(after, page_size);
    let b = flatten(before, page_size).update(target, value);
    assert(a.len() == b.len());
    assert forall|q: int| 0 <= q < a.len() implies a[q] == b[q] by {
        lemma_position_splits(q, page_count, page_size);
        if q / ps == page {
            if q % ps != offset {
                assert(q != target);
            }
        } else {
            assert(after[q / ps] == before[q / ps]);
            assert(q != target);
        }
    }
    assert(a =~= b);
}

/// The cursor one slot further along the ring: the next offset, or the start
/// of the next page, or the start of the table after its last slot.
pub proof fn lemma_cursor_step(page: nat, offset: nat, page_count: nat, page_size: nat)
    requires
        page < page_count,
        offset < page_size,
    ensures
        ring_add(
            slot_of(page, offset, page_size) as int,
            1,
            (page_count * page_size) as int,
        ) == if offset + 1 < page_size {
            slot_of(page, offset + 1, page_size)
        } else if page + 1 < page_count {
            slot_of(page + 1, 0, page_size)
        } else {
            0
        },
{
    let n = (page_count * page_size) as int;
    let pos = slot_of(page, offset, page_size) as int;
    lemma_slot_of_in_range(page, offset, page_count, page_size);
    lemma_ring_add_wraps_once(pos, 1, n);
    assert((page + 1) * page_size == page * page_size + page_size) by (nonlinear_arith);
    if offset + 1 < page_size {
        lemma_slot_of_in_range(page, offset + 1, page_count, page_size);
    } else if page + 1 < page_count {
        lemma_slot_of_in_range(page + 1, 0, page_count, page_size);
    } else {
        assert(pos + 1 == n);
    }
}

} // verus!

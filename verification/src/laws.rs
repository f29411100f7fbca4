//! What holds of buffers and registries over several operations.

use crate::model::{wrote, BufferCacheMode, BufferView};
use crate::registry::{broadcast_done, RegistryView};
use crate::sequences::{clone_is_exact, clones_of, lemma_exact_clones_are_equal, newest};
use vstd::prelude::*;

verus! {

/// One operation on a buffer.
pub enum Step<T> {
    /// A write of the given batch.
    Write(Seq<T>),
    /// A read of up to the given number of records.
    Read(nat),
}

/// `post` is `pre` after `step`. A write is one that `pre` can carry out.
pub open spec fn step_done<T: Clone>(pre: BufferView<T>, step: Step<T>, post: BufferView<T>) -> bool {
    match step {
        Step::Write(data) => pre.accepts(data.len()) && wrote(pre, data, post),
        Step::Read(length) => post == pre.read(length),
    }
}

/// `states` are the views that a buffer goes through under `steps`:
/// `states[0]` before the first step, `states[i + 1]` after step `i`.
pub open spec fn run<T: Clone>(states: Seq<BufferView<T>>, steps: Seq<Step<T>>) -> bool {
    &&& states.len() == steps.len() + 1
    &&& forall|i: int| 0 <= i < steps.len() ==> step_done(states[i], #[trigger] steps[i], states[i + 1])
}

/// Everything that `steps` write, in the order written.
pub open spec fn written<T>(steps: Seq<Step<T>>) -> Seq<T>
    decreases steps.len(),
{
    if steps.len() == 0 {
        Seq::empty()
    } else {
        match steps.last() {
            Step::Write(data) => written(steps.drop_last()) + data,
            Step::Read(_) => written(steps.drop_last()),
        }
    }
}

/// Whether every step is a write.
pub open spec fn only_writes<T>(steps: Seq<Step<T>>) -> bool {
    forall|i: int| 0 <= i < steps.len() ==> #[trigger] steps[i] is Write
}

/// The last `k` elements of an element-wise clone are an element-wise clone
/// of the last `k` elements.
proof fn lemma_newest_of_clones<T: Clone>(src: Seq<T>, dst: Seq<T>, k: nat)
    requires
        clones_of(src, dst),
    ensures
        clones_of(newest(src, k), newest(dst, k)),
{
    let a = newest(src, k);
    let b = newest(dst, k);
    assert forall|i: int| 0 <= i < a.len() implies cloned(#[trigger] a[i], b[i]) by {
        if k < src.len() {
            assert(cloned(src[src.len() - k + i], dst[src.len() - k + i]));
        } else {
            assert(cloned(src[i], dst[i]));
        }
    }
}

/// Element-wise clones of two sequences, one after the other, are an
/// element-wise clone of the two sequences one after the other.
proof fn lemma_clones_of_concat<T: Clone>(a: Seq<T>, a2: Seq<T>, b: Seq<T>, b2: Seq<T>)
    requires
        clones_of(a, a2),
        clones_of(b, b2),
    ensures
        clones_of(a + b, a2 + b2),
{
    assert forall|i: int| 0 <= i < (a + b).len() implies cloned(#[trigger] (a + b)[i], (a2 + b2)[i]) by {
        if i < a.len() {
            assert(cloned(a[i], a2[i]));
        } else {
            assert(cloned(b[i - a.len()], b2[i - a.len()]));
        }
    }
}

/// One step keeps the buffer invariant, and afterwards the buffer holds, as
/// clones, the newest of what was written so far, if it did so before.
proof fn lemma_step<T: Clone>(
    pre: BufferView<T>,
    step: Step<T>,
    post: BufferView<T>,
    history: Seq<T>,
)
    requires
        pre.inv(),
        step_done(pre, step, post),
        pre.len() <= history.len(),
        clones_of(newest(history, pre.len()), pre.items),
    ensures
        post.inv(),
        post.mode == pre.mode,
        post.page_size == pre.page_size,
        post.mode == BufferCacheMode::Fixed ==> post.page_count == pre.page_count,
        step matches Step::Write(data) ==> {
            &&& post.len() <= history.len() + data.len()
            &&& clones_of(newest(history + data, post.len()), post.items)
            &&& post.len() == if data.len() <= pre.free() || pre.mode == BufferCacheMode::Dynamic {
                pre.len() + data.len()
            } else {
                pre.capacity()
            }
        },
        step matches Step::Read(length) ==> {
            &&& post.len() == pre.len() - pre.read_len(length)
            &&& clones_of(newest(history, post.len()), post.items)
        },
{
    match step {
        Step::Write(data) => {
            let stored = choose|stored: Seq<T>| #[trigger]
                clones_of(data, stored) && post == pre.write(stored);
            pre.lemma_write_keeps_inv(stored);
            let kept = newest(history, pre.len());
            lemma_clones_of_concat(kept, pre.items, data, stored);
            let all = pre.items + stored;
            assert(newest(kept + data, post.len()) =~= newest(history + data, post.len()));
            lemma_newest_of_clones(kept + data, all, post.len());
            if data.len() <= pre.free() || pre.mode == BufferCacheMode::Dynamic {
                assert(post.items =~= all);
                assert(newest(all, post.len()) =~= all);
            } else if data.len() >= pre.capacity() {
                assert(post.items =~= newest(all, pre.capacity()));
            } else {
                assert(post.items =~= newest(all, pre.capacity()));
            }
        },
        Step::Read(length) => {
            pre.lemma_read_keeps_inv(length);
            let k = pre.read_len(length);
            let kept = newest(history, pre.len());
            assert(newest(history, post.len()) =~= kept.skip(k as int));
            assert(post.items =~= pre.items.skip(k as int));
            assert forall|i: int| 0 <= i < post.len() implies cloned(
                #[trigger] newest(history, post.len())[i],
                post.items[i],
            ) by {
                assert(cloned(kept[k + i], pre.items[k + i]));
            }
        },
    }
}

/// At every moment a buffer that started empty satisfies the buffer
/// invariant, so it never holds more than its capacity, and holds, as
/// clones and oldest first, exactly the newest records ever written to it,
/// as many as it has unread.
pub proof fn lemma_buffer_holds_newest_written<T: Clone>(
    states: Seq<BufferView<T>>,
    steps: Seq<Step<T>>,
)
    requires
        run(states, steps),
        states[0].inv(),
        states[0].len() == 0,
    ensures
        states.last().inv(),
        states.last().len() <= states.last().capacity(),
        states.last().mode == states[0].mode,
        states.last().len() <= written(steps).len(),
        clones_of(newest(written(steps), states.last().len()), states.last().items),
    decreases steps.len(),
{
    if steps.len() == 0 {
        assert(newest(written(steps), 0) =~= states[0].items);
    } else {
        let earlier_states = states.drop_last();
        let earlier_steps = steps.drop_last();
        assert(run(earlier_states, earlier_steps)) by {
            assert forall|i: int| 0 <= i < earlier_steps.len() implies step_done(
                earlier_states[i],
                #[trigger] earlier_steps[i],
                earlier_states[i + 1],
            ) by {
                assert(step_done(states[i], steps[i], states[i + 1]));
            }
        }
        lemma_buffer_holds_newest_written(earlier_states, earlier_steps);
        let last = steps.len() - 1;
        assert(step_done(states[last], steps[last], states[last + 1]));
        assert(earlier_states.last() == states[last]);
        lemma_step(states[last], steps[last], states[last + 1], written(earlier_steps));
    }
}

/// A write to a growing buffer puts the batch, as clones, behind what was
/// unread, whether or not the table has to grow for it.
proof fn lemma_growing_write<T: Clone>(pre: BufferView<T>, data: Seq<T>, post: BufferView<T>)
    requires
        pre.inv(),
        pre.mode == BufferCacheMode::Dynamic,
        pre.accepts(data.len()),
        wrote(pre, data, post),
    ensures
        post.inv(),
        post.mode == BufferCacheMode::Dynamic,
        post.len() == pre.len() + data.len(),
        post.items.take(pre.len() as int) == pre.items,
        clones_of(data, post.items.skip(pre.len() as int)),
{
    let stored = choose|stored: Seq<T>| #[trigger] clones_of(data, stored) && post == pre.write(stored);
    pre.lemma_write_keeps_inv(stored);
    assert(post.items =~= pre.items + stored);
    assert(post.items.take(pre.len() as int) =~= pre.items);
    assert(post.items.skip(pre.len() as int) =~= stored);
}

/// A growing buffer loses nothing: after any sequence of writes, the number
/// of unread records is what it was before plus the total number written,
/// the capacity is no less, and the records are what was unread before,
/// followed, as clones and in order, by all that was written.
pub proof fn lemma_growing_buffer_keeps_everything<T: Clone>(
    states: Seq<BufferView<T>>,
    steps: Seq<Step<T>>,
)
    requires
        run(states, steps),
        only_writes(steps),
        states[0].inv(),
        states[0].mode == BufferCacheMode::Dynamic,
    ensures
        states.last().inv(),
        states.last().mode == BufferCacheMode::Dynamic,
        states.last().len() == states[0].len() + written(steps).len(),
        states.last().capacity() >= states.last().len(),
        states.last().items.take(states[0].len() as int) == states[0].items,
        clones_of(written(steps), states.last().items.skip(states[0].len() as int)),
    decreases steps.len(),
{
    let before = states[0].len() as int;
    if steps.len() == 0 {
        assert(states.last().items.take(before) =~= states[0].items);
        assert(states.last().items.skip(before) =~= written(steps));
    } else {
        let earlier_states = states.drop_last();
        let earlier_steps = steps.drop_last();
        assert(run(earlier_states, earlier_steps)) by {
            assert forall|i: int| 0 <= i < earlier_steps.len() implies step_done(
                earlier_states[i],
                #[trigger] earlier_steps[i],
                earlier_states[i + 1],
            ) by {
                assert(step_done(states[i], steps[i], states[i + 1]));
            }
        }
        assert(only_writes(earlier_steps)) by {
            assert forall|i: int| 0 <= i < earlier_steps.len() implies #[trigger] earlier_steps[i]
                is Write by {
                assert(steps[i] is Write);
            }
        }
        lemma_growing_buffer_keeps_everything(earlier_states, earlier_steps);
        let last = steps.len() - 1;
        assert(steps[last] is Write);
        assert(step_done(states[last], steps[last], states[last + 1]));
        assert(earlier_states.last() == states[last]);
        let pre = states[last];
        let post = states[last + 1];
        let data = steps[last]->Write_0;
        lemma_growing_write(pre, data, post);
        let earlier = written(earlier_steps);
        assert(post.items.take(before) =~= pre.items.take(before)) by {
            assert(post.items.take(pre.len() as int).take(before) =~= post.items.take(before));
        }
        assert forall|i: int| 0 <= i < written(steps).len() implies cloned(
            #[trigger] written(steps)[i],
            post.items.skip(before)[i],
        ) by {
            if i < earlier.len() {
                assert(cloned(earlier[i], pre.items.skip(before)[i]));
                assert(post.items.take(pre.len() as int)[before + i] == pre.items[before + i]);
            } else {
                let j = i - earlier.len();
                assert(cloned(data[j], post.items.skip(pre.len() as int)[j]));
            }
        }
    }
}

/// An overwriting buffer that overflows keeps the newest: where the last of
/// a sequence of operations on an empty buffer is a write that does not fit,
/// the buffer afterwards holds as many records as its capacity, and they
/// are, as clones and oldest first, the newest records ever written to it.
pub proof fn lemma_overflow_leaves_newest<T: Clone>(
    states: Seq<BufferView<T>>,
    steps: Seq<Step<T>>,
)
    requires
        run(states, steps),
        states[0].inv(),
        states[0].len() == 0,
        states[0].mode == BufferCacheMode::Fixed,
        steps.len() > 0,
        steps.last() matches Step::Write(data) && data.len() > states[steps.len() - 1].free(),
    ensures
        states.last().len() == states.last().capacity(),
        clones_of(newest(written(steps), states.last().capacity()), states.last().items),
{
    lemma_buffer_holds_newest_written(states, steps);
    let earlier_states = states.drop_last();
    let earlier_steps = steps.drop_last();
    assert(run(earlier_states, earlier_steps)) by {
        assert forall|i: int| 0 <= i < earlier_steps.len() implies step_done(
            earlier_states[i],
            #[trigger] earlier_steps[i],
            earlier_states[i + 1],
        ) by {
            assert(step_done(states[i], steps[i], states[i + 1]));
        }
    }
    lemma_buffer_holds_newest_written(earlier_states, earlier_steps);
    let last = steps.len() - 1;
    assert(step_done(states[last], steps[last], states[last + 1]));
    assert(earlier_states.last() == states[last]);
    lemma_step(states[last], steps[last], states[last + 1], written(earlier_steps));
}

/// Round trip: after a batch was written with no overflow, a read of
/// everything at once hands out what was unread before, followed by the
/// batch in order, each record of the batch a clone of the stored clone of
/// the record written; and the buffer is empty again. Where cloning is
/// exact, what an empty buffer hands out is the batch itself.
pub proof fn lemma_round_trip<T: Clone>(
    pre: BufferView<T>,
    data: Seq<T>,
    mid: BufferView<T>,
    out: Seq<T>,
)
    requires
        pre.inv(),
        data.len() <= pre.free(),
        wrote(pre, data, mid),
        clones_of(mid.read_items(mid.len()), out),
    ensures
        mid.items.take(pre.len() as int) == pre.items,
        clones_of(data, mid.items.skip(pre.len() as int)),
        clones_of(mid.items, out),
        out.len() == pre.len() + data.len(),
        mid.read(mid.len()).len() == 0,
        clone_is_exact::<T>() ==> out == pre.items + data,
        clone_is_exact::<T>() && pre.len() == 0 ==> out == data,
{
    let stored = choose|stored: Seq<T>| #[trigger] clones_of(data, stored) && mid == pre.write(stored);
    assert(mid.items =~= pre.items + stored);
    assert(mid.items.take(pre.len() as int) =~= pre.items);
    assert(mid.items.skip(pre.len() as int) =~= stored);
    assert(mid.read_items(mid.len()) =~= mid.items);
    if clone_is_exact::<T>() {
        lemma_exact_clones_are_equal(data, stored);
        lemma_exact_clones_are_equal(mid.items, out);
        assert(pre.items + data =~= out);
        if pre.len() == 0 {
            assert(pre.items + data =~= data);
        }
    }
}

/// Where cloning is exact, a write stores the batch itself: the buffer
/// afterwards is what the model gives for the batch.
pub proof fn lemma_exact_write<T: Clone>(pre: BufferView<T>, data: Seq<T>, post: BufferView<T>)
    requires
        clone_is_exact::<T>(),
        wrote(pre, data, post),
    ensures
        post == pre.write(data),
{
    let stored = choose|stored: Seq<T>| #[trigger] clones_of(data, stored) && post == pre.write(stored);
    lemma_exact_clones_are_equal(data, stored);
}

/// A read hands out the oldest records first and leaves the rest: what a
/// read of `length` hands out, followed by what stays unread, is what was
/// unread before.
pub proof fn lemma_read_splits_unread<T>(pre: BufferView<T>, length: nat)
    ensures
        pre.read_items(length) + pre.read(length).items == pre.items,
        pre.read_items(length).len() == pre.read_len(length),
        pre.read_len(length) <= length,
        pre.read_len(length) <= pre.len(),
{
    assert(pre.read_items(length) + pre.read(length).items =~= pre.items);
}

/// Making sure of a consumer's buffer twice is the same as once: the second
/// call changes nothing, neither the size nor the content of any buffer.
pub proof fn lemma_ensure_is_idempotent<T>(registry: RegistryView<T>, id: u64)
    ensures
        registry.ensured(id).ensured(id) == registry.ensured(id),
        registry.ensured(id).buffers.contains_key(id),
        registry.buffers.contains_key(id) ==> registry.ensured(id) == registry,
{
}

/// `states` are the views that a registry goes through while `batches` are
/// broadcast one after the other.
pub open spec fn broadcasts<T: Clone>(states: Seq<RegistryView<T>>, batches: Seq<Seq<T>>) -> bool {
    &&& states.len() == batches.len() + 1
    &&& forall|i: int|
        0 <= i < batches.len() ==> broadcast_done(states[i], #[trigger] batches[i], states[i + 1])
}

/// No replay: a consumer that registers after any number of broadcasts
/// starts with an empty buffer, whatever was broadcast before; and what it
/// holds after the next broadcast is, as clones and in order, the newest of
/// that broadcast alone.
pub proof fn lemma_no_replay<T: Clone>(
    states: Seq<RegistryView<T>>,
    batches: Seq<Seq<T>>,
    id: u64,
    later: Seq<T>,
    after: RegistryView<T>,
)
    requires
        broadcasts(states, batches),
        states[0].inv(),
        !states[0].buffers.contains_key(id),
        broadcast_done(states.last().ensured(id), later, after),
    ensures
        !states.last().buffers.contains_key(id),
        states.last().ensured(id).buffers[id].items == Seq::<T>::empty(),
        after.buffers.contains_key(id),
        after.buffers[id].len() <= later.len(),
        clones_of(newest(later, after.buffers[id].len()), after.buffers[id].items),
    decreases batches.len(),
{
    lemma_broadcasts_keep_consumers(states, batches);
    let registered = states.last().ensured(id);
    let fresh = registered.buffers[id];
    assert(after.buffers.dom().contains(id));
    assert(wrote(fresh, later, after.buffers[id]));
    let stored = choose|stored: Seq<T>| #[trigger]
        clones_of(later, stored) && after.buffers[id] == fresh.write(stored);
    let held = after.buffers[id];
    if stored.len() <= fresh.free() {
        assert(held.items =~= stored);
    } else {
        match fresh.mode {
            BufferCacheMode::Fixed => {
                assert(held.items =~= newest(stored, fresh.capacity()));
            },
            BufferCacheMode::Dynamic => {
                assert(held.items =~= stored);
            },
        }
    }
    lemma_newest_of_clones(later, stored, held.len());
    assert(newest(stored, held.len()) =~= held.items);
}

/// Broadcasts neither add nor remove a consumer, and leave the template alone.
pub proof fn lemma_broadcasts_keep_consumers<T: Clone>(
    states: Seq<RegistryView<T>>,
    batches: Seq<Seq<T>>,
)
    requires
        broadcasts(states, batches),
    ensures
        states.last().buffers.dom() == states[0].buffers.dom(),
        states.last().template == states[0].template,
    decreases batches.len(),
{
    if batches.len() > 0 {
        let earlier_states = states.drop_last();
        let earlier_batches = batches.drop_last();
        assert(broadcasts(earlier_states, earlier_batches)) by {
            assert forall|i: int| 0 <= i < earlier_batches.len() implies broadcast_done(
                earlier_states[i],
                #[trigger] earlier_batches[i],
                earlier_states[i + 1],
            ) by {
                assert(broadcast_done(states[i], batches[i], states[i + 1]));
            }
        }
        lemma_broadcasts_keep_consumers(earlier_states, earlier_batches);
        let last = batches.len() - 1;
        assert(broadcast_done(states[last], batches[last], states[last + 1]));
    }
}

} // verus!

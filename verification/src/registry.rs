//! The registry of consumer buffers and the fan-out of writes to them.

use crate::buffer::BufferCache;
use crate::model::{geometry_ok, wrote, BufferCacheMode, BufferView};
use crate::sequences::clones_of;
use std::collections::hash_map::Entry;
use std::collections::HashMap;
use vstd::prelude::*;
use vstd::std_specs::hash::{group_hash_axioms, spec_keys_iter};
use vstd::std_specs::iter::IteratorSpec;

verus! {

broadcast use group_hash_axioms;

/// The policy and geometry given to every buffer created from now on.
pub struct Template {
    /// The overflow policy.
    pub mode: BufferCacheMode,
    /// Slots per page.
    pub page_size: nat,
    /// Pages in a new buffer's table.
    pub page_count: nat,
}

impl Template {
    /// The template in force where none was configured: overwriting, two
    /// pages of 4096 slots.
    pub open spec fn standard() -> Template {
        Template { mode: BufferCacheMode::Fixed, page_size: 4096, page_count: 2 }
    }

    /// The overwriting template of `page_count` pages of `page_size` slots.
    pub open spec fn fixed(page_size: nat, page_count: nat) -> Template {
        Template { mode: BufferCacheMode::Fixed, page_size, page_count }
    }

    /// The growing template: buffers start with two pages of `page_size` slots.
    pub open spec fn dynamic(page_size: nat) -> Template {
        Template { mode: BufferCacheMode::Dynamic, page_size, page_count: 2 }
    }

    /// The empty buffer that this template describes.
    pub open spec fn fresh<T>(self) -> BufferView<T> {
        BufferView::empty(self.mode, self.page_size, self.page_count)
    }

    /// Whether a buffer of this template can exist on this machine.
    pub open spec fn valid(self) -> bool {
        geometry_ok(self.page_size, self.page_count)
    }
}

/// The registry as a mathematical value: each registered consumer's buffer,
/// and the template for the buffers still to come.
pub struct RegistryView<T> {
    /// The buffer of each registered consumer, by the consumer's id.
    pub buffers: Map<u64, BufferView<T>>,
    /// What a buffer created from now on looks like.
    pub template: Template,
}

impl<T> RegistryView<T> {
    /// The registry with no consumer and the standard template.
    pub open spec fn empty() -> Self {
        RegistryView { buffers: Map::empty(), template: Template::standard() }
    }

    /// The invariant of a registry: every buffer satisfies the buffer
    /// invariant, and buffers can be made from the template.
    pub open spec fn inv(self) -> bool {
        &&& self.template.valid()
        &&& forall|id: u64| self.buffers.contains_key(id) ==> (#[trigger] self.buffers[id]).inv()
    }

    /// The registry after consumer `id` was made sure to have a buffer: as
    /// before where it had one, else with a fresh buffer of the template.
    pub open spec fn ensured(self, id: u64) -> Self {
        if self.buffers.contains_key(id) {
            self
        } else {
            RegistryView { buffers: self.buffers.insert(id, self.template.fresh()), ..self }
        }
    }

    /// The registry without the buffer of consumer `id`.
    pub open spec fn removed(self, id: u64) -> Self {
        RegistryView { buffers: self.buffers.remove(id), ..self }
    }

    /// The registry after consumer `id` has read up to `length` records: the
    /// consumer has a buffer, and that buffer is after the read.
    pub open spec fn read(self, id: u64, length: nat) -> Self {
        let ensured = self.ensured(id);
        RegistryView {
            buffers: ensured.buffers.insert(id, ensured.buffers[id].read(length)),
            ..ensured
        }
    }

    /// The records that a read of up to `length` by consumer `id` hands
    /// out, before they are copied.
    pub open spec fn read_items(self, id: u64, length: nat) -> Seq<T> {
        self.ensured(id).buffers[id].read_items(length)
    }

    /// Number of unread records of consumer `id`, none where it has no buffer yet.
    pub open spec fn unread(self, id: u64) -> nat {
        self.ensured(id).buffers[id].len()
    }

    /// Whether every registered buffer can carry out a write of `incoming`
    /// records on this machine.
    pub open spec fn accepts(self, incoming: nat) -> bool {
        forall|id: u64| self.buffers.contains_key(id) ==> (#[trigger] self.buffers[id]).accepts(incoming)
    }
}

/// `post` is `pre` after `data` was broadcast: the same consumers and the
/// same template, and every buffer is its former self after a write of `data`.
pub open spec fn broadcast_done<T: Clone>(
    pre: RegistryView<T>,
    data: Seq<T>,
    post: RegistryView<T>,
) -> bool {
    &&& post.template == pre.template
    &&& post.buffers.dom() == pre.buffers.dom()
    &&& forall|id: u64|
        pre.buffers.contains_key(id) ==> wrote(pre.buffers[id], data, #[trigger] post.buffers[id])
}

/// The registry: which consumer has which buffer, and how the buffers still
/// to come are configured.
pub struct MsgQueueInner<T> {
    buf: HashMap<u64, BufferCache<T>>,
    mode: Option<BufferCacheMode>,
    buf_size: u64,
    block_length: u64,
}

impl<T> View for MsgQueueInner<T> {
    type V = RegistryView<T>;

    closed spec fn view(&self) -> RegistryView<T> {
        RegistryView {
            buffers: Map::new(|id: u64| self.buf@.contains_key(id), |id: u64| self.buf@[id]@),
            template: match self.mode {
                None => Template::standard(),
                Some(BufferCacheMode::Fixed) => Template::fixed(
                    self.block_length as nat,
                    self.buf_size as nat,
                ),
                Some(BufferCacheMode::Dynamic) => Template::dynamic(self.block_length as nat),
            },
        }
    }
}

impl<T> MsgQueueInner<T> {
    /// Every registered buffer is well-formed.
    pub closed spec fn storage_ok(&self) -> bool {
        forall|id: u64| self.buf@.contains_key(id) ==> (#[trigger] self.buf@[id]).wf()
    }

    /// Well-formedness: sound storage, and a view that satisfies the
    /// registry invariant.
    pub open spec fn wf(&self) -> bool {
        &&& self.storage_ok()
        &&& self@.inv()
    }
}

impl<T> MsgQueueInner<T> where T: Default + Clone {
    /// The registry with no consumer and no configured template.
    pub fn new() -> (registry: MsgQueueInner<T>)
        ensures
            registry.wf(),
            registry@ == RegistryView::<T>::empty(),
    {
        let registry = MsgQueueInner { buf: HashMap::new(), mode: None, buf_size: 0, block_length: 0 };
        assert(registry@.buffers =~= Map::<u64, BufferView<T>>::empty());
        registry
    }

    /// A new empty buffer as the template describes it.
    fn fresh_buffer(&self) -> (buffer: BufferCache<T>)
        requires
            self@.template.valid(),
        ensures
            buffer.wf(),
            buffer@ == self@.template.fresh::<T>(),
    {
        let mut buffer_cache = BufferCache::new();
        match self.mode {
            None => {},
            Some(mode) => {
                match mode {
                    BufferCacheMode::Fixed => {
                        buffer_cache.set_fixed_mode(self.buf_size, self.block_length);
                    },
                    BufferCacheMode::Dynamic => {
                        buffer_cache.set_dynamic_mode(self.block_length);
                    },
                }
            },
        }
        buffer_cache
    }

    /// Makes sure that consumer `id` has a buffer: creates an empty one from
    /// the template where it has none, and changes nothing where it has one.
    pub fn add_buffer_cache(&mut self, id: u64)
        requires
            old(self).wf(),
        ensures
            final(self).wf(),
            final(self)@ == old(self)@.ensured(id),
    {
        if !self.buf.contains_key(&id) {
            let buffer_cache = self.fresh_buffer();
            self.buf.insert(id, buffer_cache);
            assert(self@.buffers =~= old(self)@.ensured(id).buffers);
        } else {
            assert(self@.buffers =~= old(self)@.ensured(id).buffers);
        }
    }

    /// Makes sure that consumer `id` has a buffer, and hands that buffer out
    /// for reading and writing.
    pub fn get_buffer_cache(&mut self, id: u64) -> (found: Option<&mut BufferCache<T>>)
        requires
            old(self).wf(),
        ensures
            found is Some,
            found matches Some(buffer) ==> buffer.wf(),
            found matches Some(buffer) ==> buffer@ == old(self)@.ensured(id).buffers[id],
            found matches Some(buffer) ==> final(self)@.template == old(self)@.template,
            found matches Some(buffer) ==> final(self)@.buffers =~= old(self)@.ensured(
                id,
            ).buffers.insert(id, final(buffer)@),
            found matches Some(buffer) ==> (final(buffer).wf() ==> final(self).wf()),
    {
        let fresh = if self.buf.contains_key(&id) {
            None
        } else {
            Some(self.fresh_buffer())
        };
        let ghost before = self.buf@;
        proof {
            if before.contains_key(id) {
                assert(before[id].wf());
            }
            assert(self@.ensured(id).buffers.contains_key(id));
        }
        let found = match self.buf.entry(id) {
            Entry::Occupied(occupied) => Some(occupied.into_mut()),
            Entry::Vacant(vacant) => {
                match fresh {
                    Some(buffer_cache) => Some(vacant.insert(buffer_cache)),
                    None => None,
                }
            },
        };
        found
    }

    /// Removes the buffer of consumer `id`, if it has one.
    pub fn delete_buffer_cache(&mut self, id: u64)
        requires
            old(self).wf(),
        ensures
            final(self).wf(),
            final(self)@ == old(self)@.removed(id),
    {
        if self.buf.contains_key(&id) {
            self.buf.remove(&id);
        }
        assert(self@.buffers =~= old(self)@.removed(id).buffers);
    }

    /// From now on new buffers grow, starting with two pages of
    /// `block_length` slots. Existing buffers stay as they are.
    pub fn set_dynamic(&mut self, block_length: u64)
        requires
            old(self).wf(),
            Template::dynamic(block_length as nat).valid(),
        ensures
            final(self).wf(),
            final(self)@ == (RegistryView {
                template: Template::dynamic(block_length as nat),
                ..old(self)@
            }),
    {
        self.mode = Some(BufferCacheMode::Dynamic);
        self.block_length = block_length;
        assert(self@.buffers =~= old(self)@.buffers);
    }

    /// From now on new buffers overwrite, with `buf_size` pages of
    /// `block_length` slots. Existing buffers stay as they are.
    pub fn set_fixed(&mut self, block_length: u64, buf_size: u64)
        requires
            old(self).wf(),
            Template::fixed(block_length as nat, buf_size as nat).valid(),
        ensures
            final(self).wf(),
            final(self)@ == (RegistryView {
                template: Template::fixed(block_length as nat, buf_size as nat),
                ..old(self)@
            }),
    {
        self.mode = Some(BufferCacheMode::Fixed);
        self.block_length = block_length;
        self.buf_size = buf_size;
        assert(self@.buffers =~= old(self)@.buffers);
    }

    /// Number of registered consumers.
    pub fn count(&self) -> (n: usize)
        ensures
            n == self@.buffers.dom().len(),
    {
        assert(self@.buffers.dom() =~= self.buf@.dom());
        self.buf.len()
    }

    /// The ids of the registered consumers, each once, in no particular order.
    pub fn ids(&self) -> (ids: Vec<u64>)
        ensures
            ids@.no_duplicates(),
            ids@.to_set() == self@.buffers.dom(),
    {
        let mut ids: Vec<u64> = Vec::new();
        for id in it: self.buf.keys()
            invariant
                ids@.len() == it.index(),
                forall|j: int| 0 <= j < ids@.len() ==> ids@[j] == *it.seq()[j],
                it.seq() == spec_keys_iter(&self.buf).remaining(),
        {
            ids.push(*id);
        }
        proof {
            let keys = spec_keys_iter(&self.buf).remaining();
            assert(ids@ =~= keys.unref());
            assert(self@.buffers.dom() =~= self.buf@.dom());
        }
        ids
    }

    /// Whether every registered buffer can carry out a write of `incoming`
    /// records on this machine.
    pub fn accepts(&self, incoming: u64) -> (ok: bool)
        requires
            self.wf(),
        ensures
            ok == self@.accepts(incoming as nat),
    {
        let ids = self.ids();
        let mut i: usize = 0;
        while i < ids.len()
            invariant
                i <= ids@.len(),
                self.wf(),
                ids@.to_set() == self@.buffers.dom(),
                forall|j: int|
                    0 <= j < i ==> (#[trigger] self@.buffers[ids@[j]]).accepts(incoming as nat),
            decreases ids@.len() - i,
        {
            let id: u64 = ids[i];
            assert(ids@.to_set().contains(ids@[i as int]));
            match self.buf.get(&id) {
                Some(buffer) => {
                    if !buffer.accepts(incoming) {
                        assert(!self@.buffers[id].accepts(incoming as nat));
                        return false;
                    }
                },
                None => {},
            }
            i += 1;
        }
        proof {
            assert forall|id: u64| self@.buffers.contains_key(id) implies (
            #[trigger] self@.buffers[id]).accepts(incoming as nat) by {
                assert(ids@.to_set().contains(id));
                let j = choose|j: int| 0 <= j < ids@.len() && ids@[j] == id;
                assert(self@.buffers[ids@[j]].accepts(incoming as nat));
            }
        }
        true
    }

    /// Writes `data` to the buffer of every registered consumer. With no
    /// consumer registered nothing happens.
    pub fn broadcast(&mut self, data: &Vec<T>)
        requires
            old(self).wf(),
            old(self)@.accepts(data@.len()),
        ensures
            final(self).wf(),
            broadcast_done(old(self)@, data@, final(self)@),
    {
        let ids = self.ids();
        let mut i: usize = 0;
        while i < ids.len()
            invariant
                i <= ids@.len(),
                self.wf(),
                ids@.no_duplicates(),
                ids@.to_set() == old(self)@.buffers.dom(),
                old(self)@.accepts(data@.len()),
                self@.template == old(self)@.template,
                self@.buffers.dom() == old(self)@.buffers.dom(),
                forall|j: int|
                    0 <= j < i ==> wrote(
                        old(self)@.buffers[ids@[j]],
                        data@,
                        #[trigger] self@.buffers[ids@[j]],
                    ),
                forall|j: int|
                    i <= j < ids@.len() ==> (#[trigger] self@.buffers[ids@[j]]) == old(
                        self,
                    )@.buffers[ids@[j]],
            decreases ids@.len() - i,
        {
            let id: u64 = ids[i];
            let ghost before = self@;
            proof {
                assert(ids@.to_set().contains(ids@[i as int]));
                assert(before.buffers[ids@[i as int]] == old(self)@.buffers[id]);
                assert(old(self)@.buffers[id].accepts(data@.len()));
            }
            match self.get_buffer_cache(id) {
                Some(buffer) => {
                    buffer.write_cloned(data);
                },
                None => {},
            }
            proof {
                assert(self@.buffers.dom() =~= before.buffers.dom());
                assert forall|j: int| 0 <= j < i + 1 implies wrote(
                    old(self)@.buffers[ids@[j]],
                    data@,
                    #[trigger] self@.buffers[ids@[j]],
                ) by {
                    if j < i {
                        assert(ids@[j] != id);
                        assert(self@.buffers[ids@[j]] == before.buffers[ids@[j]]);
                    }
                }
                assert forall|j: int| i + 1 <= j < ids@.len() implies (
                #[trigger] self@.buffers[ids@[j]]) == old(self)@.buffers[ids@[j]] by {
                    assert(ids@[j] != id);
                    assert(self@.buffers[ids@[j]] == before.buffers[ids@[j]]);
                }
            }
            i += 1;
        }
        proof {
            assert forall|id: u64| old(self)@.buffers.contains_key(id) implies wrote(
                old(self)@.buffers[id],
                data@,
                #[trigger] self@.buffers[id],
            ) by {
                assert(ids@.to_set().contains(id));
                let j = choose|j: int| 0 <= j < ids@.len() && ids@[j] == id;
                assert(wrote(old(self)@.buffers[ids@[j]], data@, self@.buffers[ids@[j]]));
            }
        }
    }

    /// Hands out up to `length` unread records of consumer `id`, oldest
    /// first, as clones. A consumer without a buffer gets one first.
    pub fn read(&mut self, id: u64, length: u64) -> (out: Vec<T>)
        requires
            old(self).wf(),
        ensures
            final(self).wf(),
            final(self)@ == old(self)@.read(id, length as nat),
            clones_of(old(self)@.read_items(id, length as nat), out@),
    {
        match self.get_buffer_cache(id) {
            Some(buffer) => buffer.read(length),
            None => Vec::new(),
        }
    }

    /// Number of unread records of consumer `id`. A consumer without a
    /// buffer gets one first.
    pub fn size(&mut self, id: u64) -> (n: u64)
        requires
            old(self).wf(),
        ensures
            final(self).wf(),
            final(self)@ == old(self)@.ensured(id),
            n == old(self)@.unread(id),
    {
        let n = match self.get_buffer_cache(id) {
            Some(buffer) => buffer.size(),
            None => 0,
        };
        assert(self@.buffers =~= old(self)@.ensured(id).buffers);
        n
    }
}

} // verus!

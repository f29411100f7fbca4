//! The queue that mints producer and consumer handles, and the handles.
//!
//! A handle is a capability: it names what it may do, and every operation
//! takes the queue it acts on. Whoever shares one queue between several
//! handles passes the same queue to each.

use crate::registry::{broadcast_done, MsgQueueInner, RegistryView, Template};
use crate::sequences::clones_of;
use std::marker::PhantomData;
use vstd::prelude::*;

verus! {

/// Why a configuration call was refused.
#[derive(Clone, Copy, Debug, PartialEq, Eq, Structural)]
pub enum ConfigError {
    /// A handle was already created; the configuration is locked.
    Running,
}

impl ConfigError {
    /// The refusal in words.
    pub fn message(&self) -> (text: String)
        ensures
            text@ == "Rb is running, please config before running"@,
    {
        "Rb is running, please config before running".to_string()
    }
}

/// The queue as a mathematical value.
pub struct MsgQueueView<T> {
    /// The consumers' buffers and the template for new ones.
    pub registry: RegistryView<T>,
    /// The id that the next consumer created without an id gets.
    pub next_serial: nat,
    /// Whether a handle was created, which locks the configuration.
    pub running: bool,
}

impl<T> MsgQueueView<T> {
    /// The queue before anything was done with it.
    pub open spec fn initial() -> Self {
        MsgQueueView { registry: RegistryView::empty(), next_serial: 0, running: false }
    }

    /// The queue after a configuration call that asked for `template`:
    /// unchanged where a handle was already created, with the new template
    /// elsewhere.
    pub open spec fn configured(self, template: Template) -> Self {
        if self.running {
            self
        } else {
            MsgQueueView { registry: RegistryView { template, ..self.registry }, ..self }
        }
    }

    /// The queue after a consumer handle for `id` was created: locked, and
    /// the consumer has a buffer.
    pub open spec fn attached(self, id: u64) -> Self {
        MsgQueueView { registry: self.registry.ensured(id), running: true, ..self }
    }
}

/// The top-level queue: the registry of consumer buffers, the counter for
/// consumer ids, and the lock on the configuration.
pub struct MsgQueue<T> {
    inner: MsgQueueInner<T>,
    serial_no: u64,
    running: bool,
}

impl<T> View for MsgQueue<T> {
    type V = MsgQueueView<T>;

    closed spec fn view(&self) -> MsgQueueView<T> {
        MsgQueueView {
            registry: self.inner@,
            next_serial: self.serial_no as nat,
            running: self.running,
        }
    }
}

/// The capability to read one consumer's buffer.
pub struct MsgQueueReader<T> {
    id: u64,
    record: PhantomData<T>,
}

/// The capability to broadcast to every consumer's buffer.
pub struct MsgQueueWriter<T> {
    record: PhantomData<T>,
}

impl<T> View for MsgQueueReader<T> {
    type V = u64;

    /// The id of the consumer that this handle reads for.
    closed spec fn view(&self) -> u64 {
        self.id
    }
}

impl<T> MsgQueue<T> {
    /// The registry is well-formed.
    pub closed spec fn registry_wf(&self) -> bool {
        self.inner.wf()
    }

    /// Well-formedness: a well-formed registry, whose view satisfies the
    /// registry invariant.
    pub open spec fn wf(&self) -> bool {
        &&& self.registry_wf()
        &&& self@.registry.inv()
    }
}

impl<T> MsgQueue<T> where T: Default + Clone {
    /// A queue with no consumer, the standard template and no handle
    /// created yet.
    pub fn new() -> (queue: MsgQueue<T>)
        ensures
            queue.wf(),
            queue@ == MsgQueueView::<T>::initial(),
    {
        MsgQueue { inner: MsgQueueInner::new(), serial_no: 0, running: false }
    }

    /// Configures growing buffers of pages of `block_length` slots for the
    /// consumers still to come. Refused once a handle was created.
    pub fn set_dynamic(&mut self, block_length: u64) -> (done: Result<(), ConfigError>)
        requires
            old(self).wf(),
            !old(self)@.running ==> Template::dynamic(block_length as nat).valid(),
        ensures
            final(self).wf(),
            done is Err <==> old(self)@.running,
            done is Err ==> done == Err::<(), ConfigError>(ConfigError::Running),
            final(self)@ == old(self)@.configured(Template::dynamic(block_length as nat)),
    {
        if self.running == true {
            return Err(ConfigError::Running);
        }
        self.inner.set_dynamic(block_length);
        Ok(())
    }

    /// Configures overwriting buffers of `buf_size` pages of `block_length`
    /// slots for the consumers still to come. Refused once a handle was
    /// created.
    pub fn set_fixed(&mut self, block_length: u64, buf_size: u64) -> (done: Result<(), ConfigError>)
        requires
            old(self).wf(),
            !old(self)@.running ==> Template::fixed(block_length as nat, buf_size as nat).valid(),
        ensures
            final(self).wf(),
            done is Err <==> old(self)@.running,
            done is Err ==> done == Err::<(), ConfigError>(ConfigError::Running),
            final(self)@ == old(self)@.configured(
                Template::fixed(block_length as nat, buf_size as nat),
            ),
    {
        if self.running == true {
            return Err(ConfigError::Running);
        }
        self.inner.set_fixed(block_length, buf_size);
        Ok(())
    }

    /// Creates a producer handle. This locks the configuration and creates
    /// no buffer.
    pub fn add_producer(&mut self) -> (writer: MsgQueueWriter<T>)
        requires
            old(self).wf(),
        ensures
            final(self).wf(),
            final(self)@ == (MsgQueueView { running: true, ..old(self)@ }),
    {
        if self.running == false {
            self.running = true;
        }
        MsgQueueWriter { record: PhantomData }
    }

    /// Creates a handle for consumer `id`, with an empty buffer where the
    /// consumer has none yet. This locks the configuration.
    pub fn get_consumer(&mut self, id: u64) -> (reader: MsgQueueReader<T>)
        requires
            old(self).wf(),
        ensures
            final(self).wf(),
            reader@ == id,
            final(self)@ == old(self)@.attached(id),
    {
        if self.running == false {
            self.running = true;
        }
        self.inner.add_buffer_cache(id);
        MsgQueueReader { id, record: PhantomData }
    }

    /// Creates a handle for a consumer under the next serial id, with an
    /// empty buffer where that id has none yet. This locks the configuration.
    pub fn add_consumer(&mut self) -> (reader: MsgQueueReader<T>)
        requires
            old(self).wf(),
            old(self)@.next_serial < u64::MAX,
        ensures
            final(self).wf(),
            reader@ == old(self)@.next_serial,
            final(self)@ == (MsgQueueView {
                next_serial: old(self)@.next_serial + 1,
                ..old(self)@.attached(reader@)
            }),
    {
        if self.running == false {
            self.running = true;
        }
        let id: u64 = self.serial_no;
        self.serial_no += 1;
        self.inner.add_buffer_cache(id);
        MsgQueueReader { id, record: PhantomData }
    }

    /// Number of consumers that have a buffer.
    pub fn get_consumer_count(&self) -> (n: u64)
        ensures
            n == self@.registry.buffers.dom().len(),
    {
        self.inner.count() as u64
    }

    /// Removes the buffer of consumer `id`, if it has one.
    pub fn delete_consumer(&mut self, id: u64)
        requires
            old(self).wf(),
        ensures
            final(self).wf(),
            final(self)@ == (MsgQueueView {
                registry: old(self)@.registry.removed(id),
                ..old(self)@
            }),
    {
        self.inner.delete_buffer_cache(id)
    }

    /// Whether a handle was created, which locks the configuration.
    pub fn is_running(&self) -> (running: bool)
        ensures
            running == self@.running,
    {
        self.running
    }

    /// Whether the next consumer can still get a serial id.
    pub fn has_serial_left(&self) -> (left: bool)
        ensures
            left == (self@.next_serial < u64::MAX),
    {
        self.serial_no < u64::MAX
    }

    /// Whether a broadcast of `incoming` records can be carried out on this
    /// machine by every registered buffer.
    pub fn accepts(&self, incoming: u64) -> (ok: bool)
        requires
            self.wf(),
        ensures
            ok == self@.registry.accepts(incoming as nat),
    {
        self.inner.accepts(incoming)
    }
}

impl<T> MsgQueueReader<T> where T: Default + Clone {
    /// Hands out up to `size` unread records of this consumer, oldest first,
    /// as clones, and drops them from its buffer in `queue`.
    pub fn read(&mut self, queue: &mut MsgQueue<T>, size: u64) -> (out: Vec<T>)
        requires
            old(queue).wf(),
        ensures
            final(queue).wf(),
            *final(self) == *old(self),
            final(queue)@ == (MsgQueueView {
                registry: old(queue)@.registry.read(old(self)@, size as nat),
                ..old(queue)@
            }),
            clones_of(old(queue)@.registry.read_items(old(self)@, size as nat), out@),
    {
        queue.inner.read(self.id, size)
    }

    /// Hands out every unread record of this consumer.
    pub fn read_all(&mut self, queue: &mut MsgQueue<T>) -> (out: Vec<T>)
        requires
            old(queue).wf(),
        ensures
            final(queue).wf(),
            *final(self) == *old(self),
            final(queue)@ == (MsgQueueView {
                registry: old(queue)@.registry.read(
                    old(self)@,
                    old(queue)@.registry.unread(old(self)@),
                ),
                ..old(queue)@
            }),
            clones_of(old(queue)@.registry.ensured(old(self)@).buffers[old(self)@].items, out@),
    {
        let size: u64 = self.size(queue);
        proof {
            let registry = queue@.registry;
            let buffer = registry.buffers[self.id];
            assert(registry.ensured(self.id) == registry);
            assert(old(queue)@.registry.read(self.id, size as nat) == registry.read(
                self.id,
                size as nat,
            ));
            assert(buffer.read_items(buffer.len()) =~= buffer.items);
        }
        self.read(queue, size)
    }

    /// Number of unread records of this consumer. A consumer whose buffer
    /// was removed gets an empty one.
    pub fn size(&mut self, queue: &mut MsgQueue<T>) -> (n: u64)
        requires
            old(queue).wf(),
        ensures
            final(queue).wf(),
            *final(self) == *old(self),
            final(queue)@ == (MsgQueueView {
                registry: old(queue)@.registry.ensured(old(self)@),
                ..old(queue)@
            }),
            n == old(queue)@.registry.unread(old(self)@),
    {
        queue.inner.size(self.id)
    }

    /// The id of the consumer that this handle reads for.
    pub fn id(&self) -> (id: u64)
        ensures
            id == self@,
    {
        self.id
    }
}

impl<T> MsgQueueWriter<T> where T: Default + Clone {
    /// Broadcasts `data`: writes it to the buffer of every consumer
    /// registered in `queue`. Consumers registered later do not see it.
    pub fn write(&self, queue: &mut MsgQueue<T>, data: Vec<T>)
        requires
            old(queue).wf(),
            old(queue)@.registry.accepts(data@.len()),
        ensures
            final(queue).wf(),
            broadcast_done(old(queue)@.registry, data@, final(queue)@.registry),
            final(queue)@.next_serial == old(queue)@.next_serial,
            final(queue)@.running == old(queue)@.running,
    {
        queue.inner.broadcast(&data);
    }
}

} // verus!

use vstd::prelude::*;

use std::collections::hash_map::Entry;
use std::collections::HashMap;

verus! {

broadcast use vstd::std_specs::hash::group_hash_axioms;

/// Identifies an event kind; each kind has its own queue.
pub type EventId = u64;

/// Double-buffered event queue. Events are sent to and read from the current buffer;
/// `update` switches buffers and clears both.
pub struct Events<E> {
    buffers: [Vec<E>; 2],
    write_index: usize,
}

impl<E> View for Events<E> {
    type V = Seq<E>;

    /// The events in the current buffer, oldest first.
    closed spec fn view(&self) -> Seq<E> {
        self.buffers@[self.write_index as int]@
    }
}

impl<E> Events<E> {
    pub closed spec fn wf(&self) -> bool {
        self.write_index < 2
    }

    pub fn new() -> (ev: Self)
        ensures
            ev.wf(),
            ev@ == Seq::<E>::empty(),
    {
        Events { buffers: [Vec::new(), Vec::new()], write_index: 0 }
    }

    pub fn send(&mut self, event: E)
        requires
            old(self).wf(),
        ensures
            final(self).wf(),
            final(self)@ == old(self)@.push(event),
    {
        let i = self.write_index;
        self.buffers[i].push(event);
    }

    /// Appends the events in order.
    pub fn send_batch(&mut self, events: Vec<E>)
        requires
            old(self).wf(),
        ensures
            final(self).wf(),
            final(self)@ == old(self)@ + events@,
    {
        let mut events = events;
        let i = self.write_index;
        self.buffers[i].append(&mut events);
    }

    pub fn len(&self) -> (n: usize)
        requires
            self.wf(),
        ensures
            n == self@.len(),
    {
        self.buffers[self.write_index].len()
    }

    pub fn is_empty(&self) -> (b: bool)
        requires
            self.wf(),
        ensures
            b == (self@.len() == 0),
    {
        self.buffers[self.write_index].len() == 0
    }

    /// Switches to the other buffer and clears both.
    pub fn update(&mut self)
        requires
            old(self).wf(),
        ensures
            final(self).wf(),
            final(self)@ == Seq::<E>::empty(),
    {
        let old_write = self.write_index;
        self.write_index = 1 - self.write_index;
        let i = self.write_index;
        self.buffers[i].clear();
        self.buffers[old_write].clear();
    }

    /// The events in the current buffer.
    pub fn iter(&self) -> (s: &[E])
        requires
            self.wf(),
        ensures
            s@ == self@,
    {
        self.buffers[self.write_index].as_slice()
    }

    /// Takes the events out of the current buffer, leaving it empty.
    pub fn drain(&mut self) -> (taken: Vec<E>)
        requires
            old(self).wf(),
        ensures
            final(self).wf(),
            taken@ == old(self)@,
            final(self)@ == Seq::<E>::empty(),
    {
        let i = self.write_index;
        let mut taken: Vec<E> = Vec::new();
        std::mem::swap(&mut taken, &mut self.buffers[i]);
        taken
    }

    pub fn clear(&mut self)
        requires
            old(self).wf(),
        ensures
            final(self).wf(),
            final(self)@ == Seq::<E>::empty(),
    {
        let i = self.write_index;
        self.buffers[i].clear();
    }
}

impl<E> Default for Events<E> {
    fn default() -> (ev: Self)
        ensures
            ev.wf(),
            ev@ == Seq::<E>::empty(),
    {
        Self::new()
    }
}

/// How far a reader has consumed the current buffer.
#[derive(Debug, Clone, Copy)]
pub struct EventCursor {
    last: usize,
}

impl EventCursor {
    /// The number of events of the current buffer already read.
    pub closed spec fn position(&self) -> usize {
        self.last
    }

    pub fn new() -> (c: Self)
        ensures
            c.position() == 0,
    {
        EventCursor { last: 0 }
    }

    pub fn reset(&mut self)
        ensures
            final(self).position() == 0,
    {
        self.last = 0;
    }
}

impl Default for EventCursor {
    fn default() -> (c: Self)
        ensures
            c.position() == 0,
    {
        Self::new()
    }
}

/// Read-only view into an event queue, with a cursor.
pub struct EventReader<'w, E> {
    events: &'w Events<E>,
    cursor: EventCursor,
}

impl<'w, E> EventReader<'w, E> {
    pub closed spec fn events_spec(&self) -> Events<E> {
        *self.events
    }

    pub closed spec fn cursor_spec(&self) -> EventCursor {
        self.cursor
    }

    /// The position where the next read starts.
    pub open spec fn start(&self) -> int {
        if (self.cursor_spec().position() as int) < self.events_spec()@.len() {
            self.cursor_spec().position() as int
        } else {
            self.events_spec()@.len() as int
        }
    }

    pub fn new(events: &'w Events<E>) -> (r: Self)
        ensures
            r.events_spec() == *events,
            r.cursor_spec().position() == 0,
    {
        EventReader { events, cursor: EventCursor::new() }
    }

    pub fn with_cursor(events: &'w Events<E>, cursor: EventCursor) -> (r: Self)
        ensures
            r.events_spec() == *events,
            r.cursor_spec() == cursor,
    {
        EventReader { events, cursor }
    }

    pub fn cursor(&self) -> (c: EventCursor)
        ensures
            c == self.cursor_spec(),
    {
        self.cursor
    }

    /// The events from the cursor on; the cursor is only clamped to the buffer's length.
    pub fn read(&mut self) -> (s: &'w [E])
        requires
            old(self).events_spec().wf(),
        ensures
            s@ == old(self).events_spec()@.subrange(old(self).start(), old(self).events_spec()@.len() as int),
            final(self).events_spec() == old(self).events_spec(),
            final(self).cursor_spec().position() == old(self).start(),
    {
        let buffer: &'w [E] = self.events.iter();
        if self.cursor.last > buffer.len() {
            self.cursor.last = buffer.len();
        }
        let (_, rest) = buffer.split_at(self.cursor.last);
        rest
    }

    /// The events from the cursor on; the cursor moves past them.
    pub fn read_iter(&mut self) -> (s: &'w [E])
        requires
            old(self).events_spec().wf(),
        ensures
            s@ == old(self).events_spec()@.subrange(old(self).start(), old(self).events_spec()@.len() as int),
            final(self).events_spec() == old(self).events_spec(),
            final(self).cursor_spec().position() == old(self).events_spec()@.len(),
    {
        let buffer: &'w [E] = self.events.iter();
        if self.cursor.last > buffer.len() {
            self.cursor.last = buffer.len();
        }
        let start = self.cursor.last;
        self.cursor.last = buffer.len();
        let (_, rest) = buffer.split_at(start);
        rest
    }

    /// Whether no event is left past the cursor.
    pub fn is_empty(&self) -> (b: bool)
        requires
            self.events_spec().wf(),
        ensures
            b == (self.cursor_spec().position() >= self.events_spec()@.len()),
    {
        self.cursor.last >= self.events.len()
    }
}

/// Law: a reader whose cursor stands where an earlier read left off (the length of the queue
/// then) reads exactly the events sent since, and after `read_iter` nothing is left to read.
pub proof fn lemma_reader_resumes_after_consumed<'w, E>(r: EventReader<'w, E>, seen: Seq<E>, fresh: Seq<E>)
    requires
        r.cursor_spec().position() == seen.len(),
        r.events_spec()@ == seen + fresh,
    ensures
        r.start() == seen.len(),
        r.events_spec()@.subrange(r.start(), r.events_spec()@.len() as int) == fresh,
        fresh.len() == 0 <==> r.cursor_spec().position() >= r.events_spec()@.len(),
{
    assert((seen + fresh).subrange(seen.len() as int, (seen + fresh).len() as int) =~= fresh);
}

/// Mutable handle for sending events.
pub struct EventWriter<'w, E> {
    pub events: &'w mut Events<E>,
}

impl<'w, E> EventWriter<'w, E> {
    /// The events in the queue the writer sends to.
    pub open spec fn target(&self) -> Events<E> {
        *self.events
    }

    pub fn new(events: &'w mut Events<E>) -> (w: Self)
        ensures
            w.target() == *old(events),
            *final(w.events) == *final(events),
    {
        EventWriter { events }
    }

    pub fn send(&mut self, event: E)
        requires
            old(self).target().wf(),
        ensures
            final(self).target().wf(),
            final(self).target()@ == old(self).target()@.push(event),
            *final(final(self).events) == *final(old(self).events),
    {
        self.events.send(event);
    }

    pub fn send_batch(&mut self, events: Vec<E>)
        requires
            old(self).target().wf(),
        ensures
            final(self).target().wf(),
            final(self).target()@ == old(self).target()@ + events@,
            *final(final(self).events) == *final(old(self).events),
    {
        self.events.send_batch(events);
    }
}

/// The event kinds that have a queue, in registration order.
pub struct EventRegistry {
    registered: Vec<EventId>,
}

impl View for EventRegistry {
    type V = Seq<EventId>;

    closed spec fn view(&self) -> Seq<EventId> {
        self.registered@
    }
}

impl EventRegistry {
    pub fn new() -> (r: Self)
        ensures
            r@ == Seq::<EventId>::empty(),
    {
        EventRegistry { registered: Vec::new() }
    }

    /// Records the kind unless it is recorded already.
    pub fn register(&mut self, id: EventId)
        ensures
            final(self)@ == (if old(self)@.contains(id) { old(self)@ } else { old(self)@.push(id) }),
    {
        if !crate::query::access::contains_id(&self.registered, id) {
            self.registered.push(id);
        }
    }

    pub fn is_registered(&self, id: EventId) -> (b: bool)
        ensures
            b == self@.contains(id),
    {
        crate::query::access::contains_id(&self.registered, id)
    }
}

impl Default for EventRegistry {
    fn default() -> (r: Self)
        ensures
            r@ == Seq::<EventId>::empty(),
    {
        Self::new()
    }
}

/// One event queue per registered kind.
pub struct EventStorage<E> {
    registry: EventRegistry,
    buffers: HashMap<EventId, Events<E>>,
}

impl<E> View for EventStorage<E> {
    type V = Map<EventId, Seq<E>>;

    /// The current buffer of each registered kind.
    closed spec fn view(&self) -> Map<EventId, Seq<E>> {
        self.buffers@.map_values(|ev: Events<E>| ev@)
    }
}

impl<E> EventStorage<E> {
    /// Exactly the registered kinds have a queue, and each queue is well formed.
    pub closed spec fn wf(&self) -> bool {
        &&& self.buffers@.dom() == self.registry@.to_set()
        &&& self.registry@.no_duplicates()
        &&& forall|id: EventId| #[trigger] self.buffers@.contains_key(id) ==> self.buffers@[id].wf()
    }

    pub closed spec fn events_spec(&self, id: EventId) -> Events<E> {
        self.buffers@[id]
    }

    pub fn new() -> (s: Self)
        ensures
            s.wf(),
            s@ == Map::<EventId, Seq<E>>::empty(),
    {
        let s = EventStorage { registry: EventRegistry::new(), buffers: HashMap::new() };
        assert(s.buffers@.dom() =~= s.registry@.to_set());
        assert(s@ =~= Map::<EventId, Seq<E>>::empty());
        s
    }

    /// Gives the kind a queue unless it has one.
    pub fn register(&mut self, id: EventId)
        requires
            old(self).wf(),
        ensures
            final(self).wf(),
            final(self)@ == (if old(self)@.contains_key(id) { old(self)@ } else { old(self)@.insert(id, Seq::empty()) }),
    {
        self.registry.register(id);
        if !self.buffers.contains_key(&id) {
            self.buffers.insert(id, Events::new());
        }
        proof {
            let r0 = old(self).registry@;
            if !r0.contains(id) {
                assert(r0.push(id).to_set() =~= r0.to_set().insert(id)) by {
                    assert forall|x: EventId| r0.push(id).to_set().contains(x) == r0.to_set().insert(id).contains(x) by {
                        if r0.push(id).contains(x) {
                            let k = choose|k: int| 0 <= k < r0.push(id).len() && r0.push(id)[k] == x;
                            if k < r0.len() {
                                assert(r0.contains(x));
                            }
                        }
                        if r0.contains(x) {
                            let k = choose|k: int| 0 <= k < r0.len() && r0[k] == x;
                            assert(r0.push(id)[k] == x);
                        }
                        if x == id {
                            assert(r0.push(id)[r0.len() as int] == x);
                        }
                    }
                }
                assert(r0.push(id).no_duplicates()) by {
                    assert forall|a: int, b: int| 0 <= a < r0.push(id).len() && 0 <= b < r0.push(id).len() && a != b
                        implies r0.push(id)[a] != r0.push(id)[b] by {
                        if a == r0.len() {
                            assert(r0.contains(r0[b]));
                        } else if b == r0.len() {
                            assert(r0.contains(r0[a]));
                        }
                    }
                }
            } else {
                assert(self.buffers@.dom().contains(id));
            }
            assert(self.buffers@.dom() =~= self.registry@.to_set());
            assert(self@ =~= (if old(self)@.contains_key(id) { old(self)@ } else { old(self)@.insert(id, Seq::empty()) }));
        }
    }

    /// Sends to the kind's queue; `false` when the kind has none.
    pub fn send(&mut self, id: EventId, event: E) -> (sent: bool)
        requires
            old(self).wf(),
        ensures
            final(self).wf(),
            sent == old(self)@.contains_key(id),
            sent ==> final(self)@ == old(self)@.insert(id, old(self)@[id].push(event)),
            !sent ==> final(self)@ == old(self)@,
    {
        match self.buffers.entry(id) {
            Entry::Occupied(mut o) => {
                o.get_mut().send(event);
            },
            Entry::Vacant(_) => {
                proof {
                    assert(old(self).buffers@.remove(id) =~= old(self).buffers@);
                }
                return false;
            },
        }
        proof {
            assert(self.buffers@.dom() =~= self.registry@.to_set());
            assert(self@ =~= old(self)@.insert(id, old(self)@[id].push(event)));
        }
        true
    }

    pub fn events(&self, id: EventId) -> (r: Option<&Events<E>>)
        requires
            self.wf(),
        ensures
            r is Some == self@.contains_key(id),
            r matches Some(ev) ==> *ev == self.events_spec(id) && ev.wf() && ev@ == self@[id],
    {
        self.buffers.get(&id)
    }

    pub fn events_mut(&mut self, id: EventId) -> (r: Option<&mut Events<E>>)
        requires
            old(self).wf(),
        ensures
            (r is Some) == old(self)@.contains_key(id),
            r is Some ==> {
                &&& *r->0 == old(self).events_spec(id)
                &&& r->0.wf()
                &&& r->0@ == old(self)@[id]
                &&& (final(r->0).wf() ==> final(self).wf())
                &&& final(self)@ == old(self)@.insert(id, final(r->0)@)
            },
            r is None ==> final(self)@ == old(self)@ && final(self).wf(),
    {
        let ghost fin = *final(self);
        let r = match self.buffers.entry(id) {
            Entry::Occupied(o) => Some(o.into_mut()),
            Entry::Vacant(_) => None,
        };
        proof {
            if r is Some {
                Self::lemma_replace_queue(*old(self), fin, id, *final(r->0));
            } else {
                assert(old(self).buffers@.remove(id) =~= old(self).buffers@);
            }
        }
        r
    }

    /// Replacing the queue of a registered kind keeps the storage well formed when the new
    /// queue is, and changes only that kind's events.
    proof fn lemma_replace_queue(s: Self, t: Self, id: EventId, v: Events<E>)
        requires
            s.wf(),
            s.buffers@.contains_key(id),
            t.registry == s.registry,
            t.buffers@ == s.buffers@.insert(id, v),
        ensures
            v.wf() ==> t.wf(),
            t@ == s@.insert(id, v@),
    {
        assert(t.buffers@.dom() =~= s.buffers@.dom());
        assert(t@ =~= s@.insert(id, v@));
    }

    /// Advances every queue: each ends with an empty current buffer.
    pub fn update_all(&mut self)
        requires
            old(self).wf(),
        ensures
            final(self).wf(),
            final(self)@.dom() == old(self)@.dom(),
            forall|id: EventId| #[trigger] final(self)@.contains_key(id) ==> final(self)@[id] == Seq::<E>::empty(),
    {
        let mut i: usize = 0;
        while i < self.registry.registered.len()
            invariant
                self.wf(),
                self.registry@ == old(self).registry@,
                self.buffers@.dom() == old(self).buffers@.dom(),
                0 <= i <= self.registry@.len(),
                forall|k: int| 0 <= k < i ==> #[trigger] self.buffers@[self.registry@[k]]@ == Seq::<E>::empty(),
            decreases self.registry@.len() - i,
        {
            let id = self.registry.registered[i];
            let ghost before = self.buffers@;
            proof {
                assert(self.registry@.to_set().contains(id));
            }
            match self.buffers.entry(id) {
                Entry::Occupied(mut o) => {
                    o.get_mut().update();
                },
                Entry::Vacant(_) => {},
            }
            proof {
                assert(self.buffers@.dom() =~= before.dom());
                assert forall|k: int| 0 <= k < i + 1 implies #[trigger] self.buffers@[self.registry@[k]]@ == Seq::<E>::empty() by {
                    if k < i {
                        assert(self.registry@[k] != id);
                    }
                }
            }
            i = i + 1;
        }
        proof {
            assert forall|id: EventId| #[trigger] self@.contains_key(id) implies self@[id] == Seq::<E>::empty() by {
                assert(self.registry@.to_set().contains(id));
                let k = choose|k: int| 0 <= k < self.registry@.len() && self.registry@[k] == id;
                assert(self.buffers@[self.registry@[k]]@ == Seq::<E>::empty());
            }
            assert(self@.dom() =~= old(self)@.dom());
        }
    }

    pub fn is_registered(&self, id: EventId) -> (b: bool)
        requires
            self.wf(),
        ensures
            b == self@.contains_key(id),
    {
        proof {
            assert(self.registry@.contains(id) == self.registry@.to_set().contains(id));
        }
        self.registry.is_registered(id)
    }
}

impl<E> Default for EventStorage<E> {
    fn default() -> (s: Self)
        ensures
            s.wf(),
            s@ == Map::<EventId, Seq<E>>::empty(),
    {
        Self::new()
    }
}

} // verus!

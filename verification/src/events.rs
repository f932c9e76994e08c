//! The event system: prioritised event queues and the handlers they are
//! delivered to.
use vstd::prelude::*;
use crate::error::{NovaError, NovaResult};
use crate::ids::{id_string, id_text, new_id};

verus! {

/// An event that can be dispatched through the event system.
pub trait Event {
    /// Whether `k` is the name of the event's kind. An event that says nothing
    /// of itself may report any name.
    open spec fn kind_is(&self, k: Seq<char>) -> bool {
        true
    }

    /// The name of the event's kind; handlers registered for that name receive it.
    fn event_type(&self) -> (k: &'static str)
        ensures
            self.kind_is(k@),
    ;
}

/// A handler of events of type `E`.
pub trait EventHandler<E> {
    /// Whether `r` is a result the handler may give for the event. A handler
    /// that says nothing of itself may give any result.
    open spec fn gives(&self, event: &E, r: NovaResult<()>) -> bool {
        true
    }

    fn handle(&self, event: &E) -> (r: NovaResult<()>)
        ensures
            self.gives(event, r),
    ;
}

/// Event priority levels, from the lowest to the highest.
#[derive(Debug, Clone, Copy, PartialEq, Eq, PartialOrd, Ord, Hash)]
pub enum EventPriority {
    Low,
    Normal,
    High,
    Critical,
    Immediate,
}

impl EventPriority {
    /// The numeric level of a priority (`Low` is 0, `Immediate` is 4).
    pub open spec fn level(self) -> nat {
        match self {
            EventPriority::Low => 0,
            EventPriority::Normal => 1,
            EventPriority::High => 2,
            EventPriority::Critical => 3,
            EventPriority::Immediate => 4,
        }
    }

    pub fn index(self) -> (i: usize)
        ensures
            i == self.level(),
    {
        match self {
            EventPriority::Low => 0,
            EventPriority::Normal => 1,
            EventPriority::High => 2,
            EventPriority::Critical => 3,
            EventPriority::Immediate => 4,
        }
    }
}

/// An event waiting in a queue, with the kind it reported when dispatched.
pub struct QueuedEvent<E> {
    pub kind: String,
    pub event: E,
}

/// A registered handler and the kind of events it receives.
pub struct HandlerEntry<H> {
    pub id: u128,
    pub kind: String,
    pub handler: H,
}

/// Counters of the event system.
#[derive(Debug, Clone, Copy, PartialEq, Eq, Default)]
pub struct EventStats {
    pub events_dispatched: u64,
    pub events_handled: u64,
    pub events_dropped: u64,
}

/// Events taken from the queues `0..n`, the highest priority first and, within
/// one priority, in the order in which they were dispatched.
pub open spec fn drain_order<X>(qs: Seq<Seq<X>>, n: int) -> Seq<X>
    decreases n,
{
    if n <= 0 {
        Seq::empty()
    } else {
        qs[n - 1] + drain_order(qs, n - 1)
    }
}

/// How many of the handlers are registered for the given kind.
pub open spec fn matching_handlers<H>(hs: Seq<HandlerEntry<H>>, kind: Seq<char>) -> nat
    decreases hs.len(),
{
    if hs.len() == 0 {
        0
    } else {
        (if hs[0].kind@ == kind {
            1nat
        } else {
            0nat
        }) + matching_handlers(hs.drop_first(), kind)
    }
}

/// How many handler calls delivering the events to the handlers takes.
pub open spec fn deliveries<E, H>(evs: Seq<QueuedEvent<E>>, hs: Seq<HandlerEntry<H>>) -> nat
    decreases evs.len(),
{
    if evs.len() == 0 {
        0
    } else {
        matching_handlers(hs, evs[0].kind@) + deliveries(evs.drop_first(), hs)
    }
}

/// Whether `outs` are the results of handing an event of kind `kind` to the
/// handlers `hs`: one result per handler registered for that kind, in
/// registration order, each one a result that its handler may give.
pub open spec fn handler_results<E, H: EventHandler<E>>(
    event: E,
    kind: Seq<char>,
    hs: Seq<HandlerEntry<H>>,
    outs: Seq<NovaResult<()>>,
) -> bool
    decreases hs.len(),
{
    if hs.len() == 0 {
        outs.len() == 0
    } else if hs.last().kind@ == kind {
        &&& outs.len() > 0
        &&& hs.last().handler.gives(&event, outs.last())
        &&& handler_results(event, kind, hs.drop_last(), outs.drop_last())
    } else {
        handler_results(event, kind, hs.drop_last(), outs)
    }
}

/// Whether `outs[i]` are the handler results of the `i`-th event, for each event.
pub open spec fn delivery_results<E, H: EventHandler<E>>(
    evs: Seq<QueuedEvent<E>>,
    hs: Seq<HandlerEntry<H>>,
    outs: Seq<Seq<NovaResult<()>>>,
) -> bool {
    &&& outs.len() == evs.len()
    &&& forall|i: int| 0 <= i < evs.len() ==> handler_results(evs[i].event, evs[i].kind@, hs, #[trigger] outs[i])
}

/// How many of the results are `Ok`.
pub open spec fn ok_count(outs: Seq<NovaResult<()>>) -> nat
    decreases outs.len(),
{
    if outs.len() == 0 {
        0
    } else {
        ok_count(outs.drop_last()) + if outs.last() is Ok {
            1nat
        } else {
            0nat
        }
    }
}

/// How many of the results, over all events, are `Ok`.
pub open spec fn total_ok(outs: Seq<Seq<NovaResult<()>>>) -> nat
    decreases outs.len(),
{
    if outs.len() == 0 {
        0
    } else {
        total_ok(outs.drop_last()) + ok_count(outs.last())
    }
}

/// The queue after an event is added when `max` events fit in it: the oldest
/// event leaves a full queue first.
pub open spec fn enqueue<X>(q: Seq<X>, x: X, max: nat) -> Seq<X> {
    if q.len() >= max {
        q.drop_first().push(x)
    } else {
        q.push(x)
    }
}

/// The event system: one queue per priority level, and the registered handlers.
pub struct EventSystem<E, H> {
    queues: Vec<Vec<QueuedEvent<E>>>,
    handlers: Vec<HandlerEntry<H>>,
    max_queue_size: usize,
    priority_levels: usize,
    stats: EventStats,
}

impl<E, H> EventSystem<E, H> {
    /// The events waiting at each priority level, in dispatch order.
    pub closed spec fn queues_view(&self) -> Seq<Seq<QueuedEvent<E>>> {
        self.queues@.map_values(|q: Vec<QueuedEvent<E>>| q@)
    }

    /// The registered handlers, in registration order.
    pub closed spec fn handlers_view(&self) -> Seq<HandlerEntry<H>> {
        self.handlers@
    }

    pub closed spec fn capacity(&self) -> nat {
        self.max_queue_size as nat
    }

    pub closed spec fn levels(&self) -> nat {
        self.priority_levels as nat
    }

    pub closed spec fn stats_view(&self) -> EventStats {
        self.stats
    }

    /// The events in the order in which processing takes them.
    pub open spec fn pending(&self) -> Seq<QueuedEvent<E>> {
        drain_order(self.queues_view(), self.levels() as int)
    }

    pub closed spec fn wf(&self) -> bool {
        &&& self.queues@.len() == self.priority_levels
        &&& forall|p: int|
            0 <= p < self.queues@.len() ==> #[trigger] self.queues@[p]@.len()
                <= self.max_queue_size
    }

    /// A new event system with `priority_levels` empty queues of
    /// `max_queue_size` events each.
    pub fn new(max_queue_size: usize, priority_levels: usize) -> (s: Self)
        ensures
            s.wf(),
            s.capacity() == max_queue_size,
            s.levels() == priority_levels,
            s.queues_view() == Seq::new(priority_levels as nat, |p: int| Seq::<QueuedEvent<E>>::empty()),
            s.handlers_view() == Seq::<HandlerEntry<H>>::empty(),
            s.stats_view() == (EventStats { events_dispatched: 0, events_handled: 0, events_dropped: 0 }),
    {
        let mut queues: Vec<Vec<QueuedEvent<E>>> = Vec::new();
        let mut i: usize = 0;
        while i < priority_levels
            invariant
                i <= priority_levels,
                queues@.len() == i,
                forall|p: int| 0 <= p < i ==> (#[trigger] queues@[p])@.len() == 0,
            decreases priority_levels - i,
        {
            queues.push(Vec::new());
            i = i + 1;
        }
        let s = EventSystem {
            queues,
            handlers: Vec::new(),
            max_queue_size,
            priority_levels,
            stats: EventStats { events_dispatched: 0, events_handled: 0, events_dropped: 0 },
        };
        assert forall|p: int| 0 <= p < priority_levels implies s.queues@[p]@ =~= Seq::<QueuedEvent<E>>::empty() by {
            assert(s.queues@[p]@.len() == 0);
        }
        assert(s.queues_view() =~= Seq::new(priority_levels as nat, |p: int| Seq::<QueuedEvent<E>>::empty()));
        s
    }

    /// Registers a handler for events of the given kind; returns its new id.
    pub fn register_handler(&mut self, event_type: &str, handler: H) -> (id: u128)
        requires
            old(self).wf(),
        ensures
            final(self).wf(),
            final(self).handlers_view().len() == old(self).handlers_view().len() + 1,
            final(self).handlers_view().drop_last() == old(self).handlers_view(),
            final(self).handlers_view().last().id == id,
            final(self).handlers_view().last().kind@ == event_type@,
            final(self).handlers_view().last().handler == handler,
            final(self).queues_view() == old(self).queues_view(),
            final(self).capacity() == old(self).capacity(),
            final(self).levels() == old(self).levels(),
            final(self).stats_view() == old(self).stats_view(),
    {
        let id = new_id();
        let entry = HandlerEntry { id, kind: String::from_str(event_type), handler };
        self.handlers.push(entry);
        assert(self.handlers_view().drop_last() =~= old(self).handlers_view());
        id
    }

    /// Removes the first registered handler with the given id.
    pub fn unregister_handler(&mut self, handler_id: u128) -> (r: NovaResult<()>)
        requires
            old(self).wf(),
        ensures
            final(self).wf(),
            final(self).queues_view() == old(self).queues_view(),
            final(self).capacity() == old(self).capacity(),
            final(self).levels() == old(self).levels(),
            final(self).stats_view() == old(self).stats_view(),
            match r {
                Ok(()) => exists|i: int|
                    0 <= i < old(self).handlers_view().len()
                        && (#[trigger] old(self).handlers_view()[i]).id == handler_id
                        && (forall|j: int| 0 <= j < i ==> old(self).handlers_view()[j].id != handler_id)
                        && final(self).handlers_view() == old(self).handlers_view().remove(i),
                Err(e) => {
                    &&& forall|i: int|
                        0 <= i < old(self).handlers_view().len()
                            ==> (#[trigger] old(self).handlers_view()[i]).id != handler_id
                    &&& final(self).handlers_view() == old(self).handlers_view()
                    &&& e is Event
                    &&& e->Event_0@ == "Handler "@ + id_text(handler_id) + " not found"@
                },
            },
    {
        let mut i: usize = 0;
        while i < self.handlers.len()
            invariant
                i <= self.handlers@.len(),
                self.handlers@ == old(self).handlers@,
                self.queues == old(self).queues,
                self.max_queue_size == old(self).max_queue_size,
                self.priority_levels == old(self).priority_levels,
                self.stats == old(self).stats,
                self.wf(),
                forall|j: int| 0 <= j < i ==> self.handlers@[j].id != handler_id,
            decreases self.handlers@.len() - i,
        {
            if self.handlers[i].id == handler_id {
                self.handlers.remove(i);
                assert(old(self).handlers_view()[i as int].id == handler_id);
                return Ok(());
            }
            i = i + 1;
        }
        let text = id_string(handler_id);
        let msg = String::from_str("Handler ").concat(text.as_str()).concat(" not found");
        Err(NovaError::Event(msg))
    }

    /// Takes every waiting event out of the queues, in processing order.
    pub fn drain_events(&mut self) -> (evs: Vec<QueuedEvent<E>>)
        requires
            old(self).wf(),
        ensures
            final(self).wf(),
            evs@ == old(self).pending(),
            final(self).queues_view() == Seq::new(old(self).levels(), |p: int| Seq::<QueuedEvent<E>>::empty()),
            final(self).handlers_view() == old(self).handlers_view(),
            final(self).capacity() == old(self).capacity(),
            final(self).levels() == old(self).levels(),
            final(self).stats_view() == old(self).stats_view(),
    {
        let mut fresh: Vec<Vec<QueuedEvent<E>>> = Vec::new();
        let mut i: usize = 0;
        while i < self.priority_levels
            invariant
                i <= self.priority_levels,
                fresh@.len() == i,
                forall|p: int| 0 <= p < i ==> (#[trigger] fresh@[p])@.len() == 0,
            decreases self.priority_levels - i,
        {
            fresh.push(Vec::new());
            i = i + 1;
        }
        let ghost orig = old(self).queues_view();
        let mut rest = fresh;
        std::mem::swap(&mut rest, &mut self.queues);
        let mut out: Vec<QueuedEvent<E>> = Vec::new();
        assert(rest@.map_values(|q: Vec<QueuedEvent<E>>| q@) =~= orig);
        while rest.len() > 0
            invariant
                rest@.len() <= orig.len(),
                orig.len() == self.priority_levels,
                forall|p: int| 0 <= p < rest@.len() ==> (#[trigger] rest@[p])@ == orig[p],
                out@ + drain_order(orig, rest@.len() as int) == drain_order(orig, orig.len() as int),
                self.queues@.len() == self.priority_levels,
                forall|p: int| 0 <= p < self.queues@.len() ==> (#[trigger] self.queues@[p])@.len() == 0,
            decreases rest@.len(),
        {
            let n = rest.len();
            let mut q = rest.pop().unwrap();
            assert(q@ == orig[n - 1]);
            assert(drain_order(orig, n as int) == orig[n - 1] + drain_order(orig, n - 1));
            out.append(&mut q);
            assert(out@ + drain_order(orig, rest@.len() as int) =~= drain_order(orig, orig.len() as int));
        }
        assert(out@ =~= drain_order(orig, orig.len() as int));
        assert forall|p: int| 0 <= p < self.priority_levels implies self.queues@[p]@ =~= Seq::<QueuedEvent<E>>::empty() by {
            assert(self.queues@[p]@.len() == 0);
        }
        assert(self.queues_view() =~= Seq::new(old(self).levels(), |p: int| Seq::<QueuedEvent<E>>::empty()));
        out
    }

    pub fn max_queue_size(&self) -> (n: usize)
        ensures
            n == self.capacity(),
    {
        self.max_queue_size
    }

    pub fn priority_levels(&self) -> (n: usize)
        ensures
            n == self.levels(),
    {
        self.priority_levels
    }

    /// The number of waiting events.
    pub fn pending_count(&self) -> (n: u128)
        requires
            self.wf(),
        ensures
            n == self.pending().len(),
    {
        let ghost qv = self.queues_view();
        let mut total: u128 = 0;
        let mut p: usize = 0;
        assert(drain_order(qv, 0) == Seq::<QueuedEvent<E>>::empty());
        while p < self.queues.len()
            invariant
                p <= self.queues@.len(),
                qv == self.queues_view(),
                qv.len() == self.queues@.len(),
                total == drain_order(qv, p as int).len(),
                total <= p * 0x1_0000_0000_0000_0000,
            decreases self.queues@.len() - p,
        {
            assert(qv[p as int] == self.queues@[p as int]@);
            assert(drain_order(qv, p + 1) == qv[p as int] + drain_order(qv, p as int));
            let l = self.queues[p].len();
            assert(p * 0x1_0000_0000_0000_0000 + l <= (p + 1) * 0x1_0000_0000_0000_0000) by (nonlinear_arith)
                requires
                    l <= 0xffff_ffff_ffff_ffff,
            ;
            assert((p + 1) * 0x1_0000_0000_0000_0000 <= 0x1_0000_0000_0000_0000 * 0x1_0000_0000_0000_0000) by (nonlinear_arith)
                requires
                    p + 1 <= 0xffff_ffff_ffff_ffff + 1,
            ;
            total = total + l as u128;
            p = p + 1;
        }
        total
    }

    /// The counters of the event system.
    pub fn get_stats(&self) -> (s: EventStats)
        ensures
            s == self.stats_view(),
    {
        self.stats
    }

    /// Empties every queue and sets every counter back to zero.
    pub fn clear(&mut self)
        requires
            old(self).wf(),
        ensures
            final(self).wf(),
            final(self).queues_view() == Seq::new(old(self).levels(), |p: int| Seq::<QueuedEvent<E>>::empty()),
            final(self).handlers_view() == old(self).handlers_view(),
            final(self).capacity() == old(self).capacity(),
            final(self).levels() == old(self).levels(),
            final(self).stats_view() == (EventStats { events_dispatched: 0, events_handled: 0, events_dropped: 0 }),
    {
        let _ = self.drain_events();
        self.stats = EventStats { events_dispatched: 0, events_handled: 0, events_dropped: 0 };
    }
}

impl<E: Event, H> EventSystem<E, H> {
    /// Queues an event at the given priority. A full queue first loses its
    /// oldest event, which is counted as dropped.
    pub fn dispatch_with_priority(&mut self, event: E, priority: EventPriority) -> (r: NovaResult<()>)
        requires
            old(self).wf(),
            priority.level() < old(self).levels() ==> old(self).capacity() > 0,
            priority.level() < old(self).levels() && old(self).queues_view()[priority.level() as int].len() >= old(self).capacity()
                ==> old(self).stats_view().events_dropped < u64::MAX,
        ensures
            final(self).wf(),
            final(self).handlers_view() == old(self).handlers_view(),
            final(self).capacity() == old(self).capacity(),
            final(self).levels() == old(self).levels(),
            priority.level() >= old(self).levels() ==> {
                &&& r == Err::<(), NovaError>(NovaError::Event(r->Err_0->Event_0))
                &&& r->Err_0->Event_0@ == "Invalid priority level"@
                &&& final(self).queues_view() == old(self).queues_view()
                &&& final(self).stats_view() == old(self).stats_view()
            },
            priority.level() < old(self).levels() ==> {
                let p = priority.level() as int;
                let q = old(self).queues_view()[p];
                &&& r is Ok
                &&& final(self).queues_view().len() == old(self).queues_view().len()
                &&& forall|i: int| 0 <= i < old(self).queues_view().len() && i != p
                    ==> #[trigger] final(self).queues_view()[i] == old(self).queues_view()[i]
                &&& final(self).queues_view()[p].len() == enqueue(q, final(self).queues_view()[p].last(), old(self).capacity()).len()
                &&& final(self).queues_view()[p] == enqueue(q, final(self).queues_view()[p].last(), old(self).capacity())
                &&& final(self).queues_view()[p].last().event == event
                &&& event.kind_is(final(self).queues_view()[p].last().kind@)
                &&& final(self).stats_view() == (EventStats {
                    events_dropped: if q.len() >= old(self).capacity() {
                        (old(self).stats_view().events_dropped + 1) as u64
                    } else {
                        old(self).stats_view().events_dropped
                    },
                    ..old(self).stats_view()
                })
            },
    {
        let p = priority.index();
        if p >= self.priority_levels {
            return Err(NovaError::event("Invalid priority level"));
        }
        let kind = String::from_str(event.event_type());
        let mut q: Vec<QueuedEvent<E>> = Vec::new();
        self.queues.set_and_swap(p, &mut q);
        let ghost q0 = q@;
        if q.len() >= self.max_queue_size {
            q.remove(0);
            self.stats.events_dropped = self.stats.events_dropped + 1;
        }
        q.push(QueuedEvent { kind, event });
        self.queues.set_and_swap(p, &mut q);
        proof {
            let qv = self.queues_view();
            assert(qv[p as int] == self.queues@[p as int]@);
            if q0.len() >= self.max_queue_size {
                assert(qv[p as int] =~= q0.drop_first().push(qv[p as int].last()));
            } else {
                assert(qv[p as int] =~= q0.push(qv[p as int].last()));
            }
            assert forall|i: int| 0 <= i < old(self).queues_view().len() && i != p
                implies #[trigger] qv[i] == old(self).queues_view()[i] by {
                assert(self.queues@[i] == old(self).queues@[i]);
            }
        }
        Ok(())
    }

    /// Queues an event at `Normal` priority.
    pub fn dispatch(&mut self, event: E) -> (r: NovaResult<()>)
        requires
            old(self).wf(),
            old(self).levels() > 1 ==> old(self).capacity() > 0,
            old(self).levels() > 1 && old(self).queues_view()[1].len() >= old(self).capacity()
                ==> old(self).stats_view().events_dropped < u64::MAX,
        ensures
            final(self).wf(),
            final(self).handlers_view() == old(self).handlers_view(),
            final(self).capacity() == old(self).capacity(),
            final(self).levels() == old(self).levels(),
            old(self).levels() <= 1 ==> {
                &&& r == Err::<(), NovaError>(NovaError::Event(r->Err_0->Event_0))
                &&& r->Err_0->Event_0@ == "Invalid priority level"@
                &&& final(self).queues_view() == old(self).queues_view()
                &&& final(self).stats_view() == old(self).stats_view()
            },
            old(self).levels() > 1 ==> {
                let q = old(self).queues_view()[1];
                &&& r is Ok
                &&& forall|i: int| 0 <= i < old(self).queues_view().len() && i != 1
                    ==> #[trigger] final(self).queues_view()[i] == old(self).queues_view()[i]
                &&& final(self).queues_view().len() == old(self).queues_view().len()
                &&& final(self).queues_view()[1] == enqueue(q, final(self).queues_view()[1].last(), old(self).capacity())
                &&& final(self).queues_view()[1].last().event == event
                &&& event.kind_is(final(self).queues_view()[1].last().kind@)
                &&& final(self).stats_view().events_dispatched == old(self).stats_view().events_dispatched
                &&& final(self).stats_view().events_handled == old(self).stats_view().events_handled
                &&& final(self).stats_view().events_dropped == if q.len() >= old(self).capacity() {
                        (old(self).stats_view().events_dropped + 1) as u64
                    } else {
                        old(self).stats_view().events_dropped
                    }
            },
    {
        self.dispatch_with_priority(event, EventPriority::Normal)
    }
}

impl<E, H> EventSystem<E, H> {
    /// How many handler calls processing the waiting events would make,
    /// counted up to `cap`.
    fn deliveries_capped(&self, cap: u128) -> (n: u128)
        requires
            self.wf(),
            cap <= 0x1_0000_0000_0000_0000,
        ensures
            n == if deliveries(self.pending(), self.handlers@) < cap {
                deliveries(self.pending(), self.handlers@)
            } else {
                cap as nat
            },
    {
        let ghost pend = self.pending();
        let ghost hs = self.handlers@;
        let mut acc: u128 = 0;
        assert(pend == drain_order(self.queues_view(), self.queues@.len() as int));
        proof {
            assert(drain_order(self.queues_view(), 0) == Seq::<QueuedEvent<E>>::empty());
            lemma_deliveries_split(Seq::<QueuedEvent<E>>::empty(), Seq::<QueuedEvent<E>>::empty(), hs);
        }
        let mut lower: usize = 0;
        while lower < self.queues.len()
            invariant
                lower <= self.queues@.len(),
                self.queues@.len() == self.priority_levels,
                hs == self.handlers@,
                cap <= 0x1_0000_0000_0000_0000,
                acc == if deliveries(drain_order(self.queues_view(), lower as int), hs) < cap {
                    deliveries(drain_order(self.queues_view(), lower as int), hs)
                } else {
                    cap as nat
                },
            decreases self.queues@.len() - lower,
        {
            let q = &self.queues[lower];
            let qc = self.count_deliveries(q, cap);
            proof {
                assert(self.queues_view()[lower as int] == q@);
                assert(drain_order(self.queues_view(), lower + 1) == q@ + drain_order(self.queues_view(), lower as int));
                lemma_deliveries_split(q@, drain_order(self.queues_view(), lower as int), hs);
            }
            let sum = acc + qc;
            acc = if sum >= cap { cap } else { sum };
            lower = lower + 1;
        }
        acc
    }

    fn count_deliveries(&self, q: &Vec<QueuedEvent<E>>, cap: u128) -> (n: u128)
        requires
            cap <= 0x1_0000_0000_0000_0000,
        ensures
            n == if deliveries(q@, self.handlers@) < cap {
                deliveries(q@, self.handlers@)
            } else {
                cap as nat
            },
    {
        let ghost hs = self.handlers@;
        let mut acc: u128 = 0;
        let mut i: usize = q.len();
        assert(q@.subrange(q@.len() as int, q@.len() as int) =~= Seq::<QueuedEvent<E>>::empty());
        while i > 0
            invariant
                i <= q@.len(),
                hs == self.handlers@,
                cap <= 0x1_0000_0000_0000_0000,
                acc == if deliveries(q@.subrange(i as int, q@.len() as int), hs) < cap {
                    deliveries(q@.subrange(i as int, q@.len() as int), hs)
                } else {
                    cap as nat
                },
            decreases i,
        {
            let ghost t = q@.subrange(i - 1, q@.len() as int);
            assert(t.drop_first() =~= q@.subrange(i as int, q@.len() as int));
            assert(t[0] == q@[i - 1]);
            let m = self.count_matching(&q[i - 1].kind);
            let sum = acc + m as u128;
            acc = if sum >= cap { cap } else { sum };
            i = i - 1;
        }
        assert(q@.subrange(0, q@.len() as int) =~= q@);
        acc
    }

    fn count_matching(&self, kind: &String) -> (n: usize)
        ensures
            n == matching_handlers(self.handlers@, kind@),
    {
        let ghost hs = self.handlers@;
        let mut n: usize = 0;
        let len = self.handlers.len();
        let mut j: usize = len;
        assert(hs.subrange(hs.len() as int, hs.len() as int) =~= Seq::<HandlerEntry<H>>::empty());
        while j > 0
            invariant
                j <= hs.len(),
                hs == self.handlers@,
                len == hs.len(),
                n == matching_handlers(hs.subrange(j as int, hs.len() as int), kind@),
                n <= hs.len() - j,
            decreases j,
        {
            let ghost t = hs.subrange(j - 1, hs.len() as int);
            assert(t.drop_first() =~= hs.subrange(j as int, hs.len() as int));
            assert(t[0] == hs[j - 1]);
            if self.handlers[j - 1].kind == *kind {
                n = n + 1;
            }
            j = j - 1;
        }
        assert(hs.subrange(0, hs.len() as int) =~= hs);
        n
    }

    /// Whether processing the waiting events keeps the counters within range.
    pub fn counters_fit(&self) -> (b: bool)
        requires
            self.wf(),
        ensures
            b == (self.stats_view().events_dispatched + self.pending().len() <= u64::MAX
                && self.stats_view().events_handled + deliveries(self.pending(), self.handlers_view()) <= u64::MAX),
    {
        let cap: u128 = 0x1_0000_0000_0000_0000;
        let pending = self.pending_count();
        let calls = self.deliveries_capped(cap);
        pending <= u64::MAX as u128 && self.stats.events_dispatched as u128 + pending <= u64::MAX as u128
            && self.stats.events_handled as u128 + calls <= u64::MAX as u128
    }
}

/// Deliveries of two runs of events add up.
pub proof fn lemma_deliveries_split<E, H>(a: Seq<QueuedEvent<E>>, b: Seq<QueuedEvent<E>>, hs: Seq<HandlerEntry<H>>)
    ensures
        deliveries(a + b, hs) == deliveries(a, hs) + deliveries(b, hs),
    decreases a.len(),
{
    if a.len() == 0 {
        assert(a + b =~= b);
    } else {
        lemma_deliveries_split(a.drop_first(), b, hs);
        assert((a + b).drop_first() =~= a.drop_first() + b);
        assert((a + b)[0] == a[0]);
    }
}

impl<E, H: EventHandler<E>> EventSystem<E, H> {
    /// Delivers every waiting event, the highest priority first, to each handler
    /// registered for its kind, in registration order. A handler that fails
    /// does not stop the delivery; each one that succeeds is counted as handled.
    pub fn process_events(&mut self) -> (r: NovaResult<()>)
        requires
            old(self).wf(),
            old(self).stats_view().events_dispatched + old(self).pending().len() <= u64::MAX,
            old(self).stats_view().events_handled + deliveries(
                old(self).pending(),
                old(self).handlers_view(),
            ) <= u64::MAX,
        ensures
            final(self).wf(),
            r is Ok,
            final(self).queues_view() == Seq::new(old(self).levels(), |p: int| Seq::<QueuedEvent<E>>::empty()),
            final(self).handlers_view() == old(self).handlers_view(),
            final(self).capacity() == old(self).capacity(),
            final(self).levels() == old(self).levels(),
            final(self).stats_view().events_dispatched == old(self).stats_view().events_dispatched
                + old(self).pending().len(),
            final(self).stats_view().events_dropped == old(self).stats_view().events_dropped,
            old(self).stats_view().events_handled <= final(self).stats_view().events_handled,
            final(self).stats_view().events_handled <= old(self).stats_view().events_handled
                + deliveries(old(self).pending(), old(self).handlers_view()),
            exists|outs: Seq<Seq<NovaResult<()>>>|
                delivery_results(old(self).pending(), old(self).handlers_view(), outs)
                && #[trigger] total_ok(outs) + old(self).stats_view().events_handled
                    == final(self).stats_view().events_handled,
    {
        let events = self.drain_events();
        let ghost hs = self.handlers@;
        let ghost base = self.stats.events_handled;
        let ghost mut outs_all: Seq<Seq<NovaResult<()>>> = Seq::empty();
        let mut i: usize = 0;
        assert(events@.subrange(0, events@.len() as int) =~= events@);
        while i < events.len()
            invariant
                self.wf(),
                i <= events@.len(),
                events@ == old(self).pending(),
                self.handlers@ == hs,
                hs == old(self).handlers_view(),
                self.queues_view() == Seq::new(old(self).levels(), |p: int| Seq::<QueuedEvent<E>>::empty()),
                self.max_queue_size == old(self).capacity(),
                self.priority_levels == old(self).levels(),
                self.stats.events_dispatched == old(self).stats_view().events_dispatched,
                self.stats.events_dropped == old(self).stats_view().events_dropped,
                base == old(self).stats_view().events_handled,
                base <= self.stats.events_handled,
                self.stats.events_handled + deliveries(events@.subrange(i as int, events@.len() as int), hs)
                    <= base + deliveries(events@, hs),
                base + deliveries(events@, hs) <= u64::MAX,
                outs_all.len() == i,
                forall|k: int| 0 <= k < i ==> handler_results(events@[k].event, events@[k].kind@, hs, #[trigger] outs_all[k]),
                self.stats.events_handled == base + total_ok(outs_all),
            decreases events@.len() - i,
        {
            proof {
                let tail = events@.subrange(i as int, events@.len() as int);
                assert(tail.drop_first() =~= events@.subrange(i + 1, events@.len() as int));
            }
            let ev = &events[i];
            let mut j: usize = 0;
            let ghost before = self.stats.events_handled;
            let ghost mut cur: Seq<NovaResult<()>> = Seq::empty();
            assert(hs.subrange(0, hs.len() as int) =~= hs);
            assert(hs.subrange(0, 0) =~= Seq::<HandlerEntry<H>>::empty());
            while j < self.handlers.len()
                invariant
                    self.wf(),
                    i < events@.len(),
                    j <= hs.len(),
                    *ev == events@[i as int],
                    self.handlers@ == hs,
                    self.queues_view() == Seq::new(old(self).levels(), |p: int| Seq::<QueuedEvent<E>>::empty()),
                    self.max_queue_size == old(self).capacity(),
                    self.priority_levels == old(self).levels(),
                    self.stats.events_dispatched == old(self).stats_view().events_dispatched,
                    self.stats.events_dropped == old(self).stats_view().events_dropped,
                    before <= self.stats.events_handled,
                    self.stats.events_handled + matching_handlers(hs.subrange(j as int, hs.len() as int), ev.kind@)
                        <= before + matching_handlers(hs, ev.kind@),
                    before + matching_handlers(hs, ev.kind@) <= u64::MAX,
                    handler_results(ev.event, ev.kind@, hs.subrange(0, j as int), cur),
                    self.stats.events_handled == before + ok_count(cur),
                decreases hs.len() - j,
            {
                proof {
                    let tail = hs.subrange(j as int, hs.len() as int);
                    assert(tail.drop_first() =~= hs.subrange(j + 1, hs.len() as int));
                    assert(tail[0] == hs[j as int]);
                    let pre = hs.subrange(0, j + 1);
                    assert(pre.drop_last() =~= hs.subrange(0, j as int));
                    assert(pre.last() == hs[j as int]);
                }
                let ghost pre = hs.subrange(0, j + 1);
                let entry = &self.handlers[j];
                if entry.kind == ev.kind {
                    let res = entry.handler.handle(&ev.event);
                    let ghost prev = cur;
                    proof {
                        cur = cur.push(res);
                        assert(cur.drop_last() =~= prev);
                        assert(cur.last() == res);
                        assert(pre.last().kind@ == ev.kind@);
                        assert(handler_results(ev.event, ev.kind@, pre, cur));
                    }
                    match res {
                        Ok(()) => {
                            self.stats.events_handled = self.stats.events_handled + 1;
                        },
                        Err(_) => {},
                    }
                    assert(ok_count(cur) == ok_count(prev) + if res is Ok { 1nat } else { 0nat });
                } else {
                    assert(pre.last().kind@ != ev.kind@);
                    assert(handler_results(ev.event, ev.kind@, pre, cur));
                }
                j = j + 1;
            }
            proof {
                assert(hs.subrange(hs.len() as int, hs.len() as int) =~= Seq::<HandlerEntry<H>>::empty());
                let old_all = outs_all;
                outs_all = outs_all.push(cur);
                assert(outs_all.drop_last() =~= old_all);
                assert forall|k: int| 0 <= k < i + 1 implies handler_results(events@[k].event, events@[k].kind@, hs, #[trigger] outs_all[k]) by {
                    if k < i {
                        assert(outs_all[k] == old_all[k]);
                    }
                }
            }
            i = i + 1;
        }
        proof {
            assert(events@.subrange(0, events@.len() as int) =~= events@);
        }
        self.stats.events_dispatched = self.stats.events_dispatched + events.len() as u64;
        assert(delivery_results(old(self).pending(), old(self).handlers_view(), outs_all));
        Ok(())
    }
}

/// A handler of events of type `E` that calls a closure.
pub struct SimpleEventHandler<E, F: Fn(&E) -> NovaResult<()>> {
    handler: F,
    _phantom: std::marker::PhantomData<E>,
}

impl<E, F: Fn(&E) -> NovaResult<()>> SimpleEventHandler<E, F> {
    #[verifier::type_invariant]
    closed spec fn callable(&self) -> bool {
        forall|e: &E| call_requires(self.handler, (e,))
    }

    /// A handler that calls `handler` on each event it receives.
    pub fn new(handler: F) -> (h: Self)
        requires
            forall|e: &E| call_requires(handler, (e,)),
        ensures
            h.closure() == handler,
    {
        SimpleEventHandler { handler, _phantom: std::marker::PhantomData }
    }

    pub closed spec fn closure(&self) -> F {
        self.handler
    }
}

impl<E, F: Fn(&E) -> NovaResult<()>> EventHandler<E> for SimpleEventHandler<E, F> {
    /// The results the closure may give for the event.
    open spec fn gives(&self, event: &E, r: NovaResult<()>) -> bool {
        call_ensures(self.closure(), (event,), r)
    }

    /// Calls the closure on the event and returns what it returns.
    fn handle(&self, event: &E) -> (r: NovaResult<()>)
        ensures
            call_ensures(self.closure(), (event,), r),
    {
        proof {
            use_type_invariant(self);
        }
        (self.handler)(event)
    }
}

/// Dispatched when the engine starts.
#[derive(Debug)]
pub struct EngineStartEvent;

impl Event for EngineStartEvent {
    open spec fn kind_is(&self, k: Seq<char>) -> bool {
        k == "engine_start"@
    }

    fn event_type(&self) -> (k: &'static str)
        ensures
            k@ == "engine_start"@,
    {
        "engine_start"
    }
}

/// Dispatched when the engine stops.
#[derive(Debug)]
pub struct EngineStopEvent;

impl Event for EngineStopEvent {
    open spec fn kind_is(&self, k: Seq<char>) -> bool {
        k == "engine_stop"@
    }

    fn event_type(&self) -> (k: &'static str)
        ensures
            k@ == "engine_stop"@,
    {
        "engine_stop"
    }
}

/// Dispatched when a plugin has been loaded.
#[derive(Debug)]
pub struct PluginLoadedEvent {
    pub plugin_name: String,
}

impl Event for PluginLoadedEvent {
    open spec fn kind_is(&self, k: Seq<char>) -> bool {
        k == "plugin_loaded"@
    }

    fn event_type(&self) -> (k: &'static str)
        ensures
            k@ == "plugin_loaded"@,
    {
        "plugin_loaded"
    }
}

/// No queue ever holds more events than the capacity the system was made with.
pub proof fn lemma_queues_within_capacity<E, H>(s: &EventSystem<E, H>)
    requires
        s.wf(),
    ensures
        s.queues_view().len() == s.levels(),
        forall|p: int| 0 <= p < s.queues_view().len() ==> (#[trigger] s.queues_view()[p]).len() <= s.capacity(),
{
    reveal_with_fuel(drain_order, 1);
    assert forall|p: int| 0 <= p < s.queues_view().len() implies (#[trigger] s.queues_view()[p]).len() <= s.capacity() by {
        assert(s.queues_view()[p] == s.queues@[p]@);
    }
}

/// Processing takes the events of a higher priority before those of a lower
/// one: the pending events are the queues concatenated from the highest level
/// down, each in dispatch order.
pub proof fn lemma_pending_order<X>(qs: Seq<Seq<X>>, n: int)
    requires
        0 < n <= qs.len(),
    ensures
        drain_order(qs, n) == qs[n - 1] + drain_order(qs, n - 1),
        drain_order(qs, n).len() == qs[n - 1].len() + drain_order(qs, n - 1).len(),
{
}

} // verus!

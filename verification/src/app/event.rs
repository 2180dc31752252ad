//! Events sent to the entities of an application, and the handlers that react to them.
use vstd::prelude::*;
use crate::collections::{PairIndexMap, UuidIndexMap, pair_index_entries, uuid_index_entries};
use crate::entities::entity_id::EntityId;
use crate::schedule::schedule::{
    Schedule, ScheduleSystem, lemma_unconstrained_no_pairs, lemma_unconstrained_schedulable, schedule_ran,
    unconstrained,
};
use crate::schedule::system_config::SystemConfig;
use crate::uuid::{TypeUuid, Uuid};

verus! {

/// An event that can be sent to an application.
pub trait Event: TypeUuid {}

/// An untyped event context that is passed to event handlers.
#[derive(Clone, Copy)]
pub struct RawEventContext {
    /// The original target entity of the event.
    pub target: EntityId,
    /// The entity that the event is being processed on; it differs from `target` once the
    /// event has traversed to another entity.
    pub current: EntityId,
    /// Whether the event should continue to propagate to other entities.
    pub propagate: bool,
}

/// An event context that is passed to event handlers: the event, with its context.
pub struct EventContext<E> {
    /// The context of the event.
    raw: RawEventContext,
    /// The event being processed.
    event: E,
}

impl<E> EventContext<E> {
    /// The context of the event.
    pub closed spec fn spec_raw(&self) -> RawEventContext {
        self.raw
    }

    /// The event being processed.
    pub closed spec fn spec_event(&self) -> E {
        self.event
    }

    /// Creates an event context from a raw context and its event.
    pub fn from_raw(raw: RawEventContext, event: E) -> (r: Self)
        ensures
            r.spec_raw() == raw,
            r.spec_event() == event,
    {
        EventContext { raw, event }
    }

    /// Splits the context into its raw context and its event.
    pub fn into_raw(self) -> (r: (RawEventContext, E))
        ensures
            r.0 == self.spec_raw(),
            r.1 == self.spec_event(),
    {
        (self.raw, self.event)
    }

    /// Returns the entity that is currently being processed.
    pub fn current_entity(&self) -> (r: EntityId)
        ensures
            r == self.spec_raw().current,
    {
        self.raw.current
    }

    /// Returns the target entity of the event.
    pub fn target_entity(&self) -> (r: EntityId)
        ensures
            r == self.spec_raw().target,
    {
        self.raw.target
    }

    /// Stops the event from propagating to other entities.
    pub fn stop_propagation(&mut self)
        ensures
            !final(self).spec_raw().propagate,
            final(self).spec_raw().target == old(self).spec_raw().target,
            final(self).spec_raw().current == old(self).spec_raw().current,
            final(self).spec_event() == old(self).spec_event(),
    {
        self.raw.propagate = false;
    }

    /// Returns a shorter-lived handle to this context.
    pub fn reborrow(&mut self) -> (r: &mut Self)
        ensures
            *r == *old(self),
            *final(self) == *final(r),
    {
        self
    }

    /// Returns the event.
    pub fn event(&self) -> (r: &E)
        ensures
            *r == self.spec_event(),
    {
        &self.event
    }

    /// Returns the event, for modification.
    pub fn event_mut(&mut self) -> (r: &mut E)
        ensures
            *r == old(self).spec_event(),
            final(self).spec_event() == *final(r),
            final(self).spec_raw() == old(self).spec_raw(),
    {
        &mut self.event
    }
}

/// The handlers of events: those scoped to an entity, and the global ones.
pub struct EventHandlers<H> {
    /// Maps the bits of an entity identifier and the value of an event identifier to the
    /// position of their schedule in `scoped`.
    scoped_index: PairIndexMap,
    /// The schedules of the handlers scoped to an entity, with their entity and event.
    scoped: Vec<(EntityId, Uuid, Schedule<H>)>,
    /// Maps the value of an event identifier to the position of its schedule in `global`.
    global_index: UuidIndexMap,
    /// The schedules of the global handlers, with their event.
    global: Vec<(Uuid, Schedule<H>)>,
}

/// The key under which the handlers of `event` scoped to `entity` are stored.
pub open spec fn scoped_key(entity: EntityId, event: Uuid) -> (u64, u128) {
    ((entity.spec_index() + entity.spec_generation() * 0x1_0000_0000) as u64, event.spec_value())
}

/// Distinct pairs of an entity and an event have distinct keys.
proof fn lemma_scoped_key_injective(a: EntityId, e: Uuid, b: EntityId, f: Uuid)
    ensures
        scoped_key(a, e) == scoped_key(b, f) <==> (a == b && e == f),
{
    EntityId::lemma_parts(a, b);
    Uuid::lemma_eq_iff_value(e, f);
    assert(a.spec_index() + a.spec_generation() * 0x1_0000_0000 < 0x1_0000_0000_0000_0000) by (nonlinear_arith)
        requires
            a.spec_index() < 0x1_0000_0000,
            a.spec_generation() < 0x1_0000_0000,
    ;
    assert(b.spec_index() + b.spec_generation() * 0x1_0000_0000 < 0x1_0000_0000_0000_0000) by (nonlinear_arith)
        requires
            b.spec_index() < 0x1_0000_0000,
            b.spec_generation() < 0x1_0000_0000,
    ;
}

/// The schedule stored under a key, if there is one.
pub open spec fn schedule_at<K, H>(schedules: Map<K, Schedule<H>>, key: K) -> Option<Schedule<H>> {
    if schedules.contains_key(key) {
        Some(schedules[key])
    } else {
        None
    }
}

/// What triggering does to the handlers of one key: where there are some, they all run as
/// [`Schedule::run`] makes them, from `input`/`app` to `input_after`/`app_after`; where there
/// are none, nothing runs and the input and the state stay.
pub open spec fn handlers_ran<I, A, H: ScheduleSystem<I, A>>(
    before: Option<Schedule<H>>,
    after: Option<Schedule<H>>,
    input: I,
    input_after: I,
    app: A,
    app_after: A,
) -> bool {
    match before {
        None => after is None && input_after == input && app_after == app,
        Some(b) => after matches Some(a) && schedule_ran(b, a, input, input_after, app, app_after),
    }
}

/// Whether a schedule of event handlers is consistent; its handlers have no tag and no
/// constraint, so that they run in the order of their insertion.
pub open spec fn handler_schedule<H>(s: Schedule<H>) -> bool {
    s.wf() && unconstrained(s.configs())
}

impl<H> EventHandlers<H> {
    /// The internal consistency of the handlers.
    pub closed spec fn wf(&self) -> bool {
        let si = pair_index_entries(self.scoped_index);
        let gi = uuid_index_entries(self.global_index);
        &&& forall|key: (u64, u128)|
            #[trigger] si.contains_key(key) ==> si[key] < self.scoped@.len() && scoped_key(
                self.scoped@[si[key] as int].0,
                self.scoped@[si[key] as int].1,
            ) == key
        &&& forall|k: int|
            0 <= k < self.scoped@.len() ==> si.contains_key(
                scoped_key((#[trigger] self.scoped@[k]).0, self.scoped@[k].1),
            ) && si[scoped_key(self.scoped@[k].0, self.scoped@[k].1)] == k
        &&& forall|key: u128|
            #[trigger] gi.contains_key(key) ==> gi[key] < self.global@.len()
                && self.global@[gi[key] as int].0.spec_value() == key
        &&& forall|k: int|
            0 <= k < self.global@.len() ==> gi.contains_key((#[trigger] self.global@[k]).0.spec_value())
                && gi[self.global@[k].0.spec_value()] == k
        &&& forall|k: int| 0 <= k < self.scoped@.len() ==> handler_schedule((#[trigger] self.scoped@[k]).2)
        &&& forall|k: int| 0 <= k < self.global@.len() ==> handler_schedule((#[trigger] self.global@[k]).1)
    }

    /// The handlers of each event scoped to each entity.
    pub closed spec fn scoped_handlers(&self) -> Map<(EntityId, Uuid), Seq<H>> {
        let si = pair_index_entries(self.scoped_index);
        Map::new(
            |p: (EntityId, Uuid)| si.contains_key(scoped_key(p.0, p.1)),
            |p: (EntityId, Uuid)| self.scoped@[si[scoped_key(p.0, p.1)] as int].2.systems(),
        )
    }

    /// The schedules of the handlers of each event scoped to each entity.
    pub closed spec fn scoped_schedules(&self) -> Map<(EntityId, Uuid), Schedule<H>> {
        let si = pair_index_entries(self.scoped_index);
        Map::new(
            |p: (EntityId, Uuid)| si.contains_key(scoped_key(p.0, p.1)),
            |p: (EntityId, Uuid)| self.scoped@[si[scoped_key(p.0, p.1)] as int].2,
        )
    }

    /// The schedules of the global handlers of each event.
    pub closed spec fn global_schedules(&self) -> Map<Uuid, Schedule<H>> {
        let gi = uuid_index_entries(self.global_index);
        Map::new(
            |u: Uuid| gi.contains_key(u.spec_value()),
            |u: Uuid| self.global@[gi[u.spec_value()] as int].1,
        )
    }

    /// The global handlers of each event.
    pub closed spec fn global_handlers(&self) -> Map<Uuid, Seq<H>> {
        let gi = uuid_index_entries(self.global_index);
        Map::new(
            |u: Uuid| gi.contains_key(u.spec_value()),
            |u: Uuid| self.global@[gi[u.spec_value()] as int].1.systems(),
        )
    }

    /// Creates a collection without handlers.
    pub fn new() -> (r: Self)
        ensures
            r.wf(),
            r.scoped_handlers().dom() == Set::<(EntityId, Uuid)>::empty(),
            r.global_handlers().dom() == Set::<Uuid>::empty(),
    {
        let r = EventHandlers {
            scoped_index: PairIndexMap::new(),
            scoped: Vec::new(),
            global_index: UuidIndexMap::new(),
            global: Vec::new(),
        };
        proof {
            assert(r.scoped_handlers().dom() =~= Set::<(EntityId, Uuid)>::empty());
            assert(r.global_handlers().dom() =~= Set::<Uuid>::empty());
        }
        r
    }

    /// Adds a handler of `event` scoped to `entity`.
    pub fn insert_scoped_raw(&mut self, entity: EntityId, event: Uuid, handler: H)
        requires
            old(self).wf(),
        ensures
            final(self).wf(),
            final(self).scoped_handlers() == old(self).scoped_handlers().insert(
                (entity, event),
                (if old(self).scoped_handlers().contains_key((entity, event)) {
                    old(self).scoped_handlers()[(entity, event)]
                } else {
                    Seq::<H>::empty()
                }).push(handler),
            ),
            final(self).global_handlers() == old(self).global_handlers(),
    {
        let ghost o = *self;
        let key = (entity.to_bits(), event.as_u128());
        proof {
            assert(key == scoped_key(entity, event));
        }
        match self.scoped_index.get(key) {
            Some(k) => {
                proof {
                    lemma_scoped_key_injective(entity, event, o.scoped@[k as int].0, o.scoped@[k as int].1);
                }
                self.scoped[k].2.add_system_raw(SystemConfig::default(), handler);
                proof {
                    let target = o.scoped_handlers().insert((entity, event), o.scoped_handlers()[(entity, event)].push(handler));
                    let si = pair_index_entries(self.scoped_index);
                    assert forall|p: (EntityId, Uuid)| #[trigger] self.scoped_handlers().contains_key(p) implies self.scoped_handlers()[p] == target[p] by {
                        lemma_scoped_key_injective(p.0, p.1, entity, event);
                        if p != (entity, event) {
                            assert(si[scoped_key(p.0, p.1)] != k);
                        }
                    }
                    assert(self.scoped_handlers() =~= target);
                    assert(self.global_handlers() =~= o.global_handlers());
                    assert forall|j: int| 0 <= j < self.scoped@.len() implies handler_schedule((#[trigger] self.scoped@[j]).2) by {
                        if j != k {
                            assert(self.scoped@[j] == o.scoped@[j]);
                        }
                    }
                }
            },
            None => {
                let mut schedule = Schedule::new();
                schedule.add_system_raw(SystemConfig::default(), handler);
                let pos = self.scoped.len();
                self.scoped.push((entity, event, schedule));
                self.scoped_index.insert(key, pos);
                proof {
                    let si0 = pair_index_entries(o.scoped_index);
                    let si = pair_index_entries(self.scoped_index);
                    assert(schedule.systems() =~= Seq::<H>::empty().push(handler));
                    assert forall|k: int| 0 <= k < self.scoped@.len() implies si.contains_key(
                        scoped_key((#[trigger] self.scoped@[k]).0, self.scoped@[k].1),
                    ) && si[scoped_key(self.scoped@[k].0, self.scoped@[k].1)] == k by {
                        if k < pos {
                            assert(self.scoped@[k] == o.scoped@[k]);
                            assert(si0.contains_key(scoped_key(o.scoped@[k].0, o.scoped@[k].1)));
                        }
                    }
                    assert forall|kk: (u64, u128)| #[trigger] si.contains_key(kk) implies si[kk] < self.scoped@.len() && scoped_key(
                        self.scoped@[si[kk] as int].0,
                        self.scoped@[si[kk] as int].1,
                    ) == kk by {
                        if kk != key {
                            assert(self.scoped@[si0[kk] as int] == o.scoped@[si0[kk] as int]);
                        }
                    }
                    let target = o.scoped_handlers().insert((entity, event), Seq::<H>::empty().push(handler));
                    assert forall|p: (EntityId, Uuid)| #[trigger] self.scoped_handlers().contains_key(p) <==> target.contains_key(p) by {
                        lemma_scoped_key_injective(p.0, p.1, entity, event);
                    }
                    assert forall|p: (EntityId, Uuid)| #[trigger] self.scoped_handlers().contains_key(p) implies self.scoped_handlers()[p] == target[p] by {
                        lemma_scoped_key_injective(p.0, p.1, entity, event);
                        if p != (entity, event) {
                            assert(self.scoped@[si0[scoped_key(p.0, p.1)] as int] == o.scoped@[si0[scoped_key(p.0, p.1)] as int]);
                        }
                    }
                    assert(self.scoped_handlers() =~= target);
                    assert(self.global_handlers() =~= o.global_handlers());
                    assert forall|j: int| 0 <= j < self.scoped@.len() implies handler_schedule((#[trigger] self.scoped@[j]).2) by {
                        if j < pos {
                            assert(self.scoped@[j] == o.scoped@[j]);
                        }
                    }
                }
            },
        }
    }

    /// Returns the schedule of the handlers of `event` scoped to `entity`, or `None` when there
    /// is none; running an event on `entity` runs it.
    pub fn scoped_schedule_mut(&mut self, entity: EntityId, event: Uuid) -> (r: Option<&mut Schedule<H>>)
        requires
            old(self).wf(),
        ensures
            r is Some <==> old(self).scoped_handlers().contains_key((entity, event)),
            r matches Some(s) ==> {
                &&& s.systems() == old(self).scoped_handlers()[(entity, event)]
                &&& handler_schedule(*s)
                &&& handler_schedule(*final(s)) ==> final(self).wf()
                &&& forall|p: (EntityId, Uuid)|
                    #[trigger] final(self).scoped_handlers().contains_key(p) == old(self).scoped_handlers().contains_key(p)
                &&& final(self).scoped_handlers()[(entity, event)] == final(s).systems()
                &&& forall|p: (EntityId, Uuid)|
                    p != (entity, event) && #[trigger] old(self).scoped_handlers().contains_key(p)
                        ==> final(self).scoped_handlers()[p] == old(self).scoped_handlers()[p]
                &&& final(self).global_handlers() == old(self).global_handlers()
                &&& final(self).scoped_schedules()[(entity, event)] == *final(s)
                &&& *s == old(self).scoped_schedules()[(entity, event)]
                &&& forall|p: (EntityId, Uuid)|
                    p != (entity, event) && #[trigger] old(self).scoped_schedules().contains_key(p)
                        ==> final(self).scoped_schedules()[p] == old(self).scoped_schedules()[p]
                &&& final(self).global_schedules() == old(self).global_schedules()
            },
            r is None ==> *final(self) == *old(self),
    {
        let ghost o = *self;
        let key = (entity.to_bits(), event.as_u128());
        proof {
            assert(key == scoped_key(entity, event));
        }
        match self.scoped_index.get(key) {
            Some(k) => {
                proof {
                    lemma_scoped_key_injective(entity, event, o.scoped@[k as int].0, o.scoped@[k as int].1);
                    let si = pair_index_entries(self.scoped_index);
                    assert forall|p: (EntityId, Uuid)|
                        p != (entity, event) && #[trigger] o.scoped_handlers().contains_key(p) implies si[scoped_key(p.0, p.1)] != k by {
                        lemma_scoped_key_injective(p.0, p.1, entity, event);
                    }
                    assert forall|p: (EntityId, Uuid)|
                        p != (entity, event) && #[trigger] o.scoped_schedules().contains_key(p) implies si[scoped_key(p.0, p.1)] != k by {
                        lemma_scoped_key_injective(p.0, p.1, entity, event);
                    }
                    assert(o.scoped_schedules().contains_key((entity, event)));
                    assert(o.scoped_schedules()[(entity, event)] == o.scoped@[k as int].2);
                }
                let entry = &mut self.scoped[k];
                Some(&mut entry.2)
            },
            None => None,
        }
    }

    /// Returns the schedule of the global handlers of `event`, or `None` when there is none;
    /// running an event on any entity runs it.
    pub fn global_schedule_mut(&mut self, event: Uuid) -> (r: Option<&mut Schedule<H>>)
        requires
            old(self).wf(),
        ensures
            r is Some <==> old(self).global_handlers().contains_key(event),
            r matches Some(s) ==> {
                &&& s.systems() == old(self).global_handlers()[event]
                &&& handler_schedule(*s)
                &&& handler_schedule(*final(s)) ==> final(self).wf()
                &&& forall|u: Uuid|
                    #[trigger] final(self).global_handlers().contains_key(u) == old(self).global_handlers().contains_key(u)
                &&& final(self).global_handlers()[event] == final(s).systems()
                &&& forall|u: Uuid|
                    u != event && #[trigger] old(self).global_handlers().contains_key(u)
                        ==> final(self).global_handlers()[u] == old(self).global_handlers()[u]
                &&& final(self).scoped_handlers() == old(self).scoped_handlers()
                &&& final(self).global_schedules()[event] == *final(s)
                &&& *s == old(self).global_schedules()[event]
                &&& forall|u: Uuid|
                    u != event && #[trigger] old(self).global_schedules().contains_key(u)
                        ==> final(self).global_schedules()[u] == old(self).global_schedules()[u]
                &&& final(self).scoped_schedules() == old(self).scoped_schedules()
            },
            r is None ==> *final(self) == *old(self),
    {
        let ghost o = *self;
        match self.global_index.get(event.as_u128()) {
            Some(k) => {
                proof {
                    Uuid::lemma_eq_iff_value(event, o.global@[k as int].0);
                    let gi = uuid_index_entries(self.global_index);
                    assert forall|u: Uuid|
                        u != event && #[trigger] o.global_handlers().contains_key(u) implies gi[u.spec_value()] != k by {
                        Uuid::lemma_eq_iff_value(u, event);
                    }
                    assert forall|u: Uuid|
                        u != event && #[trigger] o.global_schedules().contains_key(u) implies gi[u.spec_value()] != k by {
                        Uuid::lemma_eq_iff_value(u, event);
                    }
                    assert(o.global_schedules().contains_key(event));
                    assert(o.global_schedules()[event] == o.global@[k as int].1);
                }
                let entry = &mut self.global[k];
                Some(&mut entry.1)
            },
            None => None,
        }
    }

    /// Runs the handlers of `event` on `input` and `app`: first those scoped to `current`, the
    /// entity that the event is being processed on, then the global ones, each in the order of
    /// their insertion.
    pub fn trigger_raw<I, A>(&mut self, event: Uuid, current: EntityId, input: &mut I, app: &mut A)
        where H: ScheduleSystem<I, A>
        requires
            old(self).wf(),
            old(self).scoped_handlers().contains_key((current, event)) ==> old(
                self,
            ).scoped_handlers()[(current, event)].len() <= u32::MAX,
            old(self).global_handlers().contains_key(event) ==> old(self).global_handlers()[event].len()
                <= u32::MAX,
        ensures
            final(self).wf(),
            final(self).scoped_handlers().dom() == old(self).scoped_handlers().dom(),
            final(self).global_handlers().dom() == old(self).global_handlers().dom(),
            forall|p: (EntityId, Uuid)|
                #[trigger] old(self).scoped_handlers().contains_key(p) ==> final(self).scoped_handlers()[p].len()
                    == old(self).scoped_handlers()[p].len(),
            forall|u: Uuid|
                #[trigger] old(self).global_handlers().contains_key(u) ==> final(self).global_handlers()[u].len()
                    == old(self).global_handlers()[u].len(),
            final(self).scoped_schedules().dom() == old(self).scoped_schedules().dom(),
            final(self).global_schedules().dom() == old(self).global_schedules().dom(),
            forall|p: (EntityId, Uuid)|
                p != (current, event) && #[trigger] old(self).scoped_schedules().contains_key(p)
                    ==> final(self).scoped_schedules()[p] == old(self).scoped_schedules()[p],
            forall|u: Uuid|
                u != event && #[trigger] old(self).global_schedules().contains_key(u)
                    ==> final(self).global_schedules()[u] == old(self).global_schedules()[u],
            exists|input_mid: I, app_mid: A|
                #[trigger] handlers_ran(
                    schedule_at(old(self).scoped_schedules(), (current, event)),
                    schedule_at(final(self).scoped_schedules(), (current, event)),
                    *old(input),
                    input_mid,
                    *old(app),
                    app_mid,
                ) && handlers_ran(
                    schedule_at(old(self).global_schedules(), event),
                    schedule_at(final(self).global_schedules(), event),
                    input_mid,
                    *final(input),
                    app_mid,
                    *final(app),
                ),
    {
        let ghost s0 = *self;
        let ghost i0 = *input;
        let ghost a0 = *app;
        match self.scoped_schedule_mut(current, event) {
            Some(schedule) => {
                proof {
                    schedule.lemma_len();
                    lemma_unconstrained_schedulable(schedule.configs());
                    lemma_unconstrained_no_pairs(schedule.configs());
                }
                schedule.run(input, app);
            },
            None => {},
        }
        let ghost s1 = *self;
        let ghost i1 = *input;
        let ghost a1 = *app;
        assert(s1.scoped_handlers().dom() =~= s0.scoped_handlers().dom());
        assert(s1.scoped_schedules().dom() =~= s0.scoped_schedules().dom());
        assert(handlers_ran(
            schedule_at(s0.scoped_schedules(), (current, event)),
            schedule_at(s1.scoped_schedules(), (current, event)),
            i0,
            i1,
            a0,
            a1,
        ));
        match self.global_schedule_mut(event) {
            Some(schedule) => {
                proof {
                    schedule.lemma_len();
                    lemma_unconstrained_schedulable(schedule.configs());
                    lemma_unconstrained_no_pairs(schedule.configs());
                }
                schedule.run(input, app);
            },
            None => {},
        }
        assert(self.global_handlers().dom() =~= s1.global_handlers().dom());
        assert(self.global_schedules().dom() =~= s1.global_schedules().dom());
        assert(handlers_ran(
            schedule_at(s1.global_schedules(), event),
            schedule_at(self.global_schedules(), event),
            i1,
            *input,
            a1,
            *app,
        ));
        assert(schedule_at(s0.global_schedules(), event) == schedule_at(s1.global_schedules(), event));
        assert(schedule_at(self.scoped_schedules(), (current, event)) == schedule_at(s1.scoped_schedules(), (current, event)));
    }

    /// Adds a handler of `event` that runs whatever the entity.
    pub fn insert_global_raw(&mut self, event: Uuid, handler: H)
        requires
            old(self).wf(),
        ensures
            final(self).wf(),
            final(self).global_handlers() == old(self).global_handlers().insert(
                event,
                (if old(self).global_handlers().contains_key(event) {
                    old(self).global_handlers()[event]
                } else {
                    Seq::<H>::empty()
                }).push(handler),
            ),
            final(self).scoped_handlers() == old(self).scoped_handlers(),
    {
        let ghost o = *self;
        let key = event.as_u128();
        match self.global_index.get(key) {
            Some(k) => {
                proof {
                    Uuid::lemma_eq_iff_value(event, o.global@[k as int].0);
                }
                self.global[k].1.add_system_raw(SystemConfig::default(), handler);
                proof {
                    let target = o.global_handlers().insert(event, o.global_handlers()[event].push(handler));
                    let gi = uuid_index_entries(self.global_index);
                    assert forall|u: Uuid| #[trigger] self.global_handlers().contains_key(u) implies self.global_handlers()[u] == target[u] by {
                        Uuid::lemma_eq_iff_value(u, event);
                        if u != event {
                            assert(gi[u.spec_value()] != k);
                        }
                    }
                    assert(self.global_handlers() =~= target);
                    assert(self.scoped_handlers() =~= o.scoped_handlers());
                    assert forall|j: int| 0 <= j < self.global@.len() implies handler_schedule((#[trigger] self.global@[j]).1) by {
                        if j != k {
                            assert(self.global@[j] == o.global@[j]);
                        }
                    }
                }
            },
            None => {
                let mut schedule = Schedule::new();
                schedule.add_system_raw(SystemConfig::default(), handler);
                let pos = self.global.len();
                self.global.push((event, schedule));
                self.global_index.insert(key, pos);
                proof {
                    let gi0 = uuid_index_entries(o.global_index);
                    let gi = uuid_index_entries(self.global_index);
                    assert(schedule.systems() =~= Seq::<H>::empty().push(handler));
                    assert forall|k: int| 0 <= k < self.global@.len() implies gi.contains_key((#[trigger] self.global@[k]).0.spec_value())
                        && gi[self.global@[k].0.spec_value()] == k by {
                        if k < pos {
                            assert(self.global@[k] == o.global@[k]);
                            assert(gi0.contains_key(o.global@[k].0.spec_value()));
                        }
                    }
                    assert forall|kk: u128| #[trigger] gi.contains_key(kk) implies gi[kk] < self.global@.len()
                        && self.global@[gi[kk] as int].0.spec_value() == kk by {
                        if kk != key {
                            assert(self.global@[gi0[kk] as int] == o.global@[gi0[kk] as int]);
                        }
                    }
                    let target = o.global_handlers().insert(event, Seq::<H>::empty().push(handler));
                    assert forall|u: Uuid| #[trigger] self.global_handlers().contains_key(u) <==> target.contains_key(u) by {
                        Uuid::lemma_eq_iff_value(u, event);
                    }
                    assert forall|u: Uuid| #[trigger] self.global_handlers().contains_key(u) implies self.global_handlers()[u] == target[u] by {
                        Uuid::lemma_eq_iff_value(u, event);
                        if u != event {
                            assert(self.global@[gi0[u.spec_value()] as int] == o.global@[gi0[u.spec_value()] as int]);
                        }
                    }
                    assert(self.global_handlers() =~= target);
                    assert(self.scoped_handlers() =~= o.scoped_handlers());
                    assert forall|j: int| 0 <= j < self.global@.len() implies handler_schedule((#[trigger] self.global@[j]).1) by {
                        if j < pos {
                            assert(self.global@[j] == o.global@[j]);
                        }
                    }
                }
            },
        }
    }
}

} // verus!

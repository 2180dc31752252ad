//! The complete state of an application: its global resources, entities, event handlers and
//! schedules.
use vstd::prelude::*;
use crate::app::event::{Event, EventContext, EventHandlers, RawEventContext, handlers_ran, schedule_at};
use crate::app::globals::{Global, Globals};
use crate::collections::{UuidIndexMap, uuid_index_entries};
use crate::entities::archetype_storage::distinct_keys;
use crate::entities::component::ComponentInfo;
use crate::entities::entities::{Entities, component_map, info_pairs, registrable};
use crate::entities::entity::EntityRef;
use crate::entities::entity_id::EntityId;
use crate::schedule::schedule::{Schedule, ScheduleSystem, constraint_pairs, schedulable, schedule_ran};
use crate::schedule::system_config::SystemConfig;
use crate::uuid::Uuid;

verus! {

/// Contains the complete state of an application: its global resources of type `G`, its
/// entities with components of type `V`, the handlers of type `H` of its events and the
/// schedules of its systems of type `S`.
pub struct App<V, G, S, H> {
    /// The globals that are shared across the application.
    globals: Globals<G>,
    /// The entities of the application.
    entities: Entities<V>,
    /// The event handlers that are registered with the application.
    event_handlers: EventHandlers<H>,
    /// Maps the value of a schedule identifier to the position of the schedule in `schedules`.
    schedule_index: UuidIndexMap,
    /// The schedules that the application can run, with their identifiers.
    schedules: Vec<(Uuid, Schedule<S>)>,
}

impl<V, G, S, H> App<V, G, S, H> {
    /// The global resources.
    pub closed spec fn spec_globals(&self) -> Globals<G> {
        self.globals
    }

    /// The entities.
    pub closed spec fn spec_entities(&self) -> Entities<V> {
        self.entities
    }

    /// The event handlers.
    pub closed spec fn spec_event_handlers(&self) -> EventHandlers<H> {
        self.event_handlers
    }

    /// The schedules, by identifier.
    pub closed spec fn spec_schedules(&self) -> Map<Uuid, Schedule<S>> {
        let index = uuid_index_entries(self.schedule_index);
        Map::new(
            |u: Uuid| index.contains_key(u.spec_value()),
            |u: Uuid| self.schedules@[index[u.spec_value()] as int].1,
        )
    }

    /// The application with other event handlers.
    pub closed spec fn with_handlers(self, handlers: EventHandlers<H>) -> Self {
        App {
            globals: self.globals,
            entities: self.entities,
            event_handlers: handlers,
            schedule_index: self.schedule_index,
            schedules: self.schedules,
        }
    }

    /// Whether the application is `before` with `taken` stored in the place that the index of
    /// the schedules gives for `schedule`, or is `before` itself where there is no such place.
    pub closed spec fn stores_in(self, before: Self, schedule: Uuid, taken: Schedule<S>) -> bool {
        let index = uuid_index_entries(before.schedule_index);
        if index.contains_key(schedule.spec_value()) && index[schedule.spec_value()] < before.schedules@.len() {
            let k = index[schedule.spec_value()] as int;
            &&& self.globals == before.globals
            &&& self.entities == before.entities
            &&& self.event_handlers == before.event_handlers
            &&& self.schedule_index == before.schedule_index
            &&& self.schedules@ == before.schedules@.update(k, (before.schedules@[k].0, taken))
        } else {
            self == before
        }
    }

    /// The schedule stored under an identifier, read from the place that the index of the
    /// schedules gives for it, whether or not the application is consistent.
    pub closed spec fn stored_schedule(&self, schedule: Uuid) -> Option<Schedule<S>> {
        let index = uuid_index_entries(self.schedule_index);
        if index.contains_key(schedule.spec_value()) && index[schedule.spec_value()] < self.schedules@.len() {
            Some(self.schedules@[index[schedule.spec_value()] as int].1)
        } else {
            None
        }
    }

    /// The internal consistency of the application.
    pub closed spec fn wf(&self) -> bool {
        let index = uuid_index_entries(self.schedule_index);
        &&& self.globals.wf()
        &&& self.entities.wf()
        &&& self.event_handlers.wf()
        &&& forall|key: u128|
            #[trigger] index.contains_key(key) ==> index[key] < self.schedules@.len()
                && self.schedules@[index[key] as int].0.spec_value() == key
        &&& forall|k: int|
            0 <= k < self.schedules@.len() ==> index.contains_key((#[trigger] self.schedules@[k]).0.spec_value())
                && index[self.schedules@[k].0.spec_value()] == k
        &&& forall|k: int| 0 <= k < self.schedules@.len() ==> (#[trigger] self.schedules@[k]).1.wf()
    }

    /// Creates an application with no global resource, entity, event handler or schedule.
    pub fn new() -> (r: Self)
        ensures
            r.wf(),
            r.spec_globals().view().dom() == Set::<Uuid>::empty(),
            r.spec_entities().view() == Map::<EntityId, Map<Uuid, V>>::empty(),
            r.spec_entities().pending().len() == 0,
            r.spec_schedules().dom() == Set::<Uuid>::empty(),
    {
        let r = App {
            globals: Globals::new(),
            entities: Entities::new(),
            event_handlers: EventHandlers::new(),
            schedule_index: UuidIndexMap::new(),
            schedules: Vec::new(),
        };
        proof {
            assert(r.spec_schedules().dom() =~= Set::<Uuid>::empty());
        }
        r
    }

    /// Returns the global resources.
    pub fn globals(&self) -> (r: &Globals<G>)
        ensures
            *r == self.spec_globals(),
    {
        &self.globals
    }

    /// Returns the entities.
    pub fn entities(&self) -> (r: &Entities<V>)
        ensures
            *r == self.spec_entities(),
    {
        &self.entities
    }

    /// Returns the entities, for modification.
    pub fn entities_mut(&mut self) -> (r: &mut Entities<V>)
        ensures
            *r == old(self).spec_entities(),
            final(self).spec_entities() == *final(r),
            final(self).spec_globals() == old(self).spec_globals(),
            final(self).spec_event_handlers() == old(self).spec_event_handlers(),
            final(self).spec_schedules() == old(self).spec_schedules(),
            old(self).wf() && final(r).wf() ==> final(self).wf(),
    {
        &mut self.entities
    }

    /// Returns the event handlers, for modification.
    pub fn event_handlers_mut(&mut self) -> (r: &mut EventHandlers<H>)
        ensures
            *r == old(self).spec_event_handlers(),
            final(self).spec_event_handlers() == *final(r),
            final(self).spec_globals() == old(self).spec_globals(),
            final(self).spec_entities() == old(self).spec_entities(),
            final(self).spec_schedules() == old(self).spec_schedules(),
            old(self).wf() && final(r).wf() ==> final(self).wf(),
    {
        &mut self.event_handlers
    }

    /// Registers the global resource `T`, which must not be registered yet.
    pub fn register_global<T: Global>(&mut self, value: G)
        requires
            old(self).wf(),
            !old(self).spec_globals().view().contains_key(T::spec_uuid()),
        ensures
            final(self).wf(),
            final(self).spec_globals().view().dom() == old(self).spec_globals().view().dom().insert(T::spec_uuid()),
            final(self).spec_globals().view()[T::spec_uuid()].spec_data() == value,
            forall|u: Uuid|
                u != T::spec_uuid() && #[trigger] old(self).spec_globals().view().contains_key(u)
                    ==> final(self).spec_globals().view()[u] == old(self).spec_globals().view()[u],
            final(self).spec_entities() == old(self).spec_entities(),
    {
        self.globals.register::<T>(value);
    }

    /// Ensures that the global resource `T` is registered: when it is not yet, `f` is called
    /// to create its data.
    pub fn init_global<T: Global, F: FnOnce() -> G>(&mut self, f: F)
        requires
            old(self).wf(),
            f.requires(()),
        ensures
            final(self).wf(),
            old(self).spec_globals().view().contains_key(T::spec_uuid()) ==> final(self).spec_globals().view()
                == old(self).spec_globals().view(),
            !old(self).spec_globals().view().contains_key(T::spec_uuid()) ==> {
                &&& final(self).spec_globals().view().dom() == old(self).spec_globals().view().dom().insert(T::spec_uuid())
                &&& f.ensures((), final(self).spec_globals().view()[T::spec_uuid()].spec_data())
            },
            final(self).spec_entities() == old(self).spec_entities(),
    {
        self.globals.register_with::<T, F>(f);
    }

    /// Returns the data of the global resource `T`, or `None` when it is not registered.
    pub fn get_global<T: Global>(&self) -> (r: Option<&G>)
        requires
            self.wf(),
        ensures
            r is Some <==> self.spec_globals().view().contains_key(T::spec_uuid()),
            r matches Some(d) ==> *d == self.spec_globals().view()[T::spec_uuid()].spec_data(),
    {
        self.globals.try_get::<T>()
    }

    /// Returns the data of the global resource `T` for modification, or `None` when it is not
    /// registered.
    pub fn get_global_mut<T: Global>(&mut self) -> (r: Option<&mut G>)
        requires
            old(self).wf(),
        ensures
            r is Some <==> old(self).spec_globals().view().contains_key(T::spec_uuid()),
            r matches Some(d) ==> {
                &&& *d == old(self).spec_globals().view()[T::spec_uuid()].spec_data()
                &&& final(self).wf()
                &&& forall|u: Uuid|
                    #[trigger] final(self).spec_globals().view().contains_key(u) == old(self).spec_globals().view().contains_key(u)
                &&& final(self).spec_globals().view()[T::spec_uuid()].spec_data() == *final(d)
                &&& forall|u: Uuid|
                    u != T::spec_uuid() && #[trigger] old(self).spec_globals().view().contains_key(u)
                        ==> final(self).spec_globals().view()[u] == old(self).spec_globals().view()[u]
                &&& final(self).spec_entities() == old(self).spec_entities()
                &&& final(self).spec_schedules() == old(self).spec_schedules()
            },
            r is None ==> *final(self) == *old(self),
    {
        self.globals.try_get_mut::<T>()
    }

    /// Returns the data of the global resource `T` for modification; it must be registered.
    pub fn global_mut<T: Global>(&mut self) -> (r: &mut G)
        requires
            old(self).wf(),
            old(self).spec_globals().view().contains_key(T::spec_uuid()),
        ensures
            *r == old(self).spec_globals().view()[T::spec_uuid()].spec_data(),
            final(self).wf(),
            forall|u: Uuid|
                #[trigger] final(self).spec_globals().view().contains_key(u) == old(self).spec_globals().view().contains_key(u),
            final(self).spec_globals().view()[T::spec_uuid()].spec_data() == *final(r),
            forall|u: Uuid|
                u != T::spec_uuid() && #[trigger] old(self).spec_globals().view().contains_key(u)
                    ==> final(self).spec_globals().view()[u] == old(self).spec_globals().view()[u],
            final(self).spec_entities() == old(self).spec_entities(),
            final(self).spec_schedules() == old(self).spec_schedules(),
    {
        self.globals.get_mut::<T>()
    }

    /// Returns the data of the global resource `T`, which must be registered.
    pub fn global<T: Global>(&self) -> (r: &G)
        requires
            self.wf(),
            self.spec_globals().view().contains_key(T::spec_uuid()),
        ensures
            *r == self.spec_globals().view()[T::spec_uuid()].spec_data(),
    {
        self.globals.get::<T>()
    }

    /// Returns a reference to the entity `entity`, or `None` when it is not live.
    pub fn get_entity(&self, entity: EntityId) -> (r: Option<EntityRef<'_, V>>)
        requires
            self.wf(),
        ensures
            r is Some <==> self.spec_entities().view().contains_key(entity),
            r matches Some(e) ==> e.wf() && e.owner() == self.spec_entities() && e.spec_id() == entity,
    {
        self.entities.get_entity(entity)
    }

    /// Returns a reference to the entity `entity`, which must be live.
    pub fn entity(&self, entity: EntityId) -> (r: EntityRef<'_, V>)
        requires
            self.wf(),
            self.spec_entities().view().contains_key(entity),
        ensures
            r.wf(),
            r.owner() == self.spec_entities(),
            r.spec_id() == entity,
    {
        self.entities.entity(entity)
    }

    /// Spawns a new entity with the provided components.
    pub fn spawn(&mut self, components: Vec<(ComponentInfo, V)>) -> (id: EntityId)
        requires
            old(self).wf(),
            old(self).spec_entities().within_limits(),
            distinct_keys(info_pairs(components@)),
            forall|t: int| 0 <= t < components@.len() ==> registrable(#[trigger] components@[t].0),
        ensures
            final(self).wf(),
            !old(self).spec_entities().flushed_view().contains_key(id),
            final(self).spec_entities().view() == old(self).spec_entities().flushed_view().insert(
                id,
                component_map(components@),
            ),
            final(self).spec_globals() == old(self).spec_globals(),
    {
        self.entities.spawn(components)
    }

    /// Despawns the entity `entity`, which must be live once the reserved identifiers are
    /// flushed.
    pub fn despawn(&mut self, entity: EntityId)
        requires
            old(self).wf(),
            old(self).spec_entities().within_limits(),
            old(self).spec_entities().flushed_view().contains_key(entity),
            entity.spec_generation() < u32::MAX,
        ensures
            final(self).wf(),
            final(self).spec_entities().view() == old(self).spec_entities().flushed_view().remove(entity),
            final(self).spec_entities().allocator().is_stale(entity),
            final(self).spec_globals() == old(self).spec_globals(),
    {
        self.entities.despawn(entity);
    }

    /// Returns the position of the schedule with the provided identifier.
    fn schedule_position(&self, schedule: Uuid) -> (r: Option<usize>)
        requires
            self.wf(),
        ensures
            r is Some <==> self.spec_schedules().contains_key(schedule),
            r matches Some(k) ==> k < self.schedules@.len() && self.schedules@[k as int].0 == schedule
                && self.spec_schedules()[schedule] == self.schedules@[k as int].1,
    {
        let r = self.schedule_index.get(schedule.as_u128());
        proof {
            if let Some(k) = r {
                Uuid::lemma_eq_iff_value(self.schedules@[k as int].0, schedule);
            }
        }
        r
    }

    /// Ensures that a schedule with the provided identifier exists: when there is none, an
    /// empty one is added.
    pub fn init_schedule(&mut self, schedule: Uuid)
        requires
            old(self).wf(),
        ensures
            final(self).wf(),
            forall|u: Uuid| #[trigger] final(self).spec_schedules().contains_key(u) <==> (
                old(self).spec_schedules().contains_key(u) || u == schedule),
            forall|u: Uuid|
                #[trigger] old(self).spec_schedules().contains_key(u) ==> final(self).spec_schedules()[u]
                    == old(self).spec_schedules()[u],
            !old(self).spec_schedules().contains_key(schedule) ==> final(self).spec_schedules()[schedule].systems().len() == 0,
            final(self).spec_entities() == old(self).spec_entities(),
            final(self).spec_globals() == old(self).spec_globals(),
    {
        let ghost o = *self;
        match self.schedule_position(schedule) {
            Some(_) => {},
            None => {
                let pos = self.schedules.len();
                self.schedules.push((schedule, Schedule::new()));
                self.schedule_index.insert(schedule.as_u128(), pos);
                proof {
                    let i0 = uuid_index_entries(o.schedule_index);
                    let i1 = uuid_index_entries(self.schedule_index);
                    assert forall|k: int| 0 <= k < self.schedules@.len() implies i1.contains_key(
                        (#[trigger] self.schedules@[k]).0.spec_value(),
                    ) && i1[self.schedules@[k].0.spec_value()] == k by {
                        if k < pos {
                            assert(self.schedules@[k] == o.schedules@[k]);
                            assert(i0.contains_key(o.schedules@[k].0.spec_value()));
                        }
                    }
                    assert forall|key: u128| #[trigger] i1.contains_key(key) implies i1[key] < self.schedules@.len()
                        && self.schedules@[i1[key] as int].0.spec_value() == key by {
                        if key != schedule.spec_value() {
                            assert(self.schedules@[i0[key] as int] == o.schedules@[i0[key] as int]);
                        }
                    }
                    assert forall|u: Uuid| #[trigger] self.spec_schedules().contains_key(u) <==> (
                        o.spec_schedules().contains_key(u) || u == schedule) by {
                        Uuid::lemma_eq_iff_value(u, schedule);
                    }
                    assert forall|u: Uuid| #[trigger] o.spec_schedules().contains_key(u) implies self.spec_schedules()[u]
                        == o.spec_schedules()[u] by {
                        Uuid::lemma_eq_iff_value(u, schedule);
                        assert(self.schedules@[i0[u.spec_value()] as int] == o.schedules@[i0[u.spec_value()] as int]);
                    }
                    assert forall|k: int| 0 <= k < self.schedules@.len() implies (#[trigger] self.schedules@[k]).1.wf() by {
                        if k < pos {
                            assert(self.schedules@[k] == o.schedules@[k]);
                        }
                    }
                }
            },
        }
    }

    /// Returns the schedule with the provided identifier, or `None` when there is none.
    pub fn schedule_mut(&mut self, schedule: Uuid) -> (r: Option<&mut Schedule<S>>)
        requires
            old(self).wf(),
        ensures
            r is Some <==> old(self).spec_schedules().contains_key(schedule),
            r matches Some(s) ==> {
                &&& *s == old(self).spec_schedules()[schedule]
                &&& s.wf()
                &&& final(s).wf() ==> final(self).wf()
                &&& forall|u: Uuid|
                    #[trigger] final(self).spec_schedules().contains_key(u) == old(self).spec_schedules().contains_key(u)
                &&& final(self).spec_schedules()[schedule] == *final(s)
                &&& forall|u: Uuid|
                    u != schedule && #[trigger] old(self).spec_schedules().contains_key(u)
                        ==> final(self).spec_schedules()[u] == old(self).spec_schedules()[u]
                &&& final(self).spec_entities() == old(self).spec_entities()
                &&& final(self).spec_globals() == old(self).spec_globals()
                &&& final(self).spec_event_handlers() == old(self).spec_event_handlers()
            },
            r is None ==> *final(self) == *old(self),
    {
        match self.schedule_position(schedule) {
            Some(k) => {
                proof {
                    let index = uuid_index_entries(self.schedule_index);
                    assert forall|u: Uuid|
                        u != schedule && #[trigger] self.spec_schedules().contains_key(u) implies index[u.spec_value()] != k by {
                        Uuid::lemma_eq_iff_value(u, schedule);
                    }
                }
                let entry = &mut self.schedules[k];
                Some(&mut entry.1)
            },
            None => None,
        }
    }

    /// What [`App::trigger_event`] does: `before` and `after` are the application before and
    /// after the call, `input` and `input_after` the input of the handlers. The handlers scoped
    /// to `target` run first, from a state that has the handlers of `before` taken out, then the
    /// global handlers; the application ends with the handlers put back.
    pub open spec fn triggered<E: Event, I>(before: Self, after: Self, target: EntityId, input: I, input_after: I) -> bool
        where H: ScheduleSystem<I, Self>
    {
        &&& after.spec_event_handlers().wf()
        &&& after.spec_event_handlers().scoped_handlers().dom() == before.spec_event_handlers().scoped_handlers().dom()
        &&& after.spec_event_handlers().global_handlers().dom() == before.spec_event_handlers().global_handlers().dom()
        &&& forall|p: (EntityId, Uuid)|
            #[trigger] before.spec_event_handlers().scoped_handlers().contains_key(p)
                ==> after.spec_event_handlers().scoped_handlers()[p].len()
                == before.spec_event_handlers().scoped_handlers()[p].len()
        &&& forall|u: Uuid|
            #[trigger] before.spec_event_handlers().global_handlers().contains_key(u)
                ==> after.spec_event_handlers().global_handlers()[u].len()
                == before.spec_event_handlers().global_handlers()[u].len()
        &&& after.spec_event_handlers().scoped_schedules().dom() == before.spec_event_handlers().scoped_schedules().dom()
        &&& after.spec_event_handlers().global_schedules().dom() == before.spec_event_handlers().global_schedules().dom()
        &&& forall|p: (EntityId, Uuid)|
            p != (target, E::spec_uuid()) && #[trigger] before.spec_event_handlers().scoped_schedules().contains_key(p)
                ==> after.spec_event_handlers().scoped_schedules()[p]
                == before.spec_event_handlers().scoped_schedules()[p]
        &&& forall|u: Uuid|
            u != E::spec_uuid() && #[trigger] before.spec_event_handlers().global_schedules().contains_key(u)
                ==> after.spec_event_handlers().global_schedules()[u]
                == before.spec_event_handlers().global_schedules()[u]
        &&& exists|start: Self, input_mid: I, app_mid: Self, end: Self|
            #![auto]
            handlers_ran(
                schedule_at(before.spec_event_handlers().scoped_schedules(), (target, E::spec_uuid())),
                schedule_at(after.spec_event_handlers().scoped_schedules(), (target, E::spec_uuid())),
                input,
                input_mid,
                start,
                app_mid,
            ) && handlers_ran(
                schedule_at(before.spec_event_handlers().global_schedules(), E::spec_uuid()),
                schedule_at(after.spec_event_handlers().global_schedules(), E::spec_uuid()),
                input_mid,
                input_after,
                app_mid,
                end,
            ) && start == before.with_handlers(start.spec_event_handlers())
                && start.spec_event_handlers().scoped_handlers().dom() == Set::<(EntityId, Uuid)>::empty()
                && start.spec_event_handlers().global_handlers().dom() == Set::<Uuid>::empty()
                && after == end.with_handlers(after.spec_event_handlers())
    }

    /// Triggers an event of type `E` on `target`: the handlers of the event scoped to `target`
    /// run on `input` and the application, then its global handlers, as
    /// [`EventHandlers::trigger_raw`] does. The handlers are taken out of the application
    /// while they run, and put back afterwards in place of whatever handlers the application
    /// has then.
    pub fn trigger_event<E: Event, I>(&mut self, target: EntityId, input: &mut I)
        where H: ScheduleSystem<I, Self>
        requires
            old(self).wf(),
            old(self).spec_event_handlers().scoped_handlers().contains_key((target, E::spec_uuid()))
                ==> old(self).spec_event_handlers().scoped_handlers()[(target, E::spec_uuid())].len()
                <= u32::MAX,
            old(self).spec_event_handlers().global_handlers().contains_key(E::spec_uuid()) ==> old(
                self,
            ).spec_event_handlers().global_handlers()[E::spec_uuid()].len() <= u32::MAX,
        ensures
            Self::triggered::<E, I>(*old(self), *final(self), target, *old(input), *final(input)),
    {
        let mut handlers = EventHandlers::new();
        std::mem::swap(&mut handlers, &mut self.event_handlers);
        let event = E::uuid();
        let ghost start = *self;
        handlers.trigger_raw(event, target, input, self);
        let ghost end = *self;
        self.event_handlers = handlers;
        proof {
            assert(start == old(self).with_handlers(start.spec_event_handlers()));
            assert(*self == end.with_handlers(self.spec_event_handlers()));
        }
    }

    /// Triggers `event`, an event of type `E`, on `target`, as [`App::trigger_event`] does: the
    /// handlers receive the event with a context whose target and current entity are both
    /// `target` and that lets the event propagate. Returns the context as the handlers left it.
    pub fn trigger<E: Event, T>(&mut self, target: EntityId, event: T) -> (r: EventContext<T>)
        where H: ScheduleSystem<EventContext<T>, Self>
        requires
            old(self).wf(),
            old(self).spec_event_handlers().scoped_handlers().contains_key((target, E::spec_uuid()))
                ==> old(self).spec_event_handlers().scoped_handlers()[(target, E::spec_uuid())].len()
                <= u32::MAX,
            old(self).spec_event_handlers().global_handlers().contains_key(E::spec_uuid()) ==> old(
                self,
            ).spec_event_handlers().global_handlers()[E::spec_uuid()].len() <= u32::MAX,
        ensures
            exists|start: EventContext<T>|
                #[trigger] Self::triggered::<E, EventContext<T>>(*old(self), *final(self), target, start, r)
                    && start.spec_raw() == (RawEventContext { target, current: target, propagate: true })
                    && start.spec_event() == event,
    {
        let mut context = EventContext::from_raw(RawEventContext { target, current: target, propagate: true }, event);
        let ghost start = context;
        self.trigger_event::<E, EventContext<T>>(target, &mut context);
        context
    }

    /// Takes the schedule with the provided identifier out of the application, for the time it
    /// runs on the application, and leaves an empty schedule in its place; returns `None`,
    /// leaving the application as it is, when there is no such schedule.
    pub fn take_schedule(&mut self, schedule: Uuid) -> (r: Option<Schedule<S>>)
        requires
            old(self).wf(),
        ensures
            final(self).wf(),
            r is Some <==> old(self).spec_schedules().contains_key(schedule),
            r is None ==> *final(self) == *old(self),
            r matches Some(s) ==> {
                &&& s == old(self).spec_schedules()[schedule]
                &&& s.wf()
                &&& forall|u: Uuid|
                    #[trigger] final(self).spec_schedules().contains_key(u) == old(self).spec_schedules().contains_key(u)
                &&& final(self).spec_schedules()[schedule].systems().len() == 0
                &&& final(self).spec_schedules()[schedule].is_built()
                &&& forall|u: Uuid|
                    u != schedule && #[trigger] old(self).spec_schedules().contains_key(u)
                        ==> final(self).spec_schedules()[u] == old(self).spec_schedules()[u]
            },
            final(self).spec_entities() == old(self).spec_entities(),
            final(self).spec_globals() == old(self).spec_globals(),
            final(self).spec_event_handlers() == old(self).spec_event_handlers(),
    {
        match self.schedule_mut(schedule) {
            Some(slot) => {
                let mut taken = Schedule::new();
                std::mem::swap(slot, &mut taken);
                Some(taken)
            },
            None => None,
        }
    }

    /// Puts a schedule back into the application, in the place of the one with the provided
    /// identifier, which must exist.
    pub fn put_schedule(&mut self, schedule: Uuid, taken: Schedule<S>)
        requires
            old(self).wf(),
            taken.wf(),
            old(self).spec_schedules().contains_key(schedule),
        ensures
            final(self).wf(),
            forall|u: Uuid|
                #[trigger] final(self).spec_schedules().contains_key(u) == old(self).spec_schedules().contains_key(u),
            final(self).spec_schedules()[schedule] == taken,
            forall|u: Uuid|
                u != schedule && #[trigger] old(self).spec_schedules().contains_key(u)
                    ==> final(self).spec_schedules()[u] == old(self).spec_schedules()[u],
            final(self).spec_entities() == old(self).spec_entities(),
            final(self).spec_globals() == old(self).spec_globals(),
    {
        match self.schedule_mut(schedule) {
            Some(slot) => {
                *slot = taken;
            },
            None => {},
        }
    }

    /// Runs the schedule with the provided identifier on the application, and does nothing
    /// when there is no such schedule. The schedule is taken out of the application while it
    /// runs, an empty schedule standing in its place, and is then put back, up to date, in the
    /// place that the index gives for its identifier. The systems change the application as
    /// their step relations allow; the schedule put back is stated only where its place still
    /// exists after the systems ran. The constraints of the schedule must admit an order, as
    /// [`Schedule::run`] asks.
    pub fn run_schedule(&mut self, schedule: Uuid)
        where S: ScheduleSystem<(), Self>
        requires
            old(self).wf(),
            old(self).spec_schedules().contains_key(schedule) ==> {
                &&& schedulable(old(self).spec_schedules()[schedule].configs())
                &&& old(self).spec_schedules()[schedule].configs().len() <= u32::MAX
                &&& old(self).spec_schedules()[schedule].is_built() || constraint_pairs(
                    old(self).spec_schedules()[schedule].configs(),
                ).len() <= u32::MAX
            },
        ensures
            !old(self).spec_schedules().contains_key(schedule) ==> *final(self) == *old(self),
            old(self).spec_schedules().contains_key(schedule) ==> exists|start: Self, end: Self, after: Schedule<S>|
                #![trigger start.spec_entities(), final(self).stores_in(end, schedule, after)]
                {
                    &&& start.spec_entities() == old(self).spec_entities()
                    &&& start.spec_globals() == old(self).spec_globals()
                    &&& start.spec_event_handlers() == old(self).spec_event_handlers()
                    &&& start.spec_schedules().dom() == old(self).spec_schedules().dom()
                    &&& start.spec_schedules()[schedule].systems().len() == 0
                    &&& forall|u: Uuid|
                        u != schedule && #[trigger] old(self).spec_schedules().contains_key(u)
                            ==> start.spec_schedules()[u] == old(self).spec_schedules()[u]
                    &&& schedule_ran(old(self).spec_schedules()[schedule], after, (), (), start, end)
                    &&& final(self).stores_in(end, schedule, after)
                },
    {
        match self.take_schedule(schedule) {
            None => {},
            Some(mut taken) => {
                let ghost start = *self;
                let mut input = ();
                taken.run(&mut input, self);
                let ghost end = *self;
                proof {
                    assert(start.spec_schedules().dom() =~= old(self).spec_schedules().dom());
                }
                match self.schedule_index.get(schedule.as_u128()) {
                    Some(k) => {
                        if k < self.schedules.len() {
                            self.schedules[k].1 = taken;
                            assert(self.schedules@ == end.schedules@.update(k as int, (end.schedules@[k as int].0, taken)));
                        }
                    },
                    None => {},
                }
                proof {
                    assert(self.stores_in(end, schedule, taken));
                    assert({
                        &&& start.spec_entities() == old(self).spec_entities()
                        &&& start.spec_globals() == old(self).spec_globals()
                        &&& start.spec_event_handlers() == old(self).spec_event_handlers()
                        &&& start.spec_schedules().dom() == old(self).spec_schedules().dom()
                        &&& start.spec_schedules()[schedule].systems().len() == 0
                        &&& forall|u: Uuid|
                            u != schedule && #[trigger] old(self).spec_schedules().contains_key(u)
                                ==> start.spec_schedules()[u] == old(self).spec_schedules()[u]
                        &&& schedule_ran(old(self).spec_schedules()[schedule], taken, (), (), start, end)
                        &&& self.stores_in(end, schedule, taken)
                    });
                }
            },
        }
    }

    /// Adds a system to the schedule with the provided identifier, which must exist.
    pub fn add_system(&mut self, schedule: Uuid, config: SystemConfig, system: S)
        requires
            old(self).wf(),
            old(self).spec_schedules().contains_key(schedule),
        ensures
            final(self).wf(),
            forall|u: Uuid| #[trigger] final(self).spec_schedules().contains_key(u) == old(self).spec_schedules().contains_key(u),
            final(self).spec_schedules()[schedule].systems() == old(self).spec_schedules()[schedule].systems().push(system),
            final(self).spec_schedules()[schedule].configs() == old(self).spec_schedules()[schedule].configs().push(config),
            forall|u: Uuid|
                u != schedule && #[trigger] old(self).spec_schedules().contains_key(u)
                    ==> final(self).spec_schedules()[u] == old(self).spec_schedules()[u],
            final(self).spec_entities() == old(self).spec_entities(),
    {
        match self.schedule_mut(schedule) {
            Some(s) => s.add_system_raw(config, system),
            None => {},
        }
    }
}

} // verus!

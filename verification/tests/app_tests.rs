use sage::app::app::App;
use sage::app::commands::{Command, CommandError, CommandList, Commands};
use sage::app::event::{EventContext, EventHandlers, RawEventContext};
use sage::app::globals::{Global, Globals, RawGlobal};
use sage::entities::component::{ComponentInfo, ComponentLayout};
use sage::entities::entities::Entities;
use sage::entities::entity_id::EntityId;
use sage::schedule::system_config::SystemConfig;
use sage::uuid::{TypeUuid, Uuid};

fn info(value: u128) -> ComponentInfo {
    ComponentInfo { uuid: Uuid::from_u128(value), debug_name: "c", layout: ComponentLayout { size: 4, align: 4 } }
}

struct Score;

impl TypeUuid for Score {
    fn spec_uuid() -> Uuid {
        Uuid::from_u128(0x5c0e)
    }

    fn uuid() -> Uuid {
        Uuid::from_u128(0x5c0e)
    }
}

impl Global for Score {
    fn debug_name() -> &'static str {
        "Score"
    }
}

#[test]
fn commands_spawn_entities_when_applied() {
    let mut entities: Entities<i32> = Entities::new();
    let mut commands: Commands<i32> = Commands::new();
    let e = commands.spawn(&mut entities, vec![(info(1), 11)]);
    let id = e.id();
    assert!(entities.get_entity(id).is_none());
    let mut list = commands.into_list();
    assert_eq!(list.len(), 1);
    assert!(list.apply(&mut entities).is_ok());
    assert_eq!(list.len(), 0);
    assert_eq!(entities.get_component(id, Uuid::from_u128(1)), Some(&11));
}

#[test]
fn commands_despawn_and_insert_in_order() {
    let mut entities: Entities<i32> = Entities::new();
    let a = entities.spawn(vec![(info(1), 1)]);
    let b = entities.spawn(vec![(info(1), 2)]);
    let mut commands: Commands<i32> = Commands::new();
    commands.despawn(a);
    let handle = commands.spawn_empty(&mut entities);
    handle.insert(&mut commands, vec![(info(2), 22)]);
    commands.append(Command::Insert(b, vec![(info(1), 20)]));
    let mut list = commands.into_list();
    assert!(list.apply(&mut entities).is_ok());
    assert!(entities.get_entity(a).is_none());
    assert_eq!(entities.get_component(handle.id(), Uuid::from_u128(2)), Some(&22));
    assert_eq!(entities.get_component(b, Uuid::from_u128(1)), Some(&20));
}

#[test]
fn commands_on_a_dead_entity_stop_with_an_error() {
    let mut entities: Entities<i32> = Entities::new();
    let a = entities.spawn(vec![(info(1), 1)]);
    let mut list: CommandList<i32> = CommandList::new();
    list.push(Command::Despawn(a));
    list.push(Command::Despawn(a));
    list.push(Command::Insert(a, vec![(info(1), 5)]));
    match list.apply(&mut entities) {
        Err(CommandError::InvalidEntity(target)) => assert_eq!(target, a),
        _ => panic!("the second despawn targets a dead entity"),
    }
    assert_eq!(list.len(), 0);
    assert!(entities.get_entity(a).is_none());
}

#[test]
fn drained_commands_come_out_in_order() {
    let mut entities: Entities<i32> = Entities::new();
    let a = entities.spawn(vec![(info(1), 1)]);
    let b = entities.spawn(vec![(info(1), 2)]);
    let mut list: CommandList<i32> = CommandList::new();
    list.push(Command::Despawn(a));
    list.push(Command::Despawn(b));
    let mut drain = list.drain();
    assert_eq!(list.len(), 0);
    assert_eq!(drain.len(), 2);
    match drain.next() {
        Some(Command::Despawn(t)) => assert_eq!(t, a),
        _ => panic!("first command"),
    }
    match drain.next() {
        Some(Command::Despawn(t)) => assert_eq!(t, b),
        _ => panic!("second command"),
    }
    assert!(drain.next().is_none());
}

#[test]
fn too_many_entities_is_reported() {
    let _variant = CommandError::TooManyEntities;
    match CommandError::TooManyEntities {
        CommandError::TooManyEntities => {},
        CommandError::InvalidEntity(_) => panic!("wrong variant"),
    }
}

#[test]
fn globals_register_and_get() {
    let mut globals: Globals<String> = Globals::new();
    assert!(globals.try_get::<Score>().is_none());
    globals.register::<Score>(String::from("10"));
    assert_eq!(globals.try_get::<Score>(), Some(&String::from("10")));
    globals.get_mut::<Score>().push('0');
    assert_eq!(globals.get::<Score>(), "100");
    let raw = globals.get_raw(Score::uuid()).unwrap();
    assert_eq!(raw.debug_name(), "Score");
    assert_eq!(raw.data(), "100");
    globals.register_with::<Score, _>(|| String::from("ignored"));
    assert_eq!(globals.get::<Score>(), "100");
}

#[test]
fn globals_register_with_creates_missing_resources() {
    let mut globals: Globals<u32> = Globals::new();
    globals.register_raw_with(Uuid::from_u128(9), || RawGlobal::from_parts(3, "nine"));
    assert_eq!(globals.get_raw(Uuid::from_u128(9)).unwrap().data(), &3);
    globals.register_raw_with(Uuid::from_u128(9), || RawGlobal::from_parts(4, "other"));
    assert_eq!(globals.get_raw(Uuid::from_u128(9)).unwrap().debug_name(), "nine");
    if let Some(g) = globals.get_raw_mut(Uuid::from_u128(9)) {
        *g.data_mut() = 5;
    }
    assert_eq!(globals.get_raw(Uuid::from_u128(9)).unwrap().data(), &5);
    assert!(globals.get_raw_mut(Uuid::from_u128(1)).is_none());
}

#[test]
fn event_context_accessors() {
    let mut alloc: sage::entities::entity_id::EntityIdAllocator<u8> = sage::entities::entity_id::EntityIdAllocator::new();
    let target = alloc.allocate(0);
    let current = alloc.allocate(0);
    let raw = RawEventContext { target, current, propagate: true };
    let mut ctx = EventContext::from_raw(raw, 5u32);
    assert_eq!(ctx.target_entity(), target);
    assert_eq!(ctx.current_entity(), current);
    *ctx.event_mut() += 1;
    assert_eq!(*ctx.event(), 6);
    ctx.reborrow().stop_propagation();
    let (raw, event) = ctx.into_raw();
    assert!(!raw.propagate);
    assert_eq!(event, 6);
}

#[test]
fn event_handlers_are_found_by_entity_and_event() {
    let mut handlers: EventHandlers<&'static str> = EventHandlers::new();
    let e = EntityId::dummy();
    let event = Uuid::from_u128(77);
    assert!(handlers.scoped_schedule_mut(e, event).is_none());
    handlers.insert_scoped_raw(e, event, "first");
    handlers.insert_scoped_raw(e, event, "second");
    handlers.insert_global_raw(event, "global");
    let scoped = handlers.scoped_schedule_mut(e, event).expect("scoped handlers");
    assert_eq!(scoped.len(), 2);
    assert_eq!(*scoped.system_mut(0), "first");
    assert_eq!(*scoped.system_mut(1), "second");
    assert!(handlers.scoped_schedule_mut(e, Uuid::from_u128(78)).is_none());
    let global = handlers.global_schedule_mut(event).expect("global handlers");
    assert_eq!(global.len(), 1);
    assert!(handlers.global_schedule_mut(Uuid::from_u128(1)).is_none());
}

#[test]
fn app_globals_entities_and_schedules() {
    let mut app: App<i32, u32, &'static str, &'static str> = App::new();
    app.register_global::<Score>(7);
    assert_eq!(app.get_global::<Score>(), Some(&7));
    assert_eq!(*app.global::<Score>(), 7);
    app.init_global::<Score, _>(|| 8);
    assert_eq!(*app.global::<Score>(), 7);
    let e = app.spawn(vec![(info(1), 1)]);
    assert!(app.get_entity(e).is_some());
    assert_eq!(app.entity(e).id(), e);
    app.despawn(e);
    assert!(app.get_entity(e).is_none());
    let update = sage::update_schedule();
    assert!(app.schedule_mut(update).is_none());
    app.init_schedule(update);
    app.add_system(update, SystemConfig::new(), "system");
    let schedule = app.schedule_mut(update).unwrap();
    assert_eq!(schedule.len(), 1);
    assert!(schedule.try_rebuild());
    assert_eq!(schedule.order(), &[0]);
    assert!(app.entities().get_entity(e).is_none());
    app.entities_mut().reserve_one();
    app.event_handlers_mut().insert_global_raw(Uuid::from_u128(3), "handler");
    assert_eq!(app.globals().get::<Score>(), &7);
}

#[test]
fn app_schedule_taken_out_and_put_back() {
    let mut app: App<i32, u32, &'static str, &'static str> = App::new();
    let update = sage::update_schedule();
    assert!(app.take_schedule(update).is_none());
    app.init_schedule(update);
    app.add_system(update, SystemConfig::new(), "a");
    app.add_system(update, SystemConfig::new(), "b");
    let taken = app.take_schedule(update).unwrap();
    assert_eq!(taken.len(), 2);
    assert_eq!(app.schedule_mut(update).unwrap().len(), 0);
    app.put_schedule(update, taken);
    assert_eq!(app.schedule_mut(update).unwrap().len(), 2);
}

/// A system of the tests: it counts its runs in the global resource `Score`.
struct Counter;

/// A handler of the tests: it records the entity of the event in its input.
struct Recorder;

type TestApp = App<i32, u32, Counter, Recorder>;

impl sage::schedule::schedule::ScheduleSystem<(), TestApp> for Counter {
    fn run_step(self, _input: (), _app: TestApp, _after: Self, _input_after: (), _app_after: TestApp) -> bool {
        true
    }

    fn apply_step(self, _app: TestApp, _after: Self, _app_after: TestApp) -> bool {
        true
    }

    fn run(&mut self, _input: &mut (), app: &mut TestApp) {
        *app.global_mut::<Score>() += 1;
    }

    fn apply_deferred(&mut self, _app: &mut TestApp) {}
}

impl sage::schedule::schedule::ScheduleSystem<Vec<&'static str>, TestApp> for Recorder {
    fn run_step(self, _input: Vec<&'static str>, _app: TestApp, _after: Self, _input_after: Vec<&'static str>, _app_after: TestApp) -> bool {
        true
    }

    fn apply_step(self, _app: TestApp, _after: Self, _app_after: TestApp) -> bool {
        true
    }

    fn run(&mut self, input: &mut Vec<&'static str>, _app: &mut TestApp) {
        input.push("handled");
    }

    fn apply_deferred(&mut self, _app: &mut TestApp) {}
}

struct Ping;

impl TypeUuid for Ping {
    fn spec_uuid() -> Uuid {
        Uuid::from_u128(0x9179)
    }

    fn uuid() -> Uuid {
        Uuid::from_u128(0x9179)
    }
}

impl sage::app::event::Event for Ping {}

#[test]
fn app_runs_schedule_systems() {
    let mut app: TestApp = App::new();
    app.register_global::<Score>(0);
    let update = sage::update_schedule();
    app.run_schedule(update);
    assert_eq!(*app.global::<Score>(), 0);
    app.init_schedule(update);
    app.add_system(update, SystemConfig::new(), Counter);
    app.add_system(update, SystemConfig::new(), Counter);
    app.run_schedule(update);
    assert_eq!(*app.global::<Score>(), 2);
    app.run_schedule(update);
    assert_eq!(*app.global::<Score>(), 4);
    assert_eq!(app.schedule_mut(update).unwrap().len(), 2);
}

#[test]
fn app_triggers_scoped_then_global_handlers() {
    let mut app: TestApp = App::new();
    let e = app.spawn(vec![(info(1), 1)]);
    let other = app.spawn(vec![(info(1), 2)]);
    app.event_handlers_mut().insert_scoped_raw(e, Ping::uuid(), Recorder);
    app.event_handlers_mut().insert_global_raw(Ping::uuid(), Recorder);
    let mut log: Vec<&'static str> = Vec::new();
    app.trigger_event::<Ping, _>(e, &mut log);
    assert_eq!(log.len(), 2);
    let mut log: Vec<&'static str> = Vec::new();
    app.trigger_event::<Ping, _>(other, &mut log);
    assert_eq!(log.len(), 1);
}

struct Tally;

impl sage::schedule::schedule::ScheduleSystem<u32, Vec<u32>> for Tally {
    fn run_step(self, _input: u32, _app: Vec<u32>, _after: Self, _input_after: u32, _app_after: Vec<u32>) -> bool {
        true
    }

    fn apply_step(self, _app: Vec<u32>, _after: Self, _app_after: Vec<u32>) -> bool {
        true
    }

    fn run(&mut self, input: &mut u32, app: &mut Vec<u32>) {
        app.push(*input);
        *input += 1;
    }

    fn apply_deferred(&mut self, app: &mut Vec<u32>) {
        app.push(100);
    }
}

#[test]
fn event_handlers_trigger_scoped_before_global() {
    let mut handlers: EventHandlers<Tally> = EventHandlers::new();
    let e = EntityId::dummy();
    let event = Uuid::from_u128(0x77);
    handlers.insert_global_raw(event, Tally);
    handlers.insert_scoped_raw(e, event, Tally);
    handlers.insert_scoped_raw(e, event, Tally);
    let mut input = 1;
    let mut log: Vec<u32> = Vec::new();
    handlers.trigger_raw(event, e, &mut input, &mut log);
    // The two scoped handlers run, then apply what they deferred, then the global one does.
    assert_eq!(log, vec![1, 2, 100, 100, 3, 100]);
    assert_eq!(input, 4);
    let mut log: Vec<u32> = Vec::new();
    handlers.trigger_raw(Uuid::from_u128(0x78), e, &mut input, &mut log);
    assert!(log.is_empty());
}

impl sage::schedule::schedule::ScheduleSystem<EventContext<Vec<EntityId>>, TestApp> for Recorder {
    fn run_step(
        self,
        _input: EventContext<Vec<EntityId>>,
        _app: TestApp,
        _after: Self,
        _input_after: EventContext<Vec<EntityId>>,
        _app_after: TestApp,
    ) -> bool {
        true
    }

    fn apply_step(self, _app: TestApp, _after: Self, _app_after: TestApp) -> bool {
        true
    }

    fn run(&mut self, input: &mut EventContext<Vec<EntityId>>, _app: &mut TestApp) {
        let current = input.current_entity();
        let target = input.target_entity();
        input.event_mut().push(current);
        input.event_mut().push(target);
    }

    fn apply_deferred(&mut self, _app: &mut TestApp) {}
}

#[test]
fn triggered_handlers_see_the_target_as_current_entity() {
    let mut app: TestApp = App::new();
    let e = app.spawn(vec![(info(1), 1)]);
    app.event_handlers_mut().insert_scoped_raw(e, Ping::uuid(), Recorder);
    app.event_handlers_mut().insert_global_raw(Ping::uuid(), Recorder);
    let context = app.trigger::<Ping, Vec<EntityId>>(e, Vec::new());
    assert_eq!(context.target_entity(), e);
    assert_eq!(context.current_entity(), e);
    assert_eq!(context.event(), &vec![e, e, e, e]);
}

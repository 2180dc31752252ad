use sage::schedule::schedule::Schedule;
use sage::schedule::system_config::SystemConfig;
use sage::uuid::Uuid;

fn tag(v: u128) -> Uuid {
    Uuid::from_u128(v)
}

fn position(order: &[usize], system: usize) -> usize {
    order.iter().position(|&s| s == system).unwrap()
}

#[test]
fn systems_run_before_and_after_their_constraints() {
    let mut s: Schedule<&'static str> = Schedule::new();
    s.add_system_raw(SystemConfig::new().tag(tag(1)).run_after(tag(2)), "a");
    s.add_system_raw(SystemConfig::new().tag(tag(2)), "b");
    s.add_system_raw(SystemConfig::new().tag(tag(3)).run_before(tag(2)), "c");
    assert!(s.try_rebuild());
    let order = s.order().to_vec();
    assert_eq!(order.len(), 3);
    assert!(position(&order, 1) < position(&order, 0));
    assert!(position(&order, 2) < position(&order, 1));
}

#[test]
fn unconstrained_systems_all_run_once() {
    let mut s: Schedule<u32> = Schedule::default();
    for k in 0..5 {
        s.add_system_raw(SystemConfig::default(), k);
    }
    s.rebuild();
    let mut order = s.order().to_vec();
    order.sort();
    assert_eq!(order, vec![0, 1, 2, 3, 4]);
}

#[test]
fn cyclic_constraints_are_rejected() {
    let mut s: Schedule<u32> = Schedule::new();
    s.add_system_raw(SystemConfig::new().tag(tag(1)).run_before(tag(2)), 0);
    s.add_system_raw(SystemConfig::new().tag(tag(2)).run_before(tag(1)), 1);
    assert!(!s.try_rebuild());
}

#[test]
fn a_system_may_run_before_a_tag_that_nobody_has() {
    let mut s: Schedule<u32> = Schedule::new();
    s.add_system_raw(SystemConfig::new().run_before(tag(42)), 0);
    assert!(s.try_rebuild());
    assert_eq!(s.order(), &[0]);
    *s.system_mut(0) = 5;
    assert_eq!(*s.system_mut(0), 5);
}

#[test]
fn empty_schedule_has_an_empty_order() {
    let mut s: Schedule<u32> = Schedule::new();
    assert!(s.try_rebuild());
    assert_eq!(s.order().len(), 0);
    assert_eq!(s.len(), 0);
}

struct Recorder {
    name: &'static str,
}

impl sage::schedule::schedule::ScheduleSystem<u32, Vec<String>> for Recorder {
    fn run_step(self, _input: u32, _app: Vec<String>, _after: Self, _input_after: u32, _app_after: Vec<String>) -> bool {
        true
    }

    fn apply_step(self, _app: Vec<String>, _after: Self, _app_after: Vec<String>) -> bool {
        true
    }

    fn run(&mut self, input: &mut u32, app: &mut Vec<String>) {
        app.push(format!("run {} {}", self.name, input));
        *input += 1;
    }

    fn apply_deferred(&mut self, app: &mut Vec<String>) {
        app.push(format!("apply {}", self.name));
    }
}

#[test]
fn run_runs_every_system_in_order_then_applies_deferred() {
    let mut s: Schedule<Recorder> = Schedule::new();
    s.add_system_raw(SystemConfig::new().tag(tag(1)).run_after(tag(2)), Recorder { name: "late" });
    s.add_system_raw(SystemConfig::new().tag(tag(2)), Recorder { name: "early" });
    let mut log: Vec<String> = Vec::new();
    let mut input = 7;
    s.run(&mut input, &mut log);
    assert_eq!(log, vec!["run early 7", "run late 8", "apply early", "apply late"]);
    assert_eq!(input, 9);
    log.clear();
    s.run(&mut input, &mut log);
    assert_eq!(log, vec!["run early 9", "run late 10", "apply early", "apply late"]);
}

#[test]
fn constraints_through_several_shared_tags_are_one_edge() {
    let mut s: Schedule<u32> = Schedule::new();
    s.add_system_raw(SystemConfig::new().tag(tag(1)).tag(tag(2)).run_after(tag(3)).run_after(tag(4)), 0);
    s.add_system_raw(SystemConfig::new().tag(tag(3)).tag(tag(4)).run_before(tag(1)).run_before(tag(2)), 1);
    s.add_system_raw(SystemConfig::new().tag(tag(5)).run_before(tag(3)), 2);
    s.rebuild();
    assert_eq!(s.order(), &[2, 1, 0]);
}

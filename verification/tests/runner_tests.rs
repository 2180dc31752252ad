use sage::entities::entities::Entities;
use sage::entities::entity_id::EntityId;
use sage::runner::event_loop::EventLoopGlobal;
use sage::runner::windows::{RedrawPlan, WindowRecord, WindowTable, pick_output_format};

#[test]
fn new_window_needs_configuration() {
    let mut table = WindowTable::new();
    assert!(!table.surfaces_available());
    table.resume();
    let e = EntityId::dummy();
    let record = table.add_window(7, e, 640, 480);
    assert_eq!(
        record,
        WindowRecord { entity: e, width: 640, height: 480, has_surface: true, needs_configuration: true }
    );
    assert_eq!(table.get(7), Some(record));
    assert_eq!(table.get(8), None);
}

#[test]
fn window_added_while_suspended_has_no_surface() {
    let mut table = WindowTable::new();
    let record = table.add_window(1, EntityId::dummy(), 10, 10);
    assert!(!record.has_surface);
    assert_eq!(table.begin_redraw(1), RedrawPlan::NoSurface);
}

#[test]
fn redraw_configures_once() {
    let mut table = WindowTable::new();
    table.resume();
    table.add_window(3, EntityId::dummy(), 800, 600);
    assert_eq!(table.begin_redraw(3), RedrawPlan::ConfigureAndPresent { width: 800, height: 600 });
    assert_eq!(table.begin_redraw(3), RedrawPlan::Present);
    assert_eq!(table.begin_redraw(4), RedrawPlan::UnknownWindow);
}

#[test]
fn resize_requires_new_configuration() {
    let mut table = WindowTable::new();
    table.resume();
    let e = EntityId::dummy();
    table.add_window(3, e, 800, 600);
    assert_eq!(table.begin_redraw(3), RedrawPlan::ConfigureAndPresent { width: 800, height: 600 });
    assert_eq!(table.resized(3, 1024, 768), Some(e));
    assert_eq!(table.begin_redraw(3), RedrawPlan::ConfigureAndPresent { width: 1024, height: 768 });
    assert_eq!(table.resized(9, 1, 1), None);
}

#[test]
fn suspend_and_resume_toggle_surfaces() {
    let mut table = WindowTable::new();
    table.resume();
    table.add_window(1, EntityId::dummy(), 5, 5);
    table.add_window(2, EntityId::dummy(), 6, 6);
    table.suspend();
    assert!(!table.surfaces_available());
    assert!(!table.get(1).unwrap().has_surface);
    assert!(!table.get(2).unwrap().has_surface);
    assert_eq!(table.begin_redraw(2), RedrawPlan::NoSurface);
    table.resume();
    assert!(table.get(1).unwrap().has_surface);
    assert!(table.get(2).unwrap().has_surface);
}

#[test]
fn closing_windows_and_exit() {
    let mut table = WindowTable::new();
    assert!(table.should_exit(false));
    table.add_window(1, EntityId::dummy(), 5, 5);
    table.add_window(2, EntityId::dummy(), 6, 6);
    assert!(!table.should_exit(false));
    assert!(table.should_exit(true));
    let mut ids = table.window_ids();
    ids.sort();
    assert_eq!(ids, vec![1, 2]);
    table.close_windows(&vec![1]);
    assert_eq!(table.get(1), None);
    assert!(table.get(2).is_some());
    assert!(!table.should_exit(false));
    table.close_windows(&vec![2, 5]);
    assert!(table.should_exit(false));
}

#[test]
fn event_loop_global_requests() {
    let mut global: EventLoopGlobal<&str> = EventLoopGlobal::default();
    assert!(!global.exit_requested());
    assert!(global.take_pending_windows().is_none());
    let e = EntityId::dummy();
    global.create_window_on(e, "main");
    global.create_window_on(e, "second");
    let taken = global.take_pending_windows().unwrap();
    assert_eq!(taken, vec![(e, "main"), (e, "second")]);
    assert!(global.take_pending_windows().is_none());
    global.exit();
    assert!(global.exit_requested());
}

#[test]
fn event_loop_global_reserves_window_entity() {
    let mut entities: Entities<i32> = Entities::new();
    let mut global: EventLoopGlobal<u8> = EventLoopGlobal::new();
    let id = global.create_window(&mut entities, 3);
    assert!(entities.get_entity(id).is_none());
    entities.flush();
    assert!(entities.get_entity(id).is_some());
    assert_eq!(global.take_pending_windows().unwrap(), vec![(id, 3)]);
}

#[test]
fn windows_whose_component_is_gone_or_replaced_are_closed() {
    let shown = vec![(1u64, Some(1u64)), (2, None), (3, Some(4))];
    let mut closed = WindowTable::windows_to_close(&shown);
    closed.sort();
    assert_eq!(closed, vec![2, 3]);
}

#[test]
fn output_format_is_the_first_srgb_one() {
    assert_eq!(pick_output_format(&vec![false, true, true]), Some(1));
    assert_eq!(pick_output_format(&vec![false, false]), Some(0));
    assert_eq!(pick_output_format(&vec![]), None);
}

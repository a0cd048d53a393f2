use yuukei::stage::{
    actor_window_label, command_actor_id, is_actor_window_label, is_stage_overlay_label,
    power_event_name, reserve_shell_reveal_edges, stage_overlay_window_label,
    taskbar_insert_after_index, PhysicalStageBounds, PowerEvent, WalkDestination,
    SHELL_REVEAL_EDGE_RESERVE_PX,
};

#[test]
fn actor_window_labels_hex_encode_actor_ids() {
    assert_eq!(actor_window_label("yuukei"), "actor-7975756b6569");
    assert_eq!(actor_window_label("partner"), "actor-706172746e6572");
    assert_eq!(
        actor_window_label("actor/with/slash"),
        "actor-6163746f722f776974682f736c617368"
    );
}

#[test]
fn desktop_stage_actor_window_labels_hex_encode_actor_ids() {
    assert_eq!(actor_window_label("yuukei"), "actor-7975756b6569");
    assert_eq!(actor_window_label("partner"), "actor-706172746e6572");
    assert_eq!(
        actor_window_label("actor/with/slash"),
        "actor-6163746f722f776974682f736c617368"
    );
}

#[test]
fn tests_actor_window_labels_hex_encode_actor_ids() {
    assert_eq!(actor_window_label("yuukei"), "actor-7975756b6569");
    assert_eq!(actor_window_label("partner"), "actor-706172746e6572");
    assert_eq!(
        actor_window_label("actor/with/slash"),
        "actor-6163746f722f776974682f736c617368"
    );
}

#[test]
fn actor_window_labels_encode_non_ascii_ids_byte_by_byte() {
    assert_eq!(actor_window_label("夕"), "actor-e5a495");
    assert_eq!(actor_window_label(""), "actor-");
    assert!(is_actor_window_label(&actor_window_label("夕景")));
}

#[test]
fn window_label_prefixes_identify_window_kinds() {
    assert!(is_actor_window_label("actor-79"));
    assert!(!is_actor_window_label("settings"));
    assert!(!is_actor_window_label("actor"));
    assert_eq!(stage_overlay_window_label(0), "stage-overlay-0");
    assert_eq!(stage_overlay_window_label(12), "stage-overlay-12");
    assert!(is_stage_overlay_label(&stage_overlay_window_label(3)));
    assert!(!is_stage_overlay_label("actor-7975756b6569"));
}

#[test]
fn reserves_every_edge_when_work_area_fills_the_monitor() {
    let monitor = PhysicalStageBounds::new(0, 0, 1920, 1080);
    let work_area = monitor;

    let reserved = reserve_shell_reveal_edges(work_area, monitor);

    assert_eq!(reserved.x, SHELL_REVEAL_EDGE_RESERVE_PX as i32);
    assert_eq!(reserved.y, SHELL_REVEAL_EDGE_RESERVE_PX as i32);
    assert_eq!(reserved.width, 1920 - SHELL_REVEAL_EDGE_RESERVE_PX * 2);
    assert_eq!(reserved.height, 1080 - SHELL_REVEAL_EDGE_RESERVE_PX * 2);
}

#[test]
fn does_not_reserve_an_edge_already_excluded_from_work_area() {
    let monitor = PhysicalStageBounds::new(0, 0, 1920, 1080);
    let work_area = PhysicalStageBounds::new(0, 0, 1920, 1078);

    let reserved = reserve_shell_reveal_edges(work_area, monitor);

    assert_eq!(reserved.x, SHELL_REVEAL_EDGE_RESERVE_PX as i32);
    assert_eq!(reserved.y, SHELL_REVEAL_EDGE_RESERVE_PX as i32);
    assert_eq!(reserved.width, 1920 - SHELL_REVEAL_EDGE_RESERVE_PX * 2);
    assert_eq!(reserved.height, 1078 - SHELL_REVEAL_EDGE_RESERVE_PX);
}

#[test]
fn extends_partial_edge_clearance_to_the_required_reserve() {
    let monitor = PhysicalStageBounds::new(0, 0, 1920, 1080);
    let work_area = PhysicalStageBounds::new(1, 1, 1918, 1078);

    let reserved = reserve_shell_reveal_edges(work_area, monitor);

    assert_eq!(reserved, PhysicalStageBounds::new(2, 2, 1916, 1076));
}

#[test]
fn reserves_negative_origin_monitor_edges() {
    let monitor = PhysicalStageBounds::new(-1920, 6, 1920, 1080);
    let work_area = monitor;

    let reserved = reserve_shell_reveal_edges(work_area, monitor);

    assert_eq!(reserved.x, -1920 + SHELL_REVEAL_EDGE_RESERVE_PX as i32);
    assert_eq!(reserved.y, 6 + SHELL_REVEAL_EDGE_RESERVE_PX as i32);
    assert_eq!(reserved.width, 1920 - SHELL_REVEAL_EDGE_RESERVE_PX * 2);
    assert_eq!(reserved.height, 1080 - SHELL_REVEAL_EDGE_RESERVE_PX * 2);
}

#[test]
fn reserved_area_keeps_one_pixel_of_a_tiny_work_area() {
    let monitor = PhysicalStageBounds::new(0, 0, 3, 3);
    let reserved = reserve_shell_reveal_edges(monitor, monitor);
    assert_eq!(reserved, PhysicalStageBounds::new(2, 2, 1, 1));
}

#[test]
fn bounds_right_and_bottom_saturate() {
    let bounds = PhysicalStageBounds::new(10, -5, 20, 30);
    assert_eq!(bounds.right(), 30);
    assert_eq!(bounds.bottom(), 25);
    let huge = PhysicalStageBounds::new(i32::MAX - 1, 0, u32::MAX, 0);
    assert_eq!(huge.right(), i32::MAX);
}

#[test]
fn taskbar_target_is_the_last_shell_taskbar_in_z_order() {
    let classes = [
        ("ApplicationWindow", false, 1),
        ("Shell_TrayWnd", true, 1),
        ("Chrome_WidgetWin_1", true, 1),
        ("Shell_SecondaryTrayWnd", true, 1),
        ("ApplicationFrameWindow", false, 1),
    ];

    assert_eq!(taskbar_insert_after_index(&classes, 1), Some(3));
}

#[test]
fn taskbar_target_is_absent_without_explorer_taskbars() {
    let classes = [
        ("ApplicationWindow", false, 1),
        ("Chrome_WidgetWin_1", true, 1),
    ];

    assert_eq!(taskbar_insert_after_index(&classes, 1), None);
}

#[test]
fn non_topmost_shell_window_is_not_used_as_the_insertion_target() {
    let classes = [
        ("Shell_TrayWnd", true, 1),
        ("Shell_SecondaryTrayWnd", false, 1),
    ];

    assert_eq!(taskbar_insert_after_index(&classes, 1), Some(0));
}

#[test]
fn taskbar_on_another_monitor_is_not_used_as_the_insertion_target() {
    let classes = [
        ("Shell_TrayWnd", true, 1),
        ("ApplicationWindow", true, 1),
        ("Shell_SecondaryTrayWnd", true, 2),
    ];

    assert_eq!(taskbar_insert_after_index(&classes, 1), Some(0));
    assert_eq!(taskbar_insert_after_index(&classes, 2), Some(2));
}

#[test]
fn power_events_map_to_runtime_event_names() {
    assert_eq!(
        power_event_name(PowerEvent::SleepBefore),
        "device.sleep.before"
    );
    assert_eq!(power_event_name(PowerEvent::Wake), "device.wake");
}

#[test]
fn walk_destinations_are_read_from_their_exact_names() {
    assert_eq!(WalkDestination::parse("left-edge"), Some(WalkDestination::LeftEdge));
    assert_eq!(WalkDestination::parse("right-edge"), Some(WalkDestination::RightEdge));
    assert_eq!(WalkDestination::parse("Left-edge"), None);
    assert_eq!(WalkDestination::parse(""), None);
}

#[test]
fn command_actor_id_prefers_explicit_target() {
    assert_eq!(
        command_actor_id(Some("targeted"), Some("payload")).as_deref(),
        Some("targeted")
    );
    assert_eq!(command_actor_id(None, Some("payload")).as_deref(), Some("payload"));
    assert_eq!(command_actor_id(None, None), None);
}

#[test]
fn actor_window_labels_decode_to_their_id() {
    for id in ["ミカ", "a-b", ""] {
        let label = yuukei::stage::actor_window_label(id);
        let hex = &label[6..];
        assert!(hex.chars().all(|c| c.is_ascii_digit() || ('a'..='f').contains(&c)));
        let bytes: Vec<u8> = (0..hex.len() / 2)
            .map(|k| u8::from_str_radix(&hex[2 * k..2 * k + 2], 16).unwrap())
            .collect();
        assert_eq!(String::from_utf8(bytes).unwrap(), id);
    }
}

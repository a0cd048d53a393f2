use yuukei::layout::{actor_window_specs, reconcile_actor_windows, ActorSurfaceEntry};
use yuukei::stage::actor_window_label;

fn test_actor(actor_id: &str, renderable: bool) -> ActorSurfaceEntry {
    ActorSurfaceEntry {
        actor_id: actor_id.to_string(),
        display_name: actor_id.to_string(),
        renderable,
    }
}

#[test]
fn actor_window_specs_include_only_renderable_actors() {
    let catalog = vec![
        test_actor("yuukei", true),
        test_actor("headless", false),
        test_actor("partner", true),
    ];

    let specs = actor_window_specs(&catalog);

    assert_eq!(
        specs
            .iter()
            .map(|spec| (&spec.actor_id, spec.index))
            .collect::<Vec<_>>(),
        vec![(&"yuukei".to_string(), 0), (&"partner".to_string(), 1)]
    );
    assert_eq!(specs[1].label, actor_window_label("partner"));
}

#[test]
fn actor_window_reconcile_closes_stale_and_creates_missing_windows() {
    let catalog = vec![test_actor("yuukei", true), test_actor("partner", true)];

    let reconcile = reconcile_actor_windows(
        vec![
            "settings".to_string(),
            actor_window_label("yuukei"),
            actor_window_label("old"),
        ],
        &catalog,
    );

    assert_eq!(reconcile.close_labels, vec![actor_window_label("old")]);
    assert_eq!(
        reconcile
            .create_specs
            .iter()
            .map(|spec| spec.actor_id.as_str())
            .collect::<Vec<_>>(),
        vec!["partner"]
    );
    assert_eq!(reconcile.desired_specs.len(), 2);
}

#[test]
fn reconcile_closes_each_stale_label_once_in_label_order() {
    let reconcile = reconcile_actor_windows(
        vec![
            actor_window_label("zz"),
            actor_window_label("aa"),
            actor_window_label("zz"),
        ],
        &Vec::new(),
    );
    assert_eq!(
        reconcile.close_labels,
        vec![actor_window_label("aa"), actor_window_label("zz")]
    );
    assert!(reconcile.create_specs.is_empty());
}

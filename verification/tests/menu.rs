use yuukei::menu::{
    menu_lines, transition, MenuAction, MenuActor, MenuData, MenuExtension, MenuHitZone, MenuState,
    Transition,
};

fn menu_data() -> MenuData {
    MenuData {
        actors: vec![
            MenuActor {
                id: "yuukei".to_string(),
                display_name: "夕景".to_string(),
                hit_zones: vec![
                    MenuHitZone {
                        id: "hand".to_string(),
                        label: Some("手".to_string()),
                    },
                    MenuHitZone {
                        id: "head".to_string(),
                        label: Some("頭".to_string()),
                    },
                ],
            },
            MenuActor {
                id: "partner".to_string(),
                display_name: "相手".to_string(),
                hit_zones: vec![],
            },
        ],
        extensions: vec![
            MenuExtension {
                id: "zeta".to_string(),
                display_name: "Zeta".to_string(),
                enabled: false,
            },
            MenuExtension {
                id: "alpha".to_string(),
                display_name: "Alpha".to_string(),
                enabled: true,
            },
        ],
    }
}

#[test]
fn poke_selection_uses_id_sorted_actor_and_hit_zone_numbers() {
    let data = menu_data();
    let actor = transition(MenuState::PokeActor, "2", &data);
    assert_eq!(
        actor.next_state,
        MenuState::PokeHitZone {
            actor_id: "yuukei".to_string()
        }
    );
    assert_eq!(actor.action, None);

    let hit_zone = transition(actor.next_state, "1", &data);
    assert_eq!(hit_zone.next_state, MenuState::Top);
    assert_eq!(
        hit_zone.action,
        Some(MenuAction::SendPoke {
            actor_id: "yuukei".to_string(),
            hit_zone_id: "hand".to_string(),
            hit_zone_label: Some("手".to_string()),
        })
    );
}

#[test]
fn grab_and_drop_require_actor_then_nonnegative_distance() {
    let data = menu_data();
    let grab = transition(MenuState::GrabActor, "1", &data);
    assert_eq!(grab.next_state, MenuState::Top);
    assert_eq!(
        grab.action,
        Some(MenuAction::SendGrab {
            actor_id: "partner".to_string()
        })
    );

    let actor = transition(MenuState::DropActor, "2", &data);
    assert_eq!(
        actor.next_state,
        MenuState::DropDistance {
            actor_id: "yuukei".to_string()
        }
    );
    let invalid = transition(actor.next_state.clone(), "-1", &data);
    assert_eq!(invalid.next_state, actor.next_state);
    assert!(invalid.error.is_some());
    let drop = transition(actor.next_state, "42", &data);
    assert_eq!(drop.next_state, MenuState::Top);
    assert_eq!(
        drop.action,
        Some(MenuAction::SendDrop {
            actor_id: "yuukei".to_string(),
            moved_distance: 42,
        })
    );
}

#[test]
fn invalid_menu_number_stays_and_value_empty_line_returns_to_parent() {
    let data = menu_data();
    let invalid = transition(MenuState::Top, "99", &data);
    assert_eq!(invalid.next_state, MenuState::Top);
    assert!(invalid.error.is_some());

    let empty_menu = transition(MenuState::Top, "", &data);
    assert_eq!(empty_menu.next_state, MenuState::Top);
    assert_eq!(empty_menu.action, None);
    assert_eq!(empty_menu.error, None);

    let cancelled = transition(MenuState::ConversationText, "", &data);
    assert_eq!(cancelled.next_state, MenuState::Top);
    assert_eq!(cancelled.action, None);
    assert_eq!(cancelled.error, None);
}

#[test]
fn path_value_empty_line_returns_to_its_own_parent_menu() {
    let data = menu_data();
    assert_eq!(
        transition(MenuState::WorldPackPath, "", &data).next_state,
        MenuState::WorldPack
    );
    assert_eq!(
        transition(MenuState::ExtensionPath, "", &data).next_state,
        MenuState::Extensions
    );
    assert_eq!(
        transition(MenuState::EventLogPath, "", &data).next_state,
        MenuState::LogsAndPaths
    );
}

#[test]
fn extension_numbers_follow_id_order_after_install_item() {
    let data = menu_data();
    let toggle = transition(MenuState::Extensions, "2", &data);
    assert_eq!(toggle.next_state, MenuState::Extensions);
    assert_eq!(
        toggle.action,
        Some(MenuAction::SetExtensionEnabled {
            extension_id: "alpha".to_string(),
            enabled: false,
        })
    );
}

#[test]
fn actor_menu_lists_actors_in_id_order() {
    let data = menu_data();
    let lines = menu_lines(&MenuState::PokeActor, &data);
    assert_eq!(
        lines,
        vec![
            "撫でる/つつく: アクターを選択".to_string(),
            "1 相手 (partner)".to_string(),
            "2 夕景 (yuukei)".to_string(),
            "0 戻る".to_string(),
        ]
    );
}

#[test]
fn extension_menu_lists_install_then_extensions_in_id_order() {
    let data = menu_data();
    let lines = menu_lines(&MenuState::Extensions, &data);
    assert_eq!(
        lines,
        vec![
            "拡張機能".to_string(),
            "1 インストール (パス入力)".to_string(),
            "2 Alpha (alpha, 有効)".to_string(),
            "3 Zeta (zeta, 無効)".to_string(),
            "0 戻る".to_string(),
        ]
    );
}

#[test]
fn conversation_text_is_sent_and_returns_to_top() {
    let data = menu_data();
    let sent = transition(MenuState::ConversationText, "こんにちは", &data);
    assert_eq!(
        sent,
        Transition {
            next_state: MenuState::Top,
            action: Some(MenuAction::SendConversation("こんにちは".to_string())),
            error: None,
        }
    );
}

#[test]
fn hit_zone_number_out_of_range_stays_with_an_error() {
    let data = menu_data();
    let state = MenuState::PokeHitZone {
        actor_id: "yuukei".to_string(),
    };
    let result = transition(state.clone(), "3", &data);
    assert_eq!(result.next_state, state);
    assert_eq!(result.action, None);
    assert!(result.error.is_some());
}

#[test]
fn reordered_lists_give_the_same_menus_and_choices() {
    let data = menu_data();
    let mut reordered = menu_data();
    reordered.actors.reverse();
    reordered.extensions.reverse();
    for state in [MenuState::PokeActor, MenuState::GrabActor, MenuState::DropActor, MenuState::Extensions] {
        assert_eq!(menu_lines(&state, &reordered), menu_lines(&state, &data));
        for line in ["0", "1", "2", "3", "x"] {
            assert_eq!(transition(state.clone(), line, &reordered), transition(state.clone(), line, &data));
        }
    }
}

#[test]
fn reordered_hit_zones_give_the_same_menus_and_choices() {
    let data = menu_data();
    let mut reordered = menu_data();
    reordered.actors[0].hit_zones.reverse();
    let states = [
        MenuState::PokeActor,
        MenuState::PokeHitZone { actor_id: "yuukei".to_string() },
        MenuState::PokeHitZone { actor_id: "partner".to_string() },
    ];
    for state in states {
        assert_eq!(menu_lines(&state, &reordered), menu_lines(&state, &data));
        for line in ["0", "1", "2", "3"] {
            assert_eq!(transition(state.clone(), line, &reordered), transition(state.clone(), line, &data));
        }
    }
}

#[test]
fn reordered_actors_extensions_and_hit_zones_together_change_nothing() {
    let data = menu_data();
    let mut reordered = menu_data();
    reordered.actors[0].hit_zones.reverse();
    reordered.actors.reverse();
    reordered.extensions.reverse();
    let states = [
        MenuState::PokeActor,
        MenuState::PokeHitZone { actor_id: "yuukei".to_string() },
        MenuState::Extensions,
    ];
    for state in states {
        assert_eq!(menu_lines(&state, &reordered), menu_lines(&state, &data));
        for line in ["0", "1", "2", "3"] {
            assert_eq!(transition(state.clone(), line, &reordered), transition(state.clone(), line, &data));
        }
    }
}

use vstd::prelude::*;

use crate::text::{
    chars_le, chars_le_exec, chars_of, clone_opt_string, lemma_chars_le_antisym, lemma_chars_le_total,
    lemma_chars_le_trans, opt_view, parse_unsigned, parse_usize, parse_u64, spec_decimal, str_is,
    decimal_chars, string_of, lemma_decimal_roundtrip, lemma_decimal_digits, digit_char,
};

verus! {

// ---------------------------------------------------------------------------
// Stable numbering by id
// ---------------------------------------------------------------------------

/// First position `j >= i` in `order` whose key sorts after `k`.
pub open spec fn upper_pos(keys: Seq<Seq<char>>, order: Seq<int>, k: Seq<char>, i: int) -> int
    decreases order.len() - i,
{
    if i < 0 || i >= order.len() || !chars_le(keys[order[i]], k) {
        i
    } else {
        upper_pos(keys, order, k, i + 1)
    }
}

/// The first `n` indices ordered by their keys; equal keys keep their order
/// (a stable sort, inserting each index after every earlier index whose key
/// sorts no later).
pub open spec fn sort_by_keys(keys: Seq<Seq<char>>, n: int) -> Seq<int>
    decreases n,
{
    if n <= 0 {
        Seq::empty()
    } else {
        let p = sort_by_keys(keys, n - 1);
        p.insert(upper_pos(keys, p, keys[n - 1], 0), n - 1)
    }
}

proof fn lemma_upper_pos_bounds(keys: Seq<Seq<char>>, order: Seq<int>, k: Seq<char>, i: int)
    requires
        0 <= i <= order.len(),
    ensures
        i <= upper_pos(keys, order, k, i) <= order.len(),
        forall|j: int| i <= j < upper_pos(keys, order, k, i) ==> chars_le(keys[order[j]], k),
        upper_pos(keys, order, k, i) < order.len() ==> !chars_le(
            keys[order[upper_pos(keys, order, k, i)]],
            k,
        ),
    decreases order.len() - i,
{
    if i < order.len() && chars_le(keys[order[i]], k) {
        lemma_upper_pos_bounds(keys, order, k, i + 1);
    }
}

/// Sorting by keys is a permutation of `0..n` in which keys never decrease.
pub proof fn lemma_sort_by_keys(keys: Seq<Seq<char>>, n: int)
    requires
        0 <= n <= keys.len(),
    ensures
        sort_by_keys(keys, n).len() == n,
        forall|i: int| 0 <= i < n ==> 0 <= #[trigger] sort_by_keys(keys, n)[i] < n,
        forall|i: int, j: int|
            0 <= i < j < n ==> sort_by_keys(keys, n)[i] != sort_by_keys(keys, n)[j],
        forall|i: int, j: int|
            0 <= i < j < n ==> chars_le(
                keys[sort_by_keys(keys, n)[i]],
                keys[sort_by_keys(keys, n)[j]],
            ),
    decreases n,
{
    if n > 0 {
        lemma_sort_by_keys(keys, n - 1);
        let p = sort_by_keys(keys, n - 1);
        let k = keys[n - 1];
        let pos = upper_pos(keys, p, k, 0);
        lemma_upper_pos_bounds(keys, p, k, 0);
        let s = p.insert(pos, n - 1);
        assert(s == sort_by_keys(keys, n));
        assert forall|i: int, j: int| 0 <= i < j < n implies chars_le(keys[s[i]], keys[s[j]]) by {
            if j < pos {
                assert(s[i] == p[i] && s[j] == p[j]);
            } else if j == pos {
                assert(s[i] == p[i]);
            } else if i == pos {
                assert(s[j] == p[j - 1]);
                assert(!chars_le(keys[p[pos]], k));
                lemma_chars_le_total(keys[p[pos]], k);
                if j - 1 > pos {
                    lemma_chars_le_trans(k, keys[p[pos]], keys[p[j - 1]]);
                }
            } else if i < pos {
                assert(s[i] == p[i] && s[j] == p[j - 1]);
            } else {
                assert(s[i] == p[i - 1] && s[j] == p[j - 1]);
            }
        }
        assert forall|i: int, j: int| 0 <= i < j < n implies s[i] != s[j] by {
            if i == pos {
                assert(s[j] == p[j - 1]);
            } else if j == pos {
                assert(s[i] == p[i]);
            } else if i < pos && j < pos {
                assert(s[i] == p[i] && s[j] == p[j]);
            } else if i < pos {
                assert(s[i] == p[i] && s[j] == p[j - 1]);
            } else {
                assert(s[i] == p[i - 1] && s[j] == p[j - 1]);
            }
        }
        assert forall|i: int| 0 <= i < n implies 0 <= #[trigger] s[i] < n by {
            if i < pos {
                assert(s[i] == p[i]);
            } else if i > pos {
                assert(s[i] == p[i - 1]);
            }
        }
    }
}

/// Indices of `keys` in stable order of their keys.
fn sort_indices(keys: &Vec<Vec<char>>) -> (r: Vec<usize>)
    ensures
        r@.len() == keys@.len(),
        forall|i: int|
            0 <= i < r@.len() ==> #[trigger] r@[i] as int == sort_by_keys(
                key_views(keys@),
                keys@.len() as int,
            )[i],
{
    let ghost kv = key_views(keys@);
    let mut order: Vec<usize> = Vec::new();
    let mut n: usize = 0;
    while n < keys.len()
        invariant
            n <= keys@.len(),
            kv == key_views(keys@),
            order@.len() == n,
            forall|i: int| 0 <= i < n ==> #[trigger] order@[i] as int == sort_by_keys(kv, n as int)[i],
        decreases keys@.len() - n,
    {
        let ghost p = sort_by_keys(kv, n as int);
        proof {
            lemma_sort_by_keys(kv, n as int);
        }
        let mut pos: usize = 0;
        while pos < order.len() && chars_le_exec(keys[order[pos]].as_slice(), keys[n].as_slice())
            invariant
                n < keys@.len(),
                kv == key_views(keys@),
                p == sort_by_keys(kv, n as int),
                p.len() == n,
                forall|i: int| 0 <= i < n ==> 0 <= #[trigger] p[i] < n,
                order@.len() == n,
                forall|i: int| 0 <= i < n ==> #[trigger] order@[i] as int == p[i],
                pos <= n,
                upper_pos(kv, p, kv[n as int], pos as int) == upper_pos(kv, p, kv[n as int], 0),
            decreases n - pos,
        {
            pos += 1;
        }
        order.insert(pos, n);
        proof {
            let s = p.insert(pos as int, n as int);
            assert(s == sort_by_keys(kv, n + 1));
            assert forall|i: int| 0 <= i < n + 1 implies #[trigger] order@[i] as int == s[i] by {
                if i > pos {
                    assert(s[i] == p[i - 1]);
                }
            }
        }
        n += 1;
    }
    order
}

/// The characters of each key.
pub open spec fn key_views(keys: Seq<Vec<char>>) -> Seq<Seq<char>> {
    keys.map_values(|k: Vec<char>| k@)
}

} // verus!
verus! {

// ---------------------------------------------------------------------------
// Menu data
// ---------------------------------------------------------------------------

/// What the menu offers: the actors and the installed extensions.
#[derive(Clone, Debug, PartialEq, Eq)]
pub struct MenuData {
    pub actors: Vec<MenuActor>,
    pub extensions: Vec<MenuExtension>,
}

/// An actor that can be poked, grabbed or dropped.
#[derive(Clone, Debug, PartialEq, Eq)]
pub struct MenuActor {
    pub id: String,
    pub display_name: String,
    pub hit_zones: Vec<MenuHitZone>,
}

/// A part of an actor that can be poked.
#[derive(Clone, Debug, PartialEq, Eq)]
pub struct MenuHitZone {
    pub id: String,
    pub label: Option<String>,
}

/// An installed extension.
#[derive(Clone, Debug, PartialEq, Eq)]
pub struct MenuExtension {
    pub id: String,
    pub display_name: String,
    pub enabled: bool,
}

pub struct MenuHitZoneView {
    pub id: Seq<char>,
    pub label: Option<Seq<char>>,
}

pub struct MenuActorView {
    pub id: Seq<char>,
    pub display_name: Seq<char>,
    pub hit_zones: Seq<MenuHitZoneView>,
}

pub struct MenuExtensionView {
    pub id: Seq<char>,
    pub display_name: Seq<char>,
    pub enabled: bool,
}

pub struct MenuDataView {
    pub actors: Seq<MenuActorView>,
    pub extensions: Seq<MenuExtensionView>,
}

impl View for MenuHitZone {
    type V = MenuHitZoneView;

    open spec fn view(&self) -> MenuHitZoneView {
        MenuHitZoneView { id: self.id@, label: opt_view(self.label) }
    }
}

impl View for MenuActor {
    type V = MenuActorView;

    open spec fn view(&self) -> MenuActorView {
        MenuActorView {
            id: self.id@,
            display_name: self.display_name@,
            hit_zones: self.hit_zones@.map_values(|h: MenuHitZone| h@),
        }
    }
}

impl View for MenuExtension {
    type V = MenuExtensionView;

    open spec fn view(&self) -> MenuExtensionView {
        MenuExtensionView { id: self.id@, display_name: self.display_name@, enabled: self.enabled }
    }
}

impl View for MenuData {
    type V = MenuDataView;

    open spec fn view(&self) -> MenuDataView {
        MenuDataView {
            actors: self.actors@.map_values(|a: MenuActor| a@),
            extensions: self.extensions@.map_values(|e: MenuExtension| e@),
        }
    }
}

/// Where the menu is.
#[derive(Clone, Debug, PartialEq, Eq)]
pub enum MenuState {
    Top,
    PokeActor,
    PokeHitZone { actor_id: String },
    GrabActor,
    DropActor,
    DropDistance { actor_id: String },
    ConversationText,
    WorldPack,
    WorldPackPath,
    Extensions,
    ExtensionPath,
    LogsAndPaths,
    EventLogPath,
}

/// What the surface is asked to do after a line of input.
#[derive(Clone, Debug, PartialEq, Eq)]
pub enum MenuAction {
    Quit,
    SendPoke { actor_id: String, hit_zone_id: String, hit_zone_label: Option<String> },
    SendGrab { actor_id: String },
    SendDrop { actor_id: String, moved_distance: u64 },
    SendConversation(String),
    ShowSnapshot,
    ShowHistory,
    SelectWorldPack(String),
    ResetWorldPack,
    ShowWorldPackStatus,
    InstallExtension(String),
    SetExtensionEnabled { extension_id: String, enabled: bool },
    ExportEventLog(String),
    ShowPaths,
    ToggleOutputMode,
}

/// The outcome of one line of input: the next menu, and an action or an error.
#[derive(Clone, Debug, PartialEq, Eq)]
pub struct Transition {
    pub next_state: MenuState,
    pub action: Option<MenuAction>,
    pub error: Option<String>,
}

pub enum MenuStateView {
    Top,
    PokeActor,
    PokeHitZone { actor_id: Seq<char> },
    GrabActor,
    DropActor,
    DropDistance { actor_id: Seq<char> },
    ConversationText,
    WorldPack,
    WorldPackPath,
    Extensions,
    ExtensionPath,
    LogsAndPaths,
    EventLogPath,
}

pub enum MenuActionView {
    Quit,
    SendPoke { actor_id: Seq<char>, hit_zone_id: Seq<char>, hit_zone_label: Option<Seq<char>> },
    SendGrab { actor_id: Seq<char> },
    SendDrop { actor_id: Seq<char>, moved_distance: u64 },
    SendConversation(Seq<char>),
    ShowSnapshot,
    ShowHistory,
    SelectWorldPack(Seq<char>),
    ResetWorldPack,
    ShowWorldPackStatus,
    InstallExtension(Seq<char>),
    SetExtensionEnabled { extension_id: Seq<char>, enabled: bool },
    ExportEventLog(Seq<char>),
    ShowPaths,
    ToggleOutputMode,
}

pub struct TransitionView {
    pub next_state: MenuStateView,
    pub action: Option<MenuActionView>,
    pub error: Option<Seq<char>>,
}

impl View for MenuState {
    type V = MenuStateView;

    open spec fn view(&self) -> MenuStateView {
        match self {
            MenuState::Top => MenuStateView::Top,
            MenuState::PokeActor => MenuStateView::PokeActor,
            MenuState::PokeHitZone { actor_id } => MenuStateView::PokeHitZone {
                actor_id: actor_id@,
            },
            MenuState::GrabActor => MenuStateView::GrabActor,
            MenuState::DropActor => MenuStateView::DropActor,
            MenuState::DropDistance { actor_id } => MenuStateView::DropDistance {
                actor_id: actor_id@,
            },
            MenuState::ConversationText => MenuStateView::ConversationText,
            MenuState::WorldPack => MenuStateView::WorldPack,
            MenuState::WorldPackPath => MenuStateView::WorldPackPath,
            MenuState::Extensions => MenuStateView::Extensions,
            MenuState::ExtensionPath => MenuStateView::ExtensionPath,
            MenuState::LogsAndPaths => MenuStateView::LogsAndPaths,
            MenuState::EventLogPath => MenuStateView::EventLogPath,
        }
    }
}

impl View for MenuAction {
    type V = MenuActionView;

    open spec fn view(&self) -> MenuActionView {
        match self {
            MenuAction::Quit => MenuActionView::Quit,
            MenuAction::SendPoke { actor_id, hit_zone_id, hit_zone_label } => MenuActionView::SendPoke {
                actor_id: actor_id@,
                hit_zone_id: hit_zone_id@,
                hit_zone_label: opt_view(*hit_zone_label),
            },
            MenuAction::SendGrab { actor_id } => MenuActionView::SendGrab { actor_id: actor_id@ },
            MenuAction::SendDrop { actor_id, moved_distance } => MenuActionView::SendDrop {
                actor_id: actor_id@,
                moved_distance: *moved_distance,
            },
            MenuAction::SendConversation(t) => MenuActionView::SendConversation(t@),
            MenuAction::ShowSnapshot => MenuActionView::ShowSnapshot,
            MenuAction::ShowHistory => MenuActionView::ShowHistory,
            MenuAction::SelectWorldPack(p) => MenuActionView::SelectWorldPack(p@),
            MenuAction::ResetWorldPack => MenuActionView::ResetWorldPack,
            MenuAction::ShowWorldPackStatus => MenuActionView::ShowWorldPackStatus,
            MenuAction::InstallExtension(p) => MenuActionView::InstallExtension(p@),
            MenuAction::SetExtensionEnabled { extension_id, enabled } =>
                MenuActionView::SetExtensionEnabled {
                extension_id: extension_id@,
                enabled: *enabled,
            },
            MenuAction::ExportEventLog(p) => MenuActionView::ExportEventLog(p@),
            MenuAction::ShowPaths => MenuActionView::ShowPaths,
            MenuAction::ToggleOutputMode => MenuActionView::ToggleOutputMode,
        }
    }
}

impl View for Transition {
    type V = TransitionView;

    open spec fn view(&self) -> TransitionView {
        TransitionView {
            next_state: self.next_state@,
            action: match self.action {
                Some(a) => Some(a@),
                None => None,
            },
            error: opt_view(self.error),
        }
    }
}

// ---------------------------------------------------------------------------
// The menu as a state machine
// ---------------------------------------------------------------------------

/// The error shown for a number that selects nothing.
pub open spec fn invalid_number() -> Seq<char> {
    "不正な番号です。"@
}

pub open spec fn stay_v(state: MenuStateView) -> TransitionView {
    TransitionView { next_state: state, action: None, error: None }
}

pub open spec fn error_v(state: MenuStateView, message: Seq<char>) -> TransitionView {
    TransitionView { next_state: state, action: None, error: Some(message) }
}

pub open spec fn action_v(state: MenuStateView, action: MenuActionView) -> TransitionView {
    TransitionView { next_state: state, action: Some(action), error: None }
}

/// Ids of the actors, in the order given.
pub open spec fn actor_ids(d: MenuDataView) -> Seq<Seq<char>> {
    d.actors.map_values(|a: MenuActorView| a.id)
}

/// Ids of an actor's hit zones, in the order given.
pub open spec fn hit_zone_ids(a: MenuActorView) -> Seq<Seq<char>> {
    a.hit_zones.map_values(|h: MenuHitZoneView| h.id)
}

/// Ids of the extensions, in the order given.
pub open spec fn extension_ids(d: MenuDataView) -> Seq<Seq<char>> {
    d.extensions.map_values(|e: MenuExtensionView| e.id)
}

/// The actors as the menu numbers them: stably sorted by id.
pub open spec fn sorted_actor_views(d: MenuDataView) -> Seq<MenuActorView> {
    sort_by_keys(actor_ids(d), d.actors.len() as int).map_values(|i: int| d.actors[i])
}

/// An actor's hit zones as the menu numbers them: stably sorted by id.
pub open spec fn sorted_hit_zone_views(a: MenuActorView) -> Seq<MenuHitZoneView> {
    sort_by_keys(hit_zone_ids(a), a.hit_zones.len() as int).map_values(|i: int| a.hit_zones[i])
}

/// The extensions as the menu numbers them: stably sorted by id.
pub open spec fn sorted_extension_views(d: MenuDataView) -> Seq<MenuExtensionView> {
    sort_by_keys(extension_ids(d), d.extensions.len() as int).map_values(
        |i: int| d.extensions[i],
    )
}

/// A numbered choice among `count` entries: `0` goes back (`Ok(None)`), `n`
/// picks entry `n - 1`, anything else is refused.
pub open spec fn spec_numbered(line: Seq<char>, count: int) -> Result<Option<int>, ()> {
    if line == "0"@ {
        Ok(None)
    } else {
        match parse_unsigned(line) {
            Some(n) => if n <= usize::MAX && 1 <= n && n - 1 < count {
                Ok(Some(n - 1))
            } else {
                Err(())
            },
            None => Err(()),
        }
    }
}

pub open spec fn spec_select_top(line: Seq<char>) -> TransitionView {
    if line.len() == 0 {
        stay_v(MenuStateView::Top)
    } else if line == "0"@ {
        action_v(MenuStateView::Top, MenuActionView::Quit)
    } else if line == "1"@ {
        stay_v(MenuStateView::PokeActor)
    } else if line == "2"@ {
        stay_v(MenuStateView::GrabActor)
    } else if line == "3"@ {
        stay_v(MenuStateView::DropActor)
    } else if line == "4"@ {
        stay_v(MenuStateView::ConversationText)
    } else if line == "5"@ {
        action_v(MenuStateView::Top, MenuActionView::ShowSnapshot)
    } else if line == "6"@ {
        action_v(MenuStateView::Top, MenuActionView::ShowHistory)
    } else if line == "7"@ {
        stay_v(MenuStateView::WorldPack)
    } else if line == "8"@ {
        stay_v(MenuStateView::Extensions)
    } else if line == "9"@ {
        stay_v(MenuStateView::LogsAndPaths)
    } else if line == "10"@ {
        action_v(MenuStateView::Top, MenuActionView::ToggleOutputMode)
    } else {
        error_v(MenuStateView::Top, invalid_number())
    }
}

/// Choosing an actor for poking (`poke`) or dropping.
pub open spec fn spec_select_actor(
    line: Seq<char>,
    d: MenuDataView,
    state: MenuStateView,
    poke: bool,
) -> TransitionView {
    if line.len() == 0 {
        stay_v(state)
    } else {
        match spec_numbered(line, d.actors.len() as int) {
            Ok(None) => stay_v(MenuStateView::Top),
            Ok(Some(i)) => {
                let id = sorted_actor_views(d)[i].id;
                stay_v(
                    if poke {
                        MenuStateView::PokeHitZone { actor_id: id }
                    } else {
                        MenuStateView::DropDistance { actor_id: id }
                    },
                )
            },
            Err(_) => error_v(state, invalid_number()),
        }
    }
}

/// Choosing an actor to grab.
pub open spec fn spec_select_grab(line: Seq<char>, d: MenuDataView) -> TransitionView {
    if line.len() == 0 {
        stay_v(MenuStateView::GrabActor)
    } else {
        match spec_numbered(line, d.actors.len() as int) {
            Ok(None) => stay_v(MenuStateView::Top),
            Ok(Some(i)) => action_v(
                MenuStateView::Top,
                MenuActionView::SendGrab { actor_id: sorted_actor_views(d)[i].id },
            ),
            Err(_) => error_v(MenuStateView::GrabActor, invalid_number()),
        }
    }
}

/// Position of the first actor with id `id` in menu order.
pub open spec fn find_actor(actors: Seq<MenuActorView>, id: Seq<char>, i: int) -> Option<int>
    decreases actors.len() - i,
{
    if i < 0 || i >= actors.len() {
        None
    } else if actors[i].id == id {
        Some(i)
    } else {
        find_actor(actors, id, i + 1)
    }
}

pub open spec fn spec_select_hit_zone(
    line: Seq<char>,
    d: MenuDataView,
    actor_id: Seq<char>,
) -> TransitionView {
    let state = MenuStateView::PokeHitZone { actor_id };
    if line.len() == 0 {
        stay_v(state)
    } else {
        match find_actor(sorted_actor_views(d), actor_id, 0) {
            None => error_v(
                MenuStateView::PokeActor,
                "アクターが見つかりません。もう一度選んでください。"@,
            ),
            Some(a) => {
                let actor = sorted_actor_views(d)[a];
                match spec_numbered(line, actor.hit_zones.len() as int) {
                    Ok(None) => stay_v(MenuStateView::PokeActor),
                    Ok(Some(h)) => {
                        let zone = sorted_hit_zone_views(actor)[h];
                        action_v(
                            MenuStateView::Top,
                            MenuActionView::SendPoke {
                                actor_id,
                                hit_zone_id: zone.id,
                                hit_zone_label: zone.label,
                            },
                        )
                    },
                    Err(_) => error_v(state, invalid_number()),
                }
            },
        }
    }
}

pub open spec fn spec_select_distance(line: Seq<char>, actor_id: Seq<char>) -> TransitionView {
    if line.len() == 0 || line == "0"@ {
        stay_v(MenuStateView::DropActor)
    } else {
        match parse_unsigned(line) {
            Some(n) => if n <= u64::MAX {
                action_v(
                    MenuStateView::Top,
                    MenuActionView::SendDrop { actor_id, moved_distance: n as u64 },
                )
            } else {
                error_v(
                    MenuStateView::DropDistance { actor_id },
                    "移動距離は0以上の整数で入力してください。"@,
                )
            },
            None => error_v(
                MenuStateView::DropDistance { actor_id },
                "移動距離は0以上の整数で入力してください。"@,
            ),
        }
    }
}

/// Which free-text prompt a line answers.
#[derive(Clone, Copy)]
pub enum TextPrompt {
    Conversation,
    WorldPackPath,
    ExtensionPath,
    EventLogPath,
}

pub open spec fn prompt_parent(p: TextPrompt) -> MenuStateView {
    match p {
        TextPrompt::Conversation => MenuStateView::Top,
        TextPrompt::WorldPackPath => MenuStateView::WorldPack,
        TextPrompt::ExtensionPath => MenuStateView::Extensions,
        TextPrompt::EventLogPath => MenuStateView::LogsAndPaths,
    }
}

pub open spec fn prompt_action(p: TextPrompt, text: Seq<char>) -> MenuActionView {
    match p {
        TextPrompt::Conversation => MenuActionView::SendConversation(text),
        TextPrompt::WorldPackPath => MenuActionView::SelectWorldPack(text),
        TextPrompt::ExtensionPath => MenuActionView::InstallExtension(text),
        TextPrompt::EventLogPath => MenuActionView::ExportEventLog(text),
    }
}

pub open spec fn spec_select_text(line: Seq<char>, p: TextPrompt) -> TransitionView {
    if line.len() == 0 || line == "0"@ {
        stay_v(prompt_parent(p))
    } else {
        action_v(MenuStateView::Top, prompt_action(p, line))
    }
}

pub open spec fn spec_select_world_pack(line: Seq<char>) -> TransitionView {
    if line.len() == 0 {
        stay_v(MenuStateView::WorldPack)
    } else if line == "0"@ {
        stay_v(MenuStateView::Top)
    } else if line == "1"@ {
        stay_v(MenuStateView::WorldPackPath)
    } else if line == "2"@ {
        action_v(MenuStateView::WorldPack, MenuActionView::ResetWorldPack)
    } else if line == "3"@ {
        action_v(MenuStateView::WorldPack, MenuActionView::ShowWorldPackStatus)
    } else {
        error_v(MenuStateView::WorldPack, invalid_number())
    }
}

pub open spec fn spec_select_extension(line: Seq<char>, d: MenuDataView) -> TransitionView {
    if line.len() == 0 {
        stay_v(MenuStateView::Extensions)
    } else if line == "0"@ {
        stay_v(MenuStateView::Top)
    } else if line == "1"@ {
        stay_v(MenuStateView::ExtensionPath)
    } else {
        match parse_unsigned(line) {
            Some(n) => if n <= usize::MAX && 2 <= n && n - 2 < d.extensions.len() {
                let e = sorted_extension_views(d)[n - 2];
                action_v(
                    MenuStateView::Extensions,
                    MenuActionView::SetExtensionEnabled { extension_id: e.id, enabled: !e.enabled },
                )
            } else {
                error_v(MenuStateView::Extensions, invalid_number())
            },
            None => error_v(MenuStateView::Extensions, invalid_number()),
        }
    }
}

pub open spec fn spec_select_logs_and_paths(line: Seq<char>) -> TransitionView {
    if line.len() == 0 {
        stay_v(MenuStateView::LogsAndPaths)
    } else if line == "0"@ {
        stay_v(MenuStateView::Top)
    } else if line == "1"@ {
        stay_v(MenuStateView::EventLogPath)
    } else if line == "2"@ {
        action_v(MenuStateView::LogsAndPaths, MenuActionView::ShowPaths)
    } else {
        error_v(MenuStateView::LogsAndPaths, invalid_number())
    }
}

/// The menu's response to one line of input in state `s`.
pub open spec fn spec_transition(s: MenuStateView, line: Seq<char>, d: MenuDataView) -> TransitionView {
    match s {
        MenuStateView::Top => spec_select_top(line),
        MenuStateView::PokeActor => spec_select_actor(line, d, MenuStateView::PokeActor, true),
        MenuStateView::PokeHitZone { actor_id } => spec_select_hit_zone(line, d, actor_id),
        MenuStateView::GrabActor => spec_select_grab(line, d),
        MenuStateView::DropActor => spec_select_actor(line, d, MenuStateView::DropActor, false),
        MenuStateView::DropDistance { actor_id } => spec_select_distance(line, actor_id),
        MenuStateView::ConversationText => spec_select_text(line, TextPrompt::Conversation),
        MenuStateView::WorldPack => spec_select_world_pack(line),
        MenuStateView::WorldPackPath => spec_select_text(line, TextPrompt::WorldPackPath),
        MenuStateView::Extensions => spec_select_extension(line, d),
        MenuStateView::ExtensionPath => spec_select_text(line, TextPrompt::ExtensionPath),
        MenuStateView::LogsAndPaths => spec_select_logs_and_paths(line),
        MenuStateView::EventLogPath => spec_select_text(line, TextPrompt::EventLogPath),
    }
}

} // verus!
verus! {

impl Transition {
    fn stay(state: MenuState) -> (t: Transition)
        ensures
            t@ == stay_v(state@),
    {
        Transition { next_state: state, action: None, error: None }
    }

    fn error(state: MenuState, message: &str) -> (t: Transition)
        ensures
            t@ == error_v(state@, message@),
    {
        Transition { next_state: state, action: None, error: Some(message.to_owned()) }
    }

    fn action(next_state: MenuState, action: MenuAction) -> (t: Transition)
        ensures
            t@ == action_v(next_state@, action@),
    {
        Transition { next_state, action: Some(action), error: None }
    }
}

/// The actors' positions in menu order.
fn sorted_actors(data: &MenuData) -> (r: Vec<usize>)
    ensures
        r@.len() == data@.actors.len(),
        forall|i: int|
            0 <= i < r@.len() ==> #[trigger] r@[i] < data@.actors.len() && data@.actors[r@[i] as int]
                == sorted_actor_views(data@)[i],
{
    let mut keys: Vec<Vec<char>> = Vec::new();
    let mut i: usize = 0;
    while i < data.actors.len()
        invariant
            i <= data.actors@.len(),
            keys@.len() == i,
            forall|j: int| 0 <= j < i ==> #[trigger] keys@[j]@ == data.actors@[j].id@,
        decreases data.actors@.len() - i,
    {
        keys.push(chars_of(data.actors[i].id.as_str()));
        i += 1;
    }
    proof {
        assert(key_views(keys@) =~= actor_ids(data@));
    }
    let r = sort_indices(&keys);
    proof {
        lemma_sort_by_keys(actor_ids(data@), data@.actors.len() as int);
    }
    r
}

/// An actor's hit zones' positions in menu order.
fn sorted_hit_zones(actor: &MenuActor) -> (r: Vec<usize>)
    ensures
        r@.len() == actor@.hit_zones.len(),
        forall|i: int|
            0 <= i < r@.len() ==> #[trigger] r@[i] < actor@.hit_zones.len()
                && actor@.hit_zones[r@[i] as int] == sorted_hit_zone_views(actor@)[i],
{
    let mut keys: Vec<Vec<char>> = Vec::new();
    let mut i: usize = 0;
    while i < actor.hit_zones.len()
        invariant
            i <= actor.hit_zones@.len(),
            keys@.len() == i,
            forall|j: int| 0 <= j < i ==> #[trigger] keys@[j]@ == actor.hit_zones@[j].id@,
        decreases actor.hit_zones@.len() - i,
    {
        keys.push(chars_of(actor.hit_zones[i].id.as_str()));
        i += 1;
    }
    proof {
        assert(key_views(keys@) =~= hit_zone_ids(actor@));
    }
    let r = sort_indices(&keys);
    proof {
        lemma_sort_by_keys(hit_zone_ids(actor@), actor@.hit_zones.len() as int);
    }
    r
}

/// The extensions' positions in menu order.
fn sorted_extensions(data: &MenuData) -> (r: Vec<usize>)
    ensures
        r@.len() == data@.extensions.len(),
        forall|i: int|
            0 <= i < r@.len() ==> #[trigger] r@[i] < data@.extensions.len()
                && data@.extensions[r@[i] as int] == sorted_extension_views(data@)[i],
{
    let mut keys: Vec<Vec<char>> = Vec::new();
    let mut i: usize = 0;
    while i < data.extensions.len()
        invariant
            i <= data.extensions@.len(),
            keys@.len() == i,
            forall|j: int| 0 <= j < i ==> #[trigger] keys@[j]@ == data.extensions@[j].id@,
        decreases data.extensions@.len() - i,
    {
        keys.push(chars_of(data.extensions[i].id.as_str()));
        i += 1;
    }
    proof {
        assert(key_views(keys@) =~= extension_ids(data@));
    }
    let r = sort_indices(&keys);
    proof {
        lemma_sort_by_keys(extension_ids(data@), data@.extensions.len() as int);
    }
    r
}

/// A numbered choice among `count` entries.
fn numbered(line: &str, count: usize) -> (r: Result<Option<usize>, ()>)
    ensures
        match spec_numbered(line@, count as int) {
            Ok(None) => r == Ok::<Option<usize>, ()>(None),
            Ok(Some(i)) => r == Ok::<Option<usize>, ()>(Some(i as usize)),
            Err(_) => r is Err,
        },
{
    if str_is(line, "0") {
        return Ok(None);
    }
    let chars = chars_of(line);
    match parse_usize(chars.as_slice()) {
        Some(n) => match n.checked_sub(1) {
            Some(index) => if index < count {
                Ok(Some(index))
            } else {
                Err(())
            },
            None => Err(()),
        },
        None => Err(()),
    }
}

fn select_top(line: &str) -> (t: Transition)
    ensures
        t@ == spec_select_top(line@),
{
    if line.is_empty() {
        return Transition::stay(MenuState::Top);
    }
    if str_is(line, "0") {
        Transition::action(MenuState::Top, MenuAction::Quit)
    } else if str_is(line, "1") {
        Transition::stay(MenuState::PokeActor)
    } else if str_is(line, "2") {
        Transition::stay(MenuState::GrabActor)
    } else if str_is(line, "3") {
        Transition::stay(MenuState::DropActor)
    } else if str_is(line, "4") {
        Transition::stay(MenuState::ConversationText)
    } else if str_is(line, "5") {
        Transition::action(MenuState::Top, MenuAction::ShowSnapshot)
    } else if str_is(line, "6") {
        Transition::action(MenuState::Top, MenuAction::ShowHistory)
    } else if str_is(line, "7") {
        Transition::stay(MenuState::WorldPack)
    } else if str_is(line, "8") {
        Transition::stay(MenuState::Extensions)
    } else if str_is(line, "9") {
        Transition::stay(MenuState::LogsAndPaths)
    } else if str_is(line, "10") {
        Transition::action(MenuState::Top, MenuAction::ToggleOutputMode)
    } else {
        Transition::error(MenuState::Top, "不正な番号です。")
    }
}

fn select_actor(line: &str, data: &MenuData, state: MenuState, poke: bool) -> (t: Transition)
    ensures
        t@ == spec_select_actor(line@, data@, state@, poke),
{
    if line.is_empty() {
        return Transition::stay(state);
    }
    let order = sorted_actors(data);
    match numbered(line, order.len()) {
        Ok(None) => Transition::stay(MenuState::Top),
        Ok(Some(i)) => {
            let actor_id = data.actors[order[i]].id.clone();
            if poke {
                Transition::stay(MenuState::PokeHitZone { actor_id })
            } else {
                Transition::stay(MenuState::DropDistance { actor_id })
            }
        },
        Err(_) => Transition::error(state, "不正な番号です。"),
    }
}

fn select_actor_action(line: &str, data: &MenuData) -> (t: Transition)
    ensures
        t@ == spec_select_grab(line@, data@),
{
    if line.is_empty() {
        return Transition::stay(MenuState::GrabActor);
    }
    let order = sorted_actors(data);
    match numbered(line, order.len()) {
        Ok(None) => Transition::stay(MenuState::Top),
        Ok(Some(i)) => {
            let actor_id = data.actors[order[i]].id.clone();
            Transition::action(MenuState::Top, MenuAction::SendGrab { actor_id })
        },
        Err(_) => Transition::error(MenuState::GrabActor, "不正な番号です。"),
    }
}

/// The position (in `data.actors`) of the first actor in menu order with id `actor_id`.
fn find_sorted_actor(data: &MenuData, order: &Vec<usize>, actor_id: &str) -> (r: Option<usize>)
    requires
        order@.len() == data@.actors.len(),
        forall|i: int|
            0 <= i < order@.len() ==> #[trigger] order@[i] < data@.actors.len()
                && data@.actors[order@[i] as int] == sorted_actor_views(data@)[i],
    ensures
        match find_actor(sorted_actor_views(data@), actor_id@, 0) {
            None => r is None,
            Some(k) => 0 <= k < order@.len() && r == Some(order@[k]) && order@[k]
                < data@.actors.len() && data@.actors[order@[k] as int] == sorted_actor_views(
                data@,
            )[k],
        },
{
    let ghost sorted = sorted_actor_views(data@);
    proof {
        lemma_sort_by_keys(actor_ids(data@), data@.actors.len() as int);
        lemma_find_actor(sorted, actor_id@, 0);
    }
    let mut k: usize = 0;
    while k < order.len()
        invariant
            k <= order@.len(),
            order@.len() == data@.actors.len(),
            sorted == sorted_actor_views(data@),
            sorted.len() == order@.len(),
            forall|i: int|
                0 <= i < order@.len() ==> #[trigger] order@[i] < data@.actors.len()
                    && data@.actors[order@[i] as int] == sorted[i],
            find_actor(sorted, actor_id@, k as int) == find_actor(sorted, actor_id@, 0),
        decreases order@.len() - k,
    {
        let pos = order[k];
        if str_is(data.actors[pos].id.as_str(), actor_id) {
            return Some(pos);
        }
        k += 1;
    }
    None
}

/// `find_actor` finds an actor with the id at or after `i`, or none exists there.
pub proof fn lemma_find_actor(actors: Seq<MenuActorView>, id: Seq<char>, i: int)
    requires
        0 <= i,
    ensures
        match find_actor(actors, id, i) {
            Some(k) => i <= k < actors.len() && actors[k].id == id,
            None => forall|k: int| i <= k < actors.len() ==> actors[k].id != id,
        },
    decreases actors.len() - i,
{
    if i < actors.len() && actors[i].id != id {
        lemma_find_actor(actors, id, i + 1);
    }
}

fn select_hit_zone(line: &str, data: &MenuData, actor_id: &str) -> (t: Transition)
    ensures
        t@ == spec_select_hit_zone(line@, data@, actor_id@),
{
    if line.is_empty() {
        return Transition::stay(MenuState::PokeHitZone { actor_id: actor_id.to_owned() });
    }
    let order = sorted_actors(data);
    let found = find_sorted_actor(data, &order, actor_id);
    let pos = match found {
        Some(pos) => pos,
        None => {
            return Transition::error(
                MenuState::PokeActor,
                "アクターが見つかりません。もう一度選んでください。",
            );
        },
    };
    let actor = &data.actors[pos];
    let zones = sorted_hit_zones(actor);
    match numbered(line, zones.len()) {
        Ok(None) => Transition::stay(MenuState::PokeActor),
        Ok(Some(h)) => {
            let zone = &actor.hit_zones[zones[h]];
            Transition::action(
                MenuState::Top,
                MenuAction::SendPoke {
                    actor_id: actor_id.to_owned(),
                    hit_zone_id: zone.id.clone(),
                    hit_zone_label: clone_opt_string(&zone.label),
                },
            )
        },
        Err(_) => Transition::error(
            MenuState::PokeHitZone { actor_id: actor_id.to_owned() },
            "不正な番号です。",
        ),
    }
}

fn select_distance(line: &str, actor_id: String) -> (t: Transition)
    ensures
        t@ == spec_select_distance(line@, actor_id@),
{
    if line.is_empty() || str_is(line, "0") {
        return Transition::stay(MenuState::DropActor);
    }
    let chars = chars_of(line);
    match parse_u64(chars.as_slice()) {
        Some(moved_distance) => Transition::action(
            MenuState::Top,
            MenuAction::SendDrop { actor_id, moved_distance },
        ),
        None => Transition::error(
            MenuState::DropDistance { actor_id },
            "移動距離は0以上の整数で入力してください。",
        ),
    }
}

fn select_text(line: &str, prompt: TextPrompt) -> (t: Transition)
    ensures
        t@ == spec_select_text(line@, prompt),
{
    if line.is_empty() || str_is(line, "0") {
        return Transition::stay(
            match prompt {
                TextPrompt::Conversation => MenuState::Top,
                TextPrompt::WorldPackPath => MenuState::WorldPack,
                TextPrompt::ExtensionPath => MenuState::Extensions,
                TextPrompt::EventLogPath => MenuState::LogsAndPaths,
            },
        );
    }
    let text = line.to_owned();
    Transition::action(
        MenuState::Top,
        match prompt {
            TextPrompt::Conversation => MenuAction::SendConversation(text),
            TextPrompt::WorldPackPath => MenuAction::SelectWorldPack(text),
            TextPrompt::ExtensionPath => MenuAction::InstallExtension(text),
            TextPrompt::EventLogPath => MenuAction::ExportEventLog(text),
        },
    )
}

fn select_world_pack(line: &str) -> (t: Transition)
    ensures
        t@ == spec_select_world_pack(line@),
{
    if line.is_empty() {
        return Transition::stay(MenuState::WorldPack);
    }
    if str_is(line, "0") {
        Transition::stay(MenuState::Top)
    } else if str_is(line, "1") {
        Transition::stay(MenuState::WorldPackPath)
    } else if str_is(line, "2") {
        Transition::action(MenuState::WorldPack, MenuAction::ResetWorldPack)
    } else if str_is(line, "3") {
        Transition::action(MenuState::WorldPack, MenuAction::ShowWorldPackStatus)
    } else {
        Transition::error(MenuState::WorldPack, "不正な番号です。")
    }
}

fn select_extension(line: &str, data: &MenuData) -> (t: Transition)
    ensures
        t@ == spec_select_extension(line@, data@),
{
    if line.is_empty() {
        return Transition::stay(MenuState::Extensions);
    }
    if str_is(line, "0") {
        return Transition::stay(MenuState::Top);
    }
    if str_is(line, "1") {
        return Transition::stay(MenuState::ExtensionPath);
    }
    let chars = chars_of(line);
    let index = match parse_usize(chars.as_slice()) {
        Some(number) => number.checked_sub(2),
        None => None,
    };
    match index {
        Some(index) => {
            let order = sorted_extensions(data);
            if index < order.len() {
                let extension = &data.extensions[order[index]];
                Transition::action(
                    MenuState::Extensions,
                    MenuAction::SetExtensionEnabled {
                        extension_id: extension.id.clone(),
                        enabled: !extension.enabled,
                    },
                )
            } else {
                Transition::error(MenuState::Extensions, "不正な番号です。")
            }
        },
        None => Transition::error(MenuState::Extensions, "不正な番号です。"),
    }
}

fn select_logs_and_paths(line: &str) -> (t: Transition)
    ensures
        t@ == spec_select_logs_and_paths(line@),
{
    if line.is_empty() {
        return Transition::stay(MenuState::LogsAndPaths);
    }
    if str_is(line, "0") {
        Transition::stay(MenuState::Top)
    } else if str_is(line, "1") {
        Transition::stay(MenuState::EventLogPath)
    } else if str_is(line, "2") {
        Transition::action(MenuState::LogsAndPaths, MenuAction::ShowPaths)
    } else {
        Transition::error(MenuState::LogsAndPaths, "不正な番号です。")
    }
}

/// The menu's response to one line of input (without its line break) in
/// state `state`: the next state, and the action to run or the error to show.
pub fn transition(state: MenuState, line: &str, data: &MenuData) -> (t: Transition)
    ensures
        t@ == spec_transition(state@, line@, data@),
{
    match state {
        MenuState::Top => select_top(line),
        MenuState::PokeActor => select_actor(line, data, MenuState::PokeActor, true),
        MenuState::PokeHitZone { actor_id } => select_hit_zone(line, data, actor_id.as_str()),
        MenuState::GrabActor => select_actor_action(line, data),
        MenuState::DropActor => select_actor(line, data, MenuState::DropActor, false),
        MenuState::DropDistance { actor_id } => select_distance(line, actor_id),
        MenuState::ConversationText => select_text(line, TextPrompt::Conversation),
        MenuState::WorldPack => select_world_pack(line),
        MenuState::WorldPackPath => select_text(line, TextPrompt::WorldPackPath),
        MenuState::Extensions => select_extension(line, data),
        MenuState::ExtensionPath => select_text(line, TextPrompt::ExtensionPath),
        MenuState::LogsAndPaths => select_logs_and_paths(line),
        MenuState::EventLogPath => select_text(line, TextPrompt::EventLogPath),
    }
}

} // verus!
verus! {

// ---------------------------------------------------------------------------
// What the menu shows
// ---------------------------------------------------------------------------

/// The characters of each line.
pub open spec fn lines_view(lines: Seq<String>) -> Seq<Seq<char>> {
    lines.map_values(|l: String| l@)
}

/// `"{number} {name} ({id})"`.
pub open spec fn numbered_line(number: nat, name: Seq<char>, id: Seq<char>) -> Seq<char> {
    spec_decimal(number) + " "@ + name + " ("@ + id + ")"@
}

/// The line that goes back.
pub open spec fn back_line() -> Seq<char> {
    "0 戻る"@
}

pub open spec fn spec_actor_lines(title: Seq<char>, d: MenuDataView) -> Seq<Seq<char>> {
    let sorted = sorted_actor_views(d);
    seq![title] + Seq::new(
        sorted.len(),
        |i: int| numbered_line((i + 1) as nat, sorted[i].display_name, sorted[i].id),
    ) + seq![back_line()]
}

/// How a hit zone is shown: its label, or its id when it has none.
pub open spec fn zone_label(z: MenuHitZoneView) -> Seq<char> {
    match z.label {
        Some(l) => l,
        None => z.id,
    }
}

pub open spec fn spec_hit_zone_lines(actor_id: Seq<char>, d: MenuDataView) -> Seq<Seq<char>> {
    let title = "撫でる/つつく: "@ + actor_id + " のヒットゾーンを選択"@;
    let zones = match find_actor(sorted_actor_views(d), actor_id, 0) {
        Some(a) => {
            let sorted = sorted_hit_zone_views(sorted_actor_views(d)[a]);
            Seq::new(
                sorted.len(),
                |i: int| numbered_line((i + 1) as nat, zone_label(sorted[i]), sorted[i].id),
            )
        },
        None => Seq::empty(),
    };
    seq![title] + zones + seq![back_line()]
}

/// `"{number} {name} ({id}, 有効|無効)"`.
pub open spec fn extension_line(number: nat, e: MenuExtensionView) -> Seq<char> {
    spec_decimal(number) + " "@ + e.display_name + " ("@ + e.id + ", "@ + (if e.enabled {
        "有効"@
    } else {
        "無効"@
    }) + ")"@
}

pub open spec fn spec_extension_lines(d: MenuDataView) -> Seq<Seq<char>> {
    let sorted = sorted_extension_views(d);
    seq!["拡張機能"@, "1 インストール (パス入力)"@] + Seq::new(
        sorted.len(),
        |i: int| extension_line((i + 2) as nat, sorted[i]),
    ) + seq![back_line()]
}

/// The lines the menu shows in state `s`.
pub open spec fn spec_menu_lines(s: MenuStateView, d: MenuDataView) -> Seq<Seq<char>> {
    match s {
        MenuStateView::Top => seq![
            "1 撫でる/つつく"@,
            "2 つまむ"@,
            "3 おろす"@,
            "4 話しかける"@,
            "5 状態を見る"@,
            "6 コマンド履歴"@,
            "7 World Pack"@,
            "8 拡張機能"@,
            "9 ログとパス"@,
            "10 出力モード切替"@,
            "0 終了"@,
        ],
        MenuStateView::PokeActor => spec_actor_lines("撫でる/つつく: アクターを選択"@, d),
        MenuStateView::PokeHitZone { actor_id } => spec_hit_zone_lines(actor_id, d),
        MenuStateView::GrabActor => spec_actor_lines("つまむ: アクターを選択"@, d),
        MenuStateView::DropActor => spec_actor_lines("おろす: アクターを選択"@, d),
        MenuStateView::DropDistance { actor_id } => seq![
            "おろす: "@ + actor_id + " の移動距離を入力 (空行で戻る)"@,
            back_line(),
        ],
        MenuStateView::ConversationText => seq!["セリフを入力 (空行で戻る)"@, back_line()],
        MenuStateView::WorldPack => seq![
            "World Pack"@,
            "1 選択 (パス入力)"@,
            "2 リセット"@,
            "3 状態表示"@,
            back_line(),
        ],
        MenuStateView::WorldPackPath => seq![
            "World Pack ディレクトリを入力 (空行で戻る)"@,
            back_line(),
        ],
        MenuStateView::Extensions => spec_extension_lines(d),
        MenuStateView::ExtensionPath => seq!["Extension ディレクトリを入力 (空行で戻る)"@, back_line()],
        MenuStateView::LogsAndPaths => seq![
            "ログとパス"@,
            "1 イベントログ書き出し (パス入力)"@,
            "2 パス表示"@,
            back_line(),
        ],
        MenuStateView::EventLogPath => seq!["イベントログ書き出し先を入力 (空行で戻る)"@, back_line()],
    }
}

/// `"{number} {name} ({id})"`.
fn numbered_text(number: usize, name: &str, id: &str) -> (s: String)
    ensures
        s@ == numbered_line(number as nat, name@, id@),
{
    let digits = decimal_chars(number);
    let mut s = string_of(digits.as_slice());
    s.append(" ");
    s.append(name);
    s.append(" (");
    s.append(id);
    s.append(")");
    s
}

/// A vector of the given literal lines.
fn literal_lines(items: &[&str]) -> (v: Vec<String>)
    ensures
        v@.len() == items@.len(),
        forall|i: int| 0 <= i < items@.len() ==> #[trigger] v@[i]@ == items@[i]@,
{
    let mut v: Vec<String> = Vec::new();
    let mut i: usize = 0;
    while i < items.len()
        invariant
            i <= items@.len(),
            v@.len() == i,
            forall|j: int| 0 <= j < i ==> #[trigger] v@[j]@ == items@[j]@,
        decreases items@.len() - i,
    {
        v.push(items[i].to_owned());
        i += 1;
    }
    v
}

fn actor_lines(title: &str, data: &MenuData) -> (v: Vec<String>)
    ensures
        lines_view(v@) == spec_actor_lines(title@, data@),
{
    let order = sorted_actors(data);
    let ghost sorted = sorted_actor_views(data@);
    proof {
        lemma_sort_by_keys(actor_ids(data@), data@.actors.len() as int);
    }
    let mut lines: Vec<String> = Vec::new();
    lines.push(title.to_owned());
    let mut i: usize = 0;
    while i < order.len()
        invariant
            i <= order@.len(),
            sorted == sorted_actor_views(data@),
            order@.len() == data@.actors.len(),
            sorted.len() == order@.len(),
            forall|k: int|
                0 <= k < order@.len() ==> #[trigger] order@[k] < data@.actors.len()
                    && data@.actors[order@[k] as int] == sorted[k],
            lines@.len() == i + 1,
            lines@[0]@ == title@,
            forall|k: int|
                1 <= k <= i ==> #[trigger] lines@[k]@ == numbered_line(
                    k as nat,
                    sorted[k - 1].display_name,
                    sorted[k - 1].id,
                ),
        decreases order@.len() - i,
    {
        proof {
            lemma_sort_by_keys(actor_ids(data@), data@.actors.len() as int);
        }
        let actor = &data.actors[order[i]];
        lines.push(numbered_text(i + 1, actor.display_name.as_str(), actor.id.as_str()));
        i += 1;
    }
    lines.push("0 戻る".to_owned());
    proof {
        lemma_sort_by_keys(actor_ids(data@), data@.actors.len() as int);
        assert(lines_view(lines@) =~= spec_actor_lines(title@, data@));
    }
    lines
}

fn hit_zone_lines(actor_id: &str, data: &MenuData) -> (v: Vec<String>)
    ensures
        lines_view(v@) == spec_hit_zone_lines(actor_id@, data@),
{
    let mut title = "撫でる/つつく: ".to_owned();
    title.append(actor_id);
    title.append(" のヒットゾーンを選択");
    let mut lines: Vec<String> = Vec::new();
    lines.push(title);
    let order = sorted_actors(data);
    let found = find_sorted_actor(data, &order, actor_id);
    let ghost zones_v: Seq<Seq<char>> = Seq::empty();
    match found {
        Some(pos) => {
            let actor = &data.actors[pos];
            let zones = sorted_hit_zones(actor);
            let ghost sorted = sorted_hit_zone_views(actor@);
            proof {
                lemma_sort_by_keys(hit_zone_ids(actor@), actor@.hit_zones.len() as int);
            }
            let mut i: usize = 0;
            while i < zones.len()
                invariant
                    i <= zones@.len(),
                    sorted == sorted_hit_zone_views(actor@),
                    zones@.len() == actor@.hit_zones.len(),
                    sorted.len() == zones@.len(),
                    forall|k: int|
                        0 <= k < zones@.len() ==> #[trigger] zones@[k] < actor@.hit_zones.len()
                            && actor@.hit_zones[zones@[k] as int] == sorted[k],
                    lines@.len() == i + 1,
                    lines@[0]@ == "撫でる/つつく: "@ + actor_id@ + " のヒットゾーンを選択"@,
                    forall|k: int|
                        1 <= k <= i ==> #[trigger] lines@[k]@ == numbered_line(
                            k as nat,
                            zone_label(sorted[k - 1]),
                            sorted[k - 1].id,
                        ),
                decreases zones@.len() - i,
            {
                proof {
                    lemma_sort_by_keys(hit_zone_ids(actor@), actor@.hit_zones.len() as int);
                }
                let zone = &actor.hit_zones[zones[i]];
                let label = match &zone.label {
                    Some(l) => l.as_str(),
                    None => zone.id.as_str(),
                };
                lines.push(numbered_text(i + 1, label, zone.id.as_str()));
                i += 1;
            }
            lines.push("0 戻る".to_owned());
            proof {
                lemma_sort_by_keys(hit_zone_ids(actor@), actor@.hit_zones.len() as int);
                assert(lines_view(lines@) =~= spec_hit_zone_lines(actor_id@, data@));
            }
        },
        None => {
            lines.push("0 戻る".to_owned());
            proof {
                assert(lines_view(lines@) =~= spec_hit_zone_lines(actor_id@, data@));
            }
        },
    }
    lines
}

fn extension_lines(data: &MenuData) -> (v: Vec<String>)
    requires
        data@.extensions.len() + 2 <= usize::MAX,
    ensures
        lines_view(v@) == spec_extension_lines(data@),
{
    let order = sorted_extensions(data);
    let ghost sorted = sorted_extension_views(data@);
    proof {
        lemma_sort_by_keys(extension_ids(data@), data@.extensions.len() as int);
    }
    let mut lines: Vec<String> = Vec::new();
    lines.push("拡張機能".to_owned());
    lines.push("1 インストール (パス入力)".to_owned());
    let mut i: usize = 0;
    while i < order.len()
        invariant
            i <= order@.len(),
            sorted == sorted_extension_views(data@),
            order@.len() == data@.extensions.len(),
            sorted.len() == order@.len(),
            forall|k: int|
                0 <= k < order@.len() ==> #[trigger] order@[k] < data@.extensions.len()
                    && data@.extensions[order@[k] as int] == sorted[k],
            lines@.len() == i + 2,
            data@.extensions.len() + 2 <= usize::MAX,
            lines@[0]@ == "拡張機能"@,
            lines@[1]@ == "1 インストール (パス入力)"@,
            forall|k: int|
                2 <= k < i + 2 ==> #[trigger] lines@[k]@ == extension_line(k as nat, sorted[k - 2]),
        decreases order@.len() - i,
    {
        proof {
            lemma_sort_by_keys(extension_ids(data@), data@.extensions.len() as int);
        }
        let extension = &data.extensions[order[i]];
        let digits = decimal_chars(i + 2);
        let mut line = string_of(digits.as_slice());
        line.append(" ");
        line.append(extension.display_name.as_str());
        line.append(" (");
        line.append(extension.id.as_str());
        line.append(", ");
        if extension.enabled {
            line.append("有効");
        } else {
            line.append("無効");
        }
        line.append(")");
        lines.push(line);
        i += 1;
    }
    lines.push("0 戻る".to_owned());
    proof {
        lemma_sort_by_keys(extension_ids(data@), data@.extensions.len() as int);
        assert(lines_view(lines@) =~= spec_extension_lines(data@));
    }
    lines
}

/// The lines the menu shows in `state`, each entry numbered as `transition`
/// reads the number.
pub fn menu_lines(state: &MenuState, data: &MenuData) -> (v: Vec<String>)
    requires
        data@.extensions.len() + 2 <= usize::MAX,
    ensures
        lines_view(v@) == spec_menu_lines(state@, data@),
{
    let lines = match state {
        MenuState::Top => literal_lines(
            &[
                "1 撫でる/つつく",
                "2 つまむ",
                "3 おろす",
                "4 話しかける",
                "5 状態を見る",
                "6 コマンド履歴",
                "7 World Pack",
                "8 拡張機能",
                "9 ログとパス",
                "10 出力モード切替",
                "0 終了",
            ],
        ),
        MenuState::PokeActor => actor_lines("撫でる/つつく: アクターを選択", data),
        MenuState::PokeHitZone { actor_id } => hit_zone_lines(actor_id.as_str(), data),
        MenuState::GrabActor => actor_lines("つまむ: アクターを選択", data),
        MenuState::DropActor => actor_lines("おろす: アクターを選択", data),
        MenuState::DropDistance { actor_id } => {
            let mut first = "おろす: ".to_owned();
            first.append(actor_id.as_str());
            first.append(" の移動距離を入力 (空行で戻る)");
            let mut v: Vec<String> = Vec::new();
            v.push(first);
            v.push("0 戻る".to_owned());
            v
        },
        MenuState::ConversationText => literal_lines(&["セリフを入力 (空行で戻る)", "0 戻る"]),
        MenuState::WorldPack => literal_lines(
            &["World Pack", "1 選択 (パス入力)", "2 リセット", "3 状態表示", "0 戻る"],
        ),
        MenuState::WorldPackPath => literal_lines(
            &["World Pack ディレクトリを入力 (空行で戻る)", "0 戻る"],
        ),
        MenuState::Extensions => extension_lines(data),
        MenuState::ExtensionPath => literal_lines(
            &["Extension ディレクトリを入力 (空行で戻る)", "0 戻る"],
        ),
        MenuState::LogsAndPaths => literal_lines(
            &["ログとパス", "1 イベントログ書き出し (パス入力)", "2 パス表示", "0 戻る"],
        ),
        MenuState::EventLogPath => literal_lines(
            &["イベントログ書き出し先を入力 (空行で戻る)", "0 戻る"],
        ),
    };
    proof {
        assert(lines_view(lines@) =~= spec_menu_lines(state@, data@));
    }
    lines
}

} // verus!
verus! {

// ---------------------------------------------------------------------------
// Laws of the menu
// ---------------------------------------------------------------------------

/// A rendered number `k >= 1` is neither empty, `"0"` nor `"1"` unless `k == 1`.
proof fn lemma_decimal_not_literal(k: nat)
    requires
        k >= 1,
    ensures
        spec_decimal(k).len() > 0,
        spec_decimal(k) != "0"@,
        k >= 2 ==> spec_decimal(k) != "1"@,
{
    reveal_strlit("0");
    reveal_strlit("1");
    lemma_decimal_digits(k);
    if k < 10 {
        assert(spec_decimal(k)[0] == digit_char(k));
        crate::text::lemma_digit_char(k);
    }
}

/// The number shown next to an actor selects that actor: in the poke, grab and drop
/// menus the line numbered `k` names the `k`-th actor in id order (between the title and
/// the line that goes back), and entering `k` moves on with exactly that actor.
pub proof fn lemma_actor_number_selects_listed_actor(d: MenuDataView, k: nat)
    requires
        1 <= k <= d.actors.len(),
        k <= usize::MAX,
    ensures
        spec_transition(MenuStateView::PokeActor, spec_decimal(k), d) == stay_v(
            MenuStateView::PokeHitZone { actor_id: sorted_actor_views(d)[k - 1].id },
        ),
        spec_transition(MenuStateView::DropActor, spec_decimal(k), d) == stay_v(
            MenuStateView::DropDistance { actor_id: sorted_actor_views(d)[k - 1].id },
        ),
        spec_transition(MenuStateView::GrabActor, spec_decimal(k), d) == action_v(
            MenuStateView::Top,
            MenuActionView::SendGrab { actor_id: sorted_actor_views(d)[k - 1].id },
        ),
        spec_menu_lines(MenuStateView::PokeActor, d)[k as int] == numbered_line(
            k,
            sorted_actor_views(d)[k - 1].display_name,
            sorted_actor_views(d)[k - 1].id,
        ),
        spec_menu_lines(MenuStateView::GrabActor, d)[k as int] == numbered_line(
            k,
            sorted_actor_views(d)[k - 1].display_name,
            sorted_actor_views(d)[k - 1].id,
        ),
        spec_menu_lines(MenuStateView::DropActor, d)[k as int] == numbered_line(
            k,
            sorted_actor_views(d)[k - 1].display_name,
            sorted_actor_views(d)[k - 1].id,
        ),
        spec_menu_lines(MenuStateView::PokeActor, d)[0] == "撫でる/つつく: アクターを選択"@,
        spec_menu_lines(MenuStateView::GrabActor, d)[0] == "つまむ: アクターを選択"@,
        spec_menu_lines(MenuStateView::DropActor, d)[0] == "おろす: アクターを選択"@,
        spec_menu_lines(MenuStateView::PokeActor, d).last() == back_line(),
        spec_menu_lines(MenuStateView::GrabActor, d).last() == back_line(),
        spec_menu_lines(MenuStateView::DropActor, d).last() == back_line(),
{
    lemma_decimal_roundtrip(k);
    lemma_decimal_not_literal(k);
    lemma_sort_by_keys(actor_ids(d), d.actors.len() as int);
}

/// The number shown next to an extension toggles that extension: the line
/// numbered `k + 1` names the `k`-th extension in id order, and entering
/// `k + 1` flips exactly its enabled state.
pub proof fn lemma_extension_number_toggles_listed_extension(d: MenuDataView, k: nat)
    requires
        1 <= k <= d.extensions.len(),
        k + 1 <= usize::MAX,
    ensures
        spec_transition(MenuStateView::Extensions, spec_decimal(k + 1), d) == action_v(
            MenuStateView::Extensions,
            MenuActionView::SetExtensionEnabled {
                extension_id: sorted_extension_views(d)[k - 1].id,
                enabled: !sorted_extension_views(d)[k - 1].enabled,
            },
        ),
        spec_extension_lines(d)[(k + 1) as int] == extension_line(k + 1, sorted_extension_views(d)[k - 1]),
{
    lemma_decimal_roundtrip(k + 1);
    lemma_decimal_not_literal(k + 1);
    lemma_sort_by_keys(extension_ids(d), d.extensions.len() as int);
}

/// The actors are numbered in id order: each id sorts no later than the next,
/// and every actor is listed exactly once.
pub proof fn lemma_actors_listed_in_id_order(d: MenuDataView)
    ensures
        sorted_actor_views(d).len() == d.actors.len(),
        forall|i: int, j: int|
            0 <= i < j < d.actors.len() ==> chars_le(
                sorted_actor_views(d)[i].id,
                sorted_actor_views(d)[j].id,
            ),
        forall|i: int|
            0 <= i < d.actors.len() ==> #[trigger] listed(
                sort_by_keys(actor_ids(d), d.actors.len() as int),
                i,
            ),
{
    let n = d.actors.len() as int;
    let s = sort_by_keys(actor_ids(d), n);
    lemma_sort_by_keys(actor_ids(d), n);
    assert forall|i: int, j: int| 0 <= i < j < n implies chars_le(
        sorted_actor_views(d)[i].id,
        sorted_actor_views(d)[j].id,
    ) by {
        assert(sorted_actor_views(d)[i].id == actor_ids(d)[s[i]]);
        assert(sorted_actor_views(d)[j].id == actor_ids(d)[s[j]]);
    }
    assert forall|i: int| 0 <= i < n implies #[trigger] listed(s, i) by {
        lemma_permutation_covers(s, n, i);
    }
}

/// Value `v` occurs in `s`.
pub open spec fn listed(s: Seq<int>, v: int) -> bool {
    exists|j: int| 0 <= j < s.len() && s[j] == v
}

/// A sequence of `n` distinct values in `0..n` contains every value in `0..n`.
proof fn lemma_permutation_covers(s: Seq<int>, n: int, v: int)
    requires
        s.len() == n,
        0 <= v < n,
        forall|i: int| 0 <= i < n ==> 0 <= #[trigger] s[i] < n,
        forall|i: int, j: int| 0 <= i < j < n ==> s[i] != s[j],
    ensures
        exists|j: int| 0 <= j < n && s[j] == v,
{
    if !(exists|j: int| 0 <= j < n && s[j] == v) {
        let set_s = s.to_set();
        let range = Set::new(|x: int| 0 <= x < n && x != v);
        assert(set_s.subset_of(range));
        vstd::set_lib::lemma_int_range(0, n);
        assert(range =~= Set::new(|x: int| 0 <= x < n).remove(v));
        assert(Set::new(|x: int| 0 <= x < n) =~= vstd::set_lib::set_int_range(0, n));
        vstd::set_lib::lemma_len_subset(set_s, range);
        s.unique_seq_to_set();
        assert(s.no_duplicates());
    }
}

/// A line of input either asks for an action or is refused with an error, never both.
pub proof fn lemma_transition_action_or_error(s: MenuStateView, line: Seq<char>, d: MenuDataView)
    ensures
        spec_transition(s, line, d).action is Some ==> spec_transition(s, line, d).error is None,
{
}


// ---------------------------------------------------------------------------
// Numbering does not depend on the order of the lists
// ---------------------------------------------------------------------------

/// No two ids are the same.
pub open spec fn ids_unique(ids: Seq<Seq<char>>) -> bool {
    forall|i: int, j: int| 0 <= i < j < ids.len() ==> ids[i] != ids[j]
}

/// The listing in strictly increasing order of `key`.
pub open spec fn strictly_by_key<T>(s: Seq<T>, key: spec_fn(T) -> Seq<char>) -> bool {
    forall|i: int, j: int| 0 <= i < j < s.len() ==> chars_le(key(s[i]), key(s[j])) && key(s[i]) != key(s[j])
}

/// Two listings with the same elements, each in strictly increasing order of `key`,
/// agree up to position `j`.
proof fn lemma_listings_agree<T>(s: Seq<T>, t: Seq<T>, key: spec_fn(T) -> Seq<char>, j: int)
    requires
        s.len() == t.len(),
        0 <= j <= s.len(),
        strictly_by_key(s, key),
        strictly_by_key(t, key),
        forall|x: T| s.contains(x) <==> t.contains(x),
    ensures
        forall|k: int| 0 <= k < j ==> s[k] == t[k],
    decreases j,
{
    if j > 0 {
        let c = j - 1;
        lemma_listings_agree(s, t, key, c);
        let x = s[c];
        assert(s.contains(x));
        let m = choose|m: int| 0 <= m < t.len() && t[m] == x;
        if m != c {
            let y = t[c];
            assert(t.contains(y));
            let q = choose|q: int| 0 <= q < s.len() && s[q] == y;
            if m < c {
                assert(s[m] == t[m]);
            } else if q < c {
                assert(t[q] == s[q]);
            } else if q == c {
                assert(t[m] == t[c]);
            } else {
                assert(chars_le(key(s[c]), key(s[q])));
                assert(chars_le(key(t[c]), key(t[m])));
                lemma_chars_le_antisym(key(x), key(y));
            }
        }
    }
}

/// An index listing of `xs` sorted by the ids `keys` of its elements: strictly increasing
/// in id when ids are unique, and holding exactly the elements of `xs`.
proof fn lemma_sorted_listing<T>(xs: Seq<T>, key: spec_fn(T) -> Seq<char>, keys: Seq<Seq<char>>, s: Seq<T>)
    requires
        keys == xs.map_values(key),
        ids_unique(keys),
        s.len() == xs.len(),
        forall|i: int| 0 <= i < s.len() ==> s[i] == xs[sort_by_keys(keys, xs.len() as int)[i]],
    ensures
        s.len() == xs.len(),
        strictly_by_key(s, key),
        forall|x: T| s.contains(x) <==> xs.contains(x),
{
    let n = xs.len() as int;
    let p = sort_by_keys(keys, n);
    lemma_sort_by_keys(keys, n);
    assert forall|i: int, j: int| 0 <= i < j < s.len() implies chars_le(key(s[i]), key(s[j])) && key(s[i]) != key(s[j]) by {
        assert(key(s[i]) == keys[p[i]]);
        assert(key(s[j]) == keys[p[j]]);
        if p[i] < p[j] {
            assert(keys[p[i]] != keys[p[j]]);
        } else {
            assert(keys[p[j]] != keys[p[i]]);
        }
    }
    assert forall|x: T| s.contains(x) <==> xs.contains(x) by {
        if s.contains(x) {
            let i = choose|i: int| 0 <= i < s.len() && s[i] == x;
            assert(xs[p[i]] == x);
        }
        if xs.contains(x) {
            let v = choose|v: int| 0 <= v < xs.len() && xs[v] == x;
            lemma_permutation_covers(p, n, v);
            let i = choose|i: int| 0 <= i < n && p[i] == v;
            assert(s[i] == x);
        }
    }
}

/// Listings of the same elements with unique ids are numbered alike.
proof fn lemma_same_numbering<T>(a: Seq<T>, b: Seq<T>, key: spec_fn(T) -> Seq<char>)
    requires
        ids_unique(a.map_values(key)),
        ids_unique(b.map_values(key)),
        a.to_multiset() == b.to_multiset(),
    ensures
        a.len() == b.len(),
        forall|i: int| 0 <= i < a.len() ==> a[sort_by_keys(a.map_values(key), a.len() as int)[i]] == b[sort_by_keys(
            b.map_values(key),
            b.len() as int,
        )[i]],
{
    broadcast use vstd::seq_lib::group_to_multiset_ensures;
    assert(a.to_multiset().len() == a.len());
    assert(b.to_multiset().len() == b.len());
    lemma_sort_by_keys(a.map_values(key), a.len() as int);
    lemma_sort_by_keys(b.map_values(key), b.len() as int);
    let s = sort_by_keys(a.map_values(key), a.len() as int).map_values(|i: int| a[i]);
    let t = sort_by_keys(b.map_values(key), b.len() as int).map_values(|i: int| b[i]);
    lemma_sorted_listing(a, key, a.map_values(key), s);
    lemma_sorted_listing(b, key, b.map_values(key), t);
    assert forall|x: T| s.contains(x) <==> t.contains(x) by {
        assert(a.contains(x) <==> a.to_multiset().count(x) > 0);
        assert(b.contains(x) <==> b.to_multiset().count(x) > 0);
    }
    lemma_listings_agree(s, t, key, s.len() as int);
    assert forall|i: int| 0 <= i < a.len() implies a[sort_by_keys(a.map_values(key), a.len() as int)[i]] == b[sort_by_keys(
        b.map_values(key),
        b.len() as int,
    )[i]] by {
        assert(s[i] == t[i]);
    }
}

/// Listing the actors and the extensions in another order (ids unique within each list)
/// changes neither what a line of input does in any menu state nor the lines a menu shows:
/// numbers follow id order, never the order given.
pub proof fn lemma_menu_ignores_list_order(s: MenuStateView, line: Seq<char>, d: MenuDataView, d2: MenuDataView)
    requires
        ids_unique(actor_ids(d)),
        ids_unique(actor_ids(d2)),
        ids_unique(extension_ids(d)),
        ids_unique(extension_ids(d2)),
        d2.actors.to_multiset() == d.actors.to_multiset(),
        d2.extensions.to_multiset() == d.extensions.to_multiset(),
    ensures
        spec_transition(s, line, d2) == spec_transition(s, line, d),
        spec_menu_lines(s, d2) == spec_menu_lines(s, d),
{
    broadcast use vstd::seq_lib::group_to_multiset_ensures;
    let ak = |a: MenuActorView| a.id;
    let ek = |e: MenuExtensionView| e.id;
    assert(actor_ids(d) =~= d.actors.map_values(ak));
    assert(actor_ids(d2) =~= d2.actors.map_values(ak));
    assert(extension_ids(d) =~= d.extensions.map_values(ek));
    assert(extension_ids(d2) =~= d2.extensions.map_values(ek));
    lemma_same_numbering(d.actors, d2.actors, ak);
    lemma_same_numbering(d.extensions, d2.extensions, ek);
    lemma_sort_by_keys(actor_ids(d), d.actors.len() as int);
    lemma_sort_by_keys(actor_ids(d2), d2.actors.len() as int);
    lemma_sort_by_keys(extension_ids(d), d.extensions.len() as int);
    lemma_sort_by_keys(extension_ids(d2), d2.extensions.len() as int);
    assert(sorted_actor_views(d) =~= sorted_actor_views(d2));
    assert(sorted_extension_views(d) =~= sorted_extension_views(d2));
    assert(d.actors.len() == d2.actors.len());
    assert(d.extensions.len() == d2.extensions.len());
}

/// An actor's hit zones listed in another order (ids unique) are numbered alike.
pub proof fn lemma_hit_zones_ignore_list_order(a: MenuActorView, a2: MenuActorView)
    requires
        ids_unique(hit_zone_ids(a)),
        ids_unique(hit_zone_ids(a2)),
        a2.hit_zones.to_multiset() == a.hit_zones.to_multiset(),
    ensures
        sorted_hit_zone_views(a2) == sorted_hit_zone_views(a),
{
    broadcast use vstd::seq_lib::group_to_multiset_ensures;
    let hk = |h: MenuHitZoneView| h.id;
    assert(hit_zone_ids(a) =~= a.hit_zones.map_values(hk));
    assert(hit_zone_ids(a2) =~= a2.hit_zones.map_values(hk));
    lemma_same_numbering(a.hit_zones, a2.hit_zones, hk);
    lemma_sort_by_keys(hit_zone_ids(a), a.hit_zones.len() as int);
    lemma_sort_by_keys(hit_zone_ids(a2), a2.hit_zones.len() as int);
    assert(sorted_hit_zone_views(a) =~= sorted_hit_zone_views(a2));
}


/// Two actor listings with the same ids position by position find an id at the same place.
proof fn lemma_find_same_ids(x: Seq<MenuActorView>, y: Seq<MenuActorView>, id: Seq<char>, i: int)
    requires
        x.len() == y.len(),
        forall|k: int| 0 <= k < x.len() ==> x[k].id == y[k].id,
    ensures
        find_actor(x, id, i) == find_actor(y, id, i),
    decreases x.len() - i,
{
    if 0 <= i < x.len() && x[i].id != id {
        lemma_find_same_ids(x, y, id, i + 1);
    }
}

/// `b` is the actor `a` with its hit zones listed in another order, ids unique in each.
pub open spec fn same_actor_up_to_zone_order(a: MenuActorView, b: MenuActorView) -> bool {
    &&& a.id == b.id
    &&& a.display_name == b.display_name
    &&& ids_unique(hit_zone_ids(a))
    &&& ids_unique(hit_zone_ids(b))
    &&& b.hit_zones.to_multiset() == a.hit_zones.to_multiset()
}

/// Listing each actor's hit zones in another order (ids unique within each actor) changes
/// neither what a line of input does in any menu state nor the lines a menu shows.
pub proof fn lemma_menu_ignores_hit_zone_order(s: MenuStateView, line: Seq<char>, d: MenuDataView, d2: MenuDataView)
    requires
        d2.extensions == d.extensions,
        d2.actors.len() == d.actors.len(),
        forall|k: int| 0 <= k < d.actors.len() ==> #[trigger] same_actor_up_to_zone_order(d.actors[k], d2.actors[k]),
    ensures
        spec_transition(s, line, d2) == spec_transition(s, line, d),
        spec_menu_lines(s, d2) == spec_menu_lines(s, d),
{
    broadcast use vstd::seq_lib::group_to_multiset_ensures;
    let n = d.actors.len() as int;
    assert forall|k: int| 0 <= k < n implies #[trigger] actor_ids(d)[k] == actor_ids(d2)[k] by {
        assert(same_actor_up_to_zone_order(d.actors[k], d2.actors[k]));
    }
    assert(actor_ids(d) =~= actor_ids(d2));
    lemma_sort_by_keys(actor_ids(d), n);
    let p = sort_by_keys(actor_ids(d), n);
    let x = sorted_actor_views(d);
    let y = sorted_actor_views(d2);
    assert forall|k: int| 0 <= k < n implies {
        &&& #[trigger] x[k].id == y[k].id
        &&& x[k].display_name == y[k].display_name
        &&& x[k].hit_zones.len() == y[k].hit_zones.len()
        &&& sorted_hit_zone_views(x[k]) == sorted_hit_zone_views(y[k])
    } by {
        assert(x[k] == d.actors[p[k]]);
        assert(y[k] == d2.actors[p[k]]);
        assert(same_actor_up_to_zone_order(d.actors[p[k]], d2.actors[p[k]]));
        assert(y[k].hit_zones.to_multiset().len() == y[k].hit_zones.len());
        assert(x[k].hit_zones.to_multiset().len() == x[k].hit_zones.len());
        lemma_hit_zones_ignore_list_order(x[k], y[k]);
    }
    match s {
        MenuStateView::PokeHitZone { actor_id } => {
            lemma_find_same_ids(x, y, actor_id, 0);
            lemma_find_actor(x, actor_id, 0);
        },
        _ => {},
    }
}


/// Listing the actors, the extensions and each actor's hit zones in other orders (ids
/// unique within each list) changes neither what a line of input does in any menu state
/// nor the lines a menu shows. `d1` is `d` with each actor's hit zones reordered and the
/// actors still in `d`'s order; `d2` is `d1` with the actors and extensions reordered.
pub proof fn lemma_menu_ignores_all_list_orders(
    s: MenuStateView,
    line: Seq<char>,
    d: MenuDataView,
    d1: MenuDataView,
    d2: MenuDataView,
)
    requires
        d1.extensions == d.extensions,
        d1.actors.len() == d.actors.len(),
        forall|k: int| 0 <= k < d.actors.len() ==> #[trigger] same_actor_up_to_zone_order(d.actors[k], d1.actors[k]),
        ids_unique(actor_ids(d1)),
        ids_unique(actor_ids(d2)),
        ids_unique(extension_ids(d1)),
        ids_unique(extension_ids(d2)),
        d2.actors.to_multiset() == d1.actors.to_multiset(),
        d2.extensions.to_multiset() == d1.extensions.to_multiset(),
    ensures
        spec_transition(s, line, d2) == spec_transition(s, line, d),
        spec_menu_lines(s, d2) == spec_menu_lines(s, d),
{
    lemma_menu_ignores_hit_zone_order(s, line, d, d1);
    lemma_menu_ignores_list_order(s, line, d1, d2);
}


/// Where the first space of a menu line is (its length when it has none).
pub open spec fn space_index(s: Seq<char>) -> int
    decreases s.len(),
{
    if s.len() == 0 || s[0] == ' ' {
        0
    } else {
        1 + space_index(s.drop_first())
    }
}

/// The number a menu line shows: its text before the first space.
pub open spec fn shown_number(line: Seq<char>) -> Seq<char> {
    line.take(space_index(line))
}

/// The label a menu line shows: its text after the first space.
pub open spec fn shown_label(line: Seq<char>) -> Seq<char> {
    line.skip(space_index(line) + 1)
}

/// What a top-menu label names: the submenu it opens, or the action it asks for.
pub open spec fn top_label_outcome(label: Seq<char>) -> TransitionView {
    if label == "撫でる/つつく"@ {
        stay_v(MenuStateView::PokeActor)
    } else if label == "つまむ"@ {
        stay_v(MenuStateView::GrabActor)
    } else if label == "おろす"@ {
        stay_v(MenuStateView::DropActor)
    } else if label == "話しかける"@ {
        stay_v(MenuStateView::ConversationText)
    } else if label == "状態を見る"@ {
        action_v(MenuStateView::Top, MenuActionView::ShowSnapshot)
    } else if label == "コマンド履歴"@ {
        action_v(MenuStateView::Top, MenuActionView::ShowHistory)
    } else if label == "World Pack"@ {
        stay_v(MenuStateView::WorldPack)
    } else if label == "拡張機能"@ {
        stay_v(MenuStateView::Extensions)
    } else if label == "ログとパス"@ {
        stay_v(MenuStateView::LogsAndPaths)
    } else if label == "出力モード切替"@ {
        action_v(MenuStateView::Top, MenuActionView::ToggleOutputMode)
    } else if label == "終了"@ {
        action_v(MenuStateView::Top, MenuActionView::Quit)
    } else {
        error_v(MenuStateView::Top, invalid_number())
    }
}

/// Every top-menu number does what its line says: for each line of the top menu, entering
/// the number it shows gives the outcome its label names (`5 状態を見る` shows the
/// snapshot, `6 コマンド履歴` the history, `0 終了` quits, and so on).
#[verifier::spinoff_prover]
#[verifier::rlimit(50)]
pub proof fn lemma_top_numbers_do_what_lines_say(d: MenuDataView)
    ensures
        forall|k: int| 0 <= k < spec_menu_lines(MenuStateView::Top, d).len() ==> spec_transition(
            MenuStateView::Top,
            shown_number(#[trigger] spec_menu_lines(MenuStateView::Top, d)[k]),
            d,
        ) == top_label_outcome(shown_label(spec_menu_lines(MenuStateView::Top, d)[k])),
{
    let lines = spec_menu_lines(MenuStateView::Top, d);
    reveal_strlit("1 撫でる/つつく");
    reveal_strlit("2 つまむ");
    reveal_strlit("3 おろす");
    reveal_strlit("4 話しかける");
    reveal_strlit("5 状態を見る");
    reveal_strlit("6 コマンド履歴");
    reveal_strlit("7 World Pack");
    reveal_strlit("8 拡張機能");
    reveal_strlit("9 ログとパス");
    reveal_strlit("10 出力モード切替");
    reveal_strlit("0 終了");
    reveal_strlit("撫でる/つつく");
    reveal_strlit("つまむ");
    reveal_strlit("おろす");
    reveal_strlit("話しかける");
    reveal_strlit("状態を見る");
    reveal_strlit("コマンド履歴");
    reveal_strlit("World Pack");
    reveal_strlit("拡張機能");
    reveal_strlit("ログとパス");
    reveal_strlit("出力モード切替");
    reveal_strlit("終了");
    reveal_strlit("0");
    reveal_strlit("1");
    reveal_strlit("2");
    reveal_strlit("3");
    reveal_strlit("4");
    reveal_strlit("5");
    reveal_strlit("6");
    reveal_strlit("7");
    reveal_strlit("8");
    reveal_strlit("9");
    reveal_strlit("10");
    reveal_with_fuel(space_index, 3);
    assert("0"@[0] == '0');
    assert("1"@[0] == '1');
    assert("2"@[0] == '2');
    assert("3"@[0] == '3');
    assert("4"@[0] == '4');
    assert("5"@[0] == '5');
    assert("6"@[0] == '6');
    assert("7"@[0] == '7');
    assert("8"@[0] == '8');
    assert("9"@[0] == '9');
    assert("10"@.len() == 2);
    assert("撫でる/つつく"@.len() == 7 && "撫でる/つつく"@[0] == '撫' && "撫でる/つつく"@[1] == 'で');
    assert("つまむ"@.len() == 3 && "つまむ"@[0] == 'つ' && "つまむ"@[1] == 'ま');
    assert("おろす"@.len() == 3 && "おろす"@[0] == 'お' && "おろす"@[1] == 'ろ');
    assert("話しかける"@.len() == 5 && "話しかける"@[0] == '話' && "話しかける"@[1] == 'し');
    assert("状態を見る"@.len() == 5 && "状態を見る"@[0] == '状' && "状態を見る"@[1] == '態');
    assert("コマンド履歴"@.len() == 6 && "コマンド履歴"@[0] == 'コ' && "コマンド履歴"@[1] == 'マ');
    assert("World Pack"@.len() == 10 && "World Pack"@[0] == 'W' && "World Pack"@[1] == 'o');
    assert("拡張機能"@.len() == 4 && "拡張機能"@[0] == '拡' && "拡張機能"@[1] == '張');
    assert("ログとパス"@.len() == 5 && "ログとパス"@[0] == 'ロ' && "ログとパス"@[1] == 'グ');
    assert("出力モード切替"@.len() == 7 && "出力モード切替"@[0] == '出' && "出力モード切替"@[1] == '力');
    assert("終了"@.len() == 2 && "終了"@[0] == '終' && "終了"@[1] == '了');
    assert forall|k: int| 0 <= k < lines.len() implies spec_transition(
        MenuStateView::Top,
        shown_number(#[trigger] lines[k]),
        d,
    ) == top_label_outcome(shown_label(lines[k])) by {
        let l = lines[k];
        if k < 9 {
            assert(space_index(l) == 1);
        } else if k == 9 {
            assert(space_index(l) == 2);
        } else {
            assert(space_index(l) == 1);
        }
        assert(shown_number(l) =~= l.take(space_index(l)));
        if k == 0 {
            assert(shown_number(l) =~= "1"@);
            assert(shown_label(l) =~= "撫でる/つつく"@);
            assert(spec_transition(MenuStateView::Top, shown_number(l), d) == top_label_outcome(shown_label(l)));
        } else if k == 1 {
            assert(shown_number(l) =~= "2"@);
            assert(shown_label(l) =~= "つまむ"@);
            assert(spec_transition(MenuStateView::Top, shown_number(l), d) == top_label_outcome(shown_label(l)));
        } else if k == 2 {
            assert(shown_number(l) =~= "3"@);
            assert(shown_label(l) =~= "おろす"@);
            assert(spec_transition(MenuStateView::Top, shown_number(l), d) == top_label_outcome(shown_label(l)));
        } else if k == 3 {
            assert(shown_number(l) =~= "4"@);
            assert(shown_label(l) =~= "話しかける"@);
            assert(spec_transition(MenuStateView::Top, shown_number(l), d) == top_label_outcome(shown_label(l)));
        } else if k == 4 {
            assert(shown_number(l) =~= "5"@);
            assert(shown_label(l) =~= "状態を見る"@);
            assert(spec_transition(MenuStateView::Top, shown_number(l), d) == top_label_outcome(shown_label(l)));
        } else if k == 5 {
            assert(shown_number(l) =~= "6"@);
            assert(shown_label(l) =~= "コマンド履歴"@);
            assert(spec_transition(MenuStateView::Top, shown_number(l), d) == top_label_outcome(shown_label(l)));
        } else if k == 6 {
            assert(shown_number(l) =~= "7"@);
            assert(shown_label(l) =~= "World Pack"@);
            assert(spec_transition(MenuStateView::Top, shown_number(l), d) == top_label_outcome(shown_label(l)));
        } else if k == 7 {
            assert(shown_number(l) =~= "8"@);
            assert(shown_label(l) =~= "拡張機能"@);
            assert(spec_transition(MenuStateView::Top, shown_number(l), d) == top_label_outcome(shown_label(l)));
        } else if k == 8 {
            assert(shown_number(l) =~= "9"@);
            assert(shown_label(l) =~= "ログとパス"@);
            assert(spec_transition(MenuStateView::Top, shown_number(l), d) == top_label_outcome(shown_label(l)));
        } else if k == 9 {
            assert(shown_number(l) =~= "10"@);
            assert(shown_label(l) =~= "出力モード切替"@);
            assert(spec_transition(MenuStateView::Top, shown_number(l), d) == top_label_outcome(shown_label(l)));
        } else {
            assert(shown_number(l) =~= "0"@);
            assert(shown_label(l) =~= "終了"@);
            assert(spec_transition(MenuStateView::Top, shown_number(l), d) == top_label_outcome(shown_label(l)));
        }
    }
}


/// What a label of the World Pack or the logs-and-paths menu names.
pub open spec fn sub_label_outcome(menu: MenuStateView, label: Seq<char>) -> TransitionView {
    if label == "戻る"@ {
        stay_v(MenuStateView::Top)
    } else if menu == MenuStateView::WorldPack && label == "選択 (パス入力)"@ {
        stay_v(MenuStateView::WorldPackPath)
    } else if menu == MenuStateView::WorldPack && label == "リセット"@ {
        action_v(MenuStateView::WorldPack, MenuActionView::ResetWorldPack)
    } else if menu == MenuStateView::WorldPack && label == "状態表示"@ {
        action_v(MenuStateView::WorldPack, MenuActionView::ShowWorldPackStatus)
    } else if menu == MenuStateView::LogsAndPaths && label == "イベントログ書き出し (パス入力)"@ {
        stay_v(MenuStateView::EventLogPath)
    } else if menu == MenuStateView::LogsAndPaths && label == "パス表示"@ {
        action_v(MenuStateView::LogsAndPaths, MenuActionView::ShowPaths)
    } else {
        error_v(menu, invalid_number())
    }
}

/// In the World Pack and the logs-and-paths menus, every numbered line does what it says:
/// entering the number it shows gives the outcome its label names.
#[verifier::spinoff_prover]
#[verifier::rlimit(50)]
pub proof fn lemma_submenu_numbers_do_what_lines_say(d: MenuDataView)
    ensures
        forall|k: int| 1 <= k < spec_menu_lines(MenuStateView::WorldPack, d).len() ==> spec_transition(
            MenuStateView::WorldPack,
            shown_number(#[trigger] spec_menu_lines(MenuStateView::WorldPack, d)[k]),
            d,
        ) == sub_label_outcome(MenuStateView::WorldPack, shown_label(spec_menu_lines(MenuStateView::WorldPack, d)[k])),
        forall|k: int| 1 <= k < spec_menu_lines(MenuStateView::LogsAndPaths, d).len() ==> spec_transition(
            MenuStateView::LogsAndPaths,
            shown_number(#[trigger] spec_menu_lines(MenuStateView::LogsAndPaths, d)[k]),
            d,
        ) == sub_label_outcome(MenuStateView::LogsAndPaths, shown_label(spec_menu_lines(MenuStateView::LogsAndPaths, d)[k])),
{
    reveal_with_fuel(space_index, 2);
    reveal_strlit("選択 (パス入力)");
    assert("選択 (パス入力)"@.len() == 9 && "選択 (パス入力)"@[0] == '選' && "選択 (パス入力)"@[1] == '択');
    reveal_strlit("リセット");
    assert("リセット"@.len() == 4 && "リセット"@[0] == 'リ' && "リセット"@[1] == 'セ');
    reveal_strlit("状態表示");
    assert("状態表示"@.len() == 4 && "状態表示"@[0] == '状' && "状態表示"@[1] == '態');
    reveal_strlit("イベントログ書き出し (パス入力)");
    assert("イベントログ書き出し (パス入力)"@.len() == 17 && "イベントログ書き出し (パス入力)"@[0] == 'イ' && "イベントログ書き出し (パス入力)"@[1] == 'ベ');
    reveal_strlit("パス表示");
    assert("パス表示"@.len() == 4 && "パス表示"@[0] == 'パ' && "パス表示"@[1] == 'ス');
    reveal_strlit("戻る");
    assert("戻る"@.len() == 2 && "戻る"@[0] == '戻' && "戻る"@[1] == 'る');
    reveal_strlit("1 選択 (パス入力)");
    reveal_strlit("2 リセット");
    reveal_strlit("3 状態表示");
    reveal_strlit("0 戻る");
    reveal_strlit("1 イベントログ書き出し (パス入力)");
    reveal_strlit("2 パス表示");
    reveal_strlit("0");
    assert("0"@[0] == '0');
    reveal_strlit("1");
    assert("1"@[0] == '1');
    reveal_strlit("2");
    assert("2"@[0] == '2');
    reveal_strlit("3");
    assert("3"@[0] == '3');
    let wl = spec_menu_lines(MenuStateView::WorldPack, d);
    assert forall|k: int| 1 <= k < wl.len() implies spec_transition(
        MenuStateView::WorldPack,
        shown_number(#[trigger] wl[k]),
        d,
    ) == sub_label_outcome(MenuStateView::WorldPack, shown_label(wl[k])) by {
        let l = wl[k];
        if k == 1 {
            assert(space_index(l) == 1);
            assert(shown_number(l) =~= "1"@);
            assert(shown_label(l) =~= "選択 (パス入力)"@);
            assert(spec_transition(MenuStateView::WorldPack, shown_number(l), d) == sub_label_outcome(MenuStateView::WorldPack, shown_label(l)));
        }
        if k == 2 {
            assert(space_index(l) == 1);
            assert(shown_number(l) =~= "2"@);
            assert(shown_label(l) =~= "リセット"@);
            assert(spec_transition(MenuStateView::WorldPack, shown_number(l), d) == sub_label_outcome(MenuStateView::WorldPack, shown_label(l)));
        }
        if k == 3 {
            assert(space_index(l) == 1);
            assert(shown_number(l) =~= "3"@);
            assert(shown_label(l) =~= "状態表示"@);
            assert(spec_transition(MenuStateView::WorldPack, shown_number(l), d) == sub_label_outcome(MenuStateView::WorldPack, shown_label(l)));
        }
        if k == 4 {
            assert(space_index(l) == 1);
            assert(shown_number(l) =~= "0"@);
            assert(shown_label(l) =~= "戻る"@);
            assert(spec_transition(MenuStateView::WorldPack, shown_number(l), d) == sub_label_outcome(MenuStateView::WorldPack, shown_label(l)));
        }
    }
    let ll = spec_menu_lines(MenuStateView::LogsAndPaths, d);
    assert forall|k: int| 1 <= k < ll.len() implies spec_transition(
        MenuStateView::LogsAndPaths,
        shown_number(#[trigger] ll[k]),
        d,
    ) == sub_label_outcome(MenuStateView::LogsAndPaths, shown_label(ll[k])) by {
        let l = ll[k];
        if k == 1 {
            assert(space_index(l) == 1);
            assert(shown_number(l) =~= "1"@);
            assert(shown_label(l) =~= "イベントログ書き出し (パス入力)"@);
            assert(spec_transition(MenuStateView::LogsAndPaths, shown_number(l), d) == sub_label_outcome(MenuStateView::LogsAndPaths, shown_label(l)));
        }
        if k == 2 {
            assert(space_index(l) == 1);
            assert(shown_number(l) =~= "2"@);
            assert(shown_label(l) =~= "パス表示"@);
            assert(spec_transition(MenuStateView::LogsAndPaths, shown_number(l), d) == sub_label_outcome(MenuStateView::LogsAndPaths, shown_label(l)));
        }
        if k == 3 {
            assert(space_index(l) == 1);
            assert(shown_number(l) =~= "0"@);
            assert(shown_label(l) =~= "戻る"@);
            assert(spec_transition(MenuStateView::LogsAndPaths, shown_number(l), d) == sub_label_outcome(MenuStateView::LogsAndPaths, shown_label(l)));
        }
    }
}

} // verus!

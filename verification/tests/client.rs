use lan_presence::config::{
    create_default_config, default_config, get_config, get_or_create_config, hash_password,
    resolve_config, resolve_password, to_hex_lower, Settings,
};
use lan_presence::httpmeta::content_disposition_filename;
use lan_presence::notify::{notification_step, NotificationContext};
use lan_presence::order::{str_eq, str_le};
use lan_presence::poller::{
    classify_status, filter_open_games, poll_step, sort_aggregate, PollOutcome, ProcessContext,
    StatusClass,
};
use lan_presence::types::{Game, NowPlayingResponse, PartyPlayingEntry, Player};

fn game(name: &str) -> Game {
    Game { name: name.to_string(), label: name.to_string(), icon: String::new() }
}

fn game_labeled(name: &str, label: &str) -> Game {
    Game { name: name.to_string(), label: label.to_string(), icon: String::new() }
}

fn player(id: &str) -> Player {
    Player { id: id.to_string(), name: id.to_string() }
}

fn party(name: &str, ids: &[&str]) -> PartyPlayingEntry {
    PartyPlayingEntry { game: game(name), players: ids.iter().map(|i| player(i)).collect() }
}

fn party_labeled(name: &str, label: &str, ids: &[&str]) -> PartyPlayingEntry {
    PartyPlayingEntry {
        game: game_labeled(name, label),
        players: ids.iter().map(|i| player(i)).collect(),
    }
}

fn majority_view() -> NowPlayingResponse {
    // Four players online, three of them on chess: 3 >= 4/2 holds.
    NowPlayingResponse { active: vec![party("chess", &["a", "b", "c"])], online: 4 }
}

#[test]
fn one_notification_on_the_fourth_cycle() {
    // Five cycles of the same majority, local player never in it: exactly
    // one notification, fired on the fourth cycle.
    let mut state: Option<NotificationContext> = None;
    let open: Vec<String> = vec![];
    let mut fired: Vec<usize> = vec![];
    for cycle in 1..=5 {
        if notification_step(&mut state, &majority_view(), &open).is_some() {
            fired.push(cycle);
        }
    }
    assert_eq!(fired, vec![4]);
}

#[test]
fn no_notification_when_local_player_joins() {
    let mut state: Option<NotificationContext> = None;
    let open = vec!["chess".to_string()];
    for _ in 0..10 {
        assert!(notification_step(&mut state, &majority_view(), &open).is_none());
    }
    assert!(state.is_none());
}

#[test]
fn no_notification_without_majority() {
    // Two of six players is below the majority-or-tie bar (2 < 6/2).
    let view = NowPlayingResponse { active: vec![party("chess", &["a", "b"])], online: 6 };
    let mut state: Option<NotificationContext> = None;
    let open: Vec<String> = vec![];
    for _ in 0..10 {
        assert!(notification_step(&mut state, &view, &open).is_none());
    }
    assert!(state.is_none());
}

#[test]
fn majority_or_tie_counts() {
    // One player of two online is a tie (1 >= 2/2 == 1) and counts.
    let view = NowPlayingResponse { active: vec![party("chess", &["a"])], online: 2 };
    let mut state: Option<NotificationContext> = None;
    let open: Vec<String> = vec![];
    let mut fired: usize = 0;
    for _ in 0..4 {
        if notification_step(&mut state, &view, &open).is_some() {
            fired += 1;
        }
    }
    assert_eq!(fired, 1);
}

#[test]
fn game_change_restarts_grace_period() {
    let mut state: Option<NotificationContext> = None;
    let open: Vec<String> = vec![];
    // Three cycles of chess, then the majority switches to doom.
    for _ in 0..3 {
        assert!(notification_step(&mut state, &majority_view(), &open).is_none());
    }
    let doom = NowPlayingResponse { active: vec![party("doom", &["a", "b", "c"])], online: 4 };
    // The switch restarts the count: three more doom cycles stay silent,
    // the fourth fires.
    assert!(notification_step(&mut state, &doom, &open).is_none());
    assert!(notification_step(&mut state, &doom, &open).is_none());
    assert!(notification_step(&mut state, &doom, &open).is_none());
    let fire = notification_step(&mut state, &doom, &open);
    assert_eq!(fire.map(|g| g.name), Some("doom".to_string()));
}

#[test]
fn no_majority_cycle_leaves_tracking_untouched() {
    let mut state: Option<NotificationContext> = None;
    let open: Vec<String> = vec![];
    // Two majority cycles, then one without a majority, then two more: the
    // counter is not reset by the gap, so the fifth overall majority cycle
    // fires (cycle counts 1, 2, -, 3, 4).
    assert!(notification_step(&mut state, &majority_view(), &open).is_none());
    assert!(notification_step(&mut state, &majority_view(), &open).is_none());
    let empty = NowPlayingResponse { active: vec![], online: 4 };
    assert!(notification_step(&mut state, &empty, &open).is_none());
    assert!(notification_step(&mut state, &majority_view(), &open).is_none());
    assert!(notification_step(&mut state, &majority_view(), &open).is_some());
}

#[test]
fn sort_orders_by_count_then_label() {
    let mut active = vec![
        party_labeled("a", "Zeta", &["p1"]),
        party_labeled("b", "Alpha", &["p2"]),
        party_labeled("c", "Mid", &["p3", "p4"]),
    ];
    sort_aggregate(&mut active);
    let order: Vec<&str> = active.iter().map(|e| e.game.label.as_str()).collect();
    assert_eq!(order, vec!["Mid", "Alpha", "Zeta"]);
}

#[test]
fn filter_open_games_intersects_and_dedupes() {
    let processes = vec![
        "chess".to_string(),
        "browser".to_string(),
        "chess".to_string(),
        "doom".to_string(),
    ];
    let catalog = vec![game("chess"), game("doom"), game("solitaire")];
    let open = filter_open_games(&processes, &catalog);
    assert_eq!(open, vec!["chess".to_string(), "doom".to_string()]);
}

#[test]
fn poll_step_caches_fresh_answer() {
    let mut ctx = ProcessContext::new(0);
    let open: Vec<String> = vec![];
    let resp = majority_view();
    let PollOutcome { view, .. } = poll_step(&mut ctx, &open, Some(resp), 777);
    assert_eq!(ctx.last_put, 777);
    assert!(ctx.last_response.is_some());
    assert_eq!(view.unwrap().online, 4);
}

#[test]
fn poll_step_not_modified_keeps_cache() {
    let mut ctx = ProcessContext::new(0);
    let open: Vec<String> = vec![];
    poll_step(&mut ctx, &open, Some(majority_view()), 777);
    let PollOutcome { view, .. } = poll_step(&mut ctx, &open, None, 999);
    assert_eq!(ctx.last_put, 777);
    assert_eq!(view.unwrap().online, 4);
}

#[test]
fn poll_step_cold_start_shows_nothing() {
    let mut ctx = ProcessContext::new(0);
    let open: Vec<String> = vec![];
    let PollOutcome { view, notify } = poll_step(&mut ctx, &open, None, 5);
    assert!(view.is_none());
    assert!(notify.is_none());
    assert!(ctx.notification_ctx.is_none());
}

#[test]
fn poll_step_sorts_presentation_copy_and_keeps_cache_raw() {
    let mut ctx = ProcessContext::new(0);
    let open: Vec<String> = vec![];
    let resp = NowPlayingResponse {
        active: vec![party("solitaire", &["x"]), party("chess", &["a", "b"])],
        online: 3,
    };
    let PollOutcome { view, .. } = poll_step(&mut ctx, &open, Some(resp), 1);
    let sorted = view.unwrap();
    assert_eq!(sorted.active[0].game.name, "chess");
    // The cache keeps the answer as it arrived.
    assert_eq!(ctx.last_response.as_ref().unwrap().active[0].game.name, "solitaire");
}

#[test]
fn status_classification() {
    assert_eq!(classify_status(200), StatusClass::Success);
    assert_eq!(classify_status(304), StatusClass::NotModified);
    assert_eq!(classify_status(401), StatusClass::Unauthorized);
    assert_eq!(classify_status(400), StatusClass::BadRequest);
    assert_eq!(classify_status(500), StatusClass::Other);
    assert_eq!(classify_status(204), StatusClass::Other);
}

#[test]
fn filename_extracted_from_header() {
    assert_eq!(
        content_disposition_filename("attachment; filename=\"icon.png\""),
        Some("icon.png".to_string())
    );
}

#[test]
fn filename_capture_is_greedy_to_last_quote() {
    assert_eq!(
        content_disposition_filename("filename=\"a\"b\""),
        Some("a\"b".to_string())
    );
}

#[test]
fn filename_opening_is_leftmost() {
    assert_eq!(
        content_disposition_filename("filename=\"one\"; filename=\"two\""),
        Some("one\"; filename=\"two".to_string())
    );
}

#[test]
fn filename_does_not_cross_lines() {
    assert_eq!(content_disposition_filename("filename=\"ab\ncd\""), None);
    assert_eq!(
        content_disposition_filename("x\nfilename=\"ok\"\ny"),
        Some("ok".to_string())
    );
}

#[test]
fn filename_absent() {
    assert_eq!(content_disposition_filename("attachment"), None);
    assert_eq!(content_disposition_filename("filename=\"unclosed"), None);
    assert_eq!(content_disposition_filename(""), None);
}

#[test]
fn sha256_password_hash_matches_known_digest() {
    assert_eq!(
        hash_password("password"),
        "5e884898da28047151d0e56f8dc6292773603d0d6aabbdd62a11ef721d1542d8"
    );
    assert_eq!(
        hash_password(""),
        "e3b0c44298fc1c149afbf4c8996fb92427ae41e4649b934ca495991b7852b855"
    );
}

#[test]
fn hex_rendering() {
    assert_eq!(to_hex_lower(&vec![0xbe, 0xef, 0x00, 0x0a]), "beef000a");
    assert_eq!(to_hex_lower(&vec![]), "");
}

#[test]
fn default_config_has_fresh_id() {
    let a = default_config();
    assert_eq!(a.id.len(), 36);
    assert_eq!(a.remote, "https://lan.pein.dev");
    assert!(a.name.is_none());
    assert!(a.autostart);
    assert!(a.password.is_none());
    let b = create_default_config();
    assert_eq!(b.id.len(), 36);
    assert_ne!(a.id, b.id);
}

fn settings_with_password(p: Option<&str>) -> Settings {
    Settings {
        id: "id".to_string(),
        remote: "http://server".to_string(),
        name: Some("alice".to_string()),
        autostart: false,
        password: p.map(|s| s.to_string()),
    }
}

#[test]
fn get_config_censors_password_on_request() {
    let c = get_config(settings_with_password(Some("hash")), true);
    assert_eq!(c.password, Some("(unchanged)".to_string()));
    let c = get_config(settings_with_password(Some("hash")), false);
    assert_eq!(c.password, Some("hash".to_string()));
    let c = get_config(settings_with_password(None), true);
    assert!(c.password.is_none());
}

#[test]
fn get_or_create_config_falls_back_to_default() {
    let c = get_or_create_config(Some(settings_with_password(None)), false);
    assert_eq!(c.id, "id");
    let c = get_or_create_config(None, true);
    assert_eq!(c.id.len(), 36);
}

#[test]
fn resolve_password_placeholder_keeps_stored_hash() {
    let kept = resolve_password(
        Some("(unchanged)".to_string()),
        Some("storedhash".to_string()),
    );
    assert_eq!(kept, Some("storedhash".to_string()));
    let cleared = resolve_password(None, Some("storedhash".to_string()));
    assert_eq!(cleared, None);
    let hashed = resolve_password(Some("password".to_string()), None);
    assert_eq!(
        hashed,
        Some("5e884898da28047151d0e56f8dc6292773603d0d6aabbdd62a11ef721d1542d8".to_string())
    );
}

#[test]
fn resolve_config_hashes_new_password() {
    let saved = resolve_config(settings_with_password(Some("password")), None);
    assert_eq!(saved.id, "id");
    assert_eq!(saved.remote, "http://server");
    assert_eq!(saved.name, Some("alice".to_string()));
    assert_eq!(
        saved.password,
        Some("5e884898da28047151d0e56f8dc6292773603d0d6aabbdd62a11ef721d1542d8".to_string())
    );
}

#[test]
fn string_order_helpers() {
    assert!(str_eq("abc", "abc"));
    assert!(!str_eq("abc", "abd"));
    assert!(str_le("abc", "abd"));
    assert!(str_le("ab", "abc"));
    assert!(!str_le("b", "abc"));
    assert!(str_le("", ""));
}

use lan_presence::aggregate::{get_game, get_list, resolve_games};
use lan_presence::metrics::MetricsOp;
use lan_presence::normalize::normalize_games;
use lan_presence::service::{ApiError, Conditional, SharedData};
use lan_presence::store::PresenceStore;
use lan_presence::types::{Game, NowPlayingEntry, Player};

fn game(name: &str) -> Game {
    Game { name: name.to_string(), label: name.to_string(), icon: String::new() }
}

fn game_labeled(name: &str, label: &str) -> Game {
    Game { name: name.to_string(), label: label.to_string(), icon: String::new() }
}

fn player(id: &str) -> Player {
    Player { id: id.to_string(), name: id.to_string() }
}

fn entry(id: &str, games: &[&str]) -> NowPlayingEntry {
    NowPlayingEntry {
        player: player(id),
        games: games.iter().map(|g| g.to_string()).collect(),
    }
}

fn catalog() -> Vec<Game> {
    vec![game("chess"), game("solitaire"), game("doom")]
}

#[test]
fn normalize_sorts_and_dedupes() {
    let raw = vec!["doom".to_string(), "chess".to_string(), "doom".to_string()];
    let norm = normalize_games(&raw);
    assert_eq!(norm, vec!["chess".to_string(), "doom".to_string()]);
}

#[test]
fn normalize_is_order_independent() {
    let a = vec!["b".to_string(), "a".to_string(), "c".to_string()];
    let b = vec!["c".to_string(), "b".to_string(), "a".to_string(), "b".to_string()];
    assert_eq!(normalize_games(&a), normalize_games(&b));
}

#[test]
fn normalize_of_normal_form_is_identity() {
    let sorted = vec!["a".to_string(), "b".to_string(), "c".to_string()];
    assert_eq!(normalize_games(&sorted), sorted);
    let once = normalize_games(&vec!["c".to_string(), "a".to_string()]);
    assert_eq!(normalize_games(&once), once);
}

#[test]
fn empty_game_list_normalizes_to_empty() {
    let empty: Vec<String> = vec![];
    assert_eq!(normalize_games(&empty), empty);
}

#[test]
fn version_advances_once_for_identical_reports() {
    let mut data = SharedData::new(0);
    // First report of a new player is a change and bumps the clock.
    assert!(data.update(entry("p1", &["chess", "doom"]), 100));
    assert_eq!(data.last_update.value, 100);
    // The same set in another order, with a duplicate, is no change.
    assert!(!data.update(entry("p1", &["doom", "chess", "chess"]), 200));
    assert_eq!(data.last_update.value, 100);
    assert!(!data.update(entry("p1", &["chess", "doom"]), 300));
    assert_eq!(data.last_update.value, 100);
    // A genuinely different set bumps it again.
    assert!(data.update(entry("p1", &["chess"]), 400));
    assert_eq!(data.last_update.value, 400);
}

#[test]
fn repeated_report_refreshes_timestamp() {
    let mut store = PresenceStore::new();
    store.report(player("p1"), &vec!["chess".to_string()], 100);
    store.report(player("p1"), &vec!["chess".to_string()], 250);
    let snap = store.snapshot();
    assert_eq!(snap.len(), 1);
    assert_eq!(snap[0].timestamp, 250);
    assert_eq!(snap[0].entry.games, vec!["chess".to_string()]);
}

#[test]
fn eviction_excludes_players_and_reports_each_once() {
    let cat = catalog();
    let mut data = SharedData::new(0);
    data.submit(entry("p1", &["chess"]), None, &cat, 1_000);
    data.submit(entry("p2", &["doom"]), None, &cat, 25_000);
    // p1 is stale at now = 40s with a 30s threshold; p2 is not.
    let (removed, ops) = data.clean(40_000, 30_000);
    assert_eq!(removed, vec!["p1".to_string()]);
    let expired: Vec<(&str, &str)> = ops
        .iter()
        .map(|op| match op {
            MetricsOp::Expired { player, game } => (player.id.as_str(), game.name.as_str()),
            MetricsOp::Played { .. } => panic!("eviction must only expire"),
        })
        .collect();
    assert_eq!(expired, vec![("p1", "chess")]);
    let snap = data.store.snapshot();
    assert_eq!(snap.len(), 1);
    assert_eq!(snap[0].entry.player.id, "p2");
    // The eviction changed the player set, so the clock advanced.
    assert_eq!(data.last_update.value, 40_000);
}

#[test]
fn eviction_keeps_entry_exactly_at_cutoff() {
    let mut data = SharedData::new(0);
    data.update(entry("p1", &["chess"]), 10_000);
    let before = data.last_update.value;
    let (removed, _ops) = data.clean(40_000, 30_000);
    assert!(removed.is_empty());
    assert_eq!(data.store.snapshot().len(), 1);
    assert_eq!(data.last_update.value, before);
}

#[test]
fn aggregate_groups_players_by_game() {
    // Player A and B report chess, C reports solitaire: chess -> {A, B},
    // solitaire -> {C}, online == 3, and chess holds a majority (2 >= 3/2).
    let cat = catalog();
    let mut store = PresenceStore::new();
    store.report(player("A"), &vec!["chess".to_string()], 1);
    store.report(player("B"), &vec!["chess".to_string()], 2);
    store.report(player("C"), &vec!["solitaire".to_string()], 3);
    let resp = get_list(&store.snapshot(), &cat);
    assert_eq!(resp.online, 3);
    assert_eq!(resp.active.len(), 2);
    let chess = resp.active.iter().find(|e| e.game.name == "chess").unwrap();
    let ids: Vec<&str> = chess.players.iter().map(|p| p.id.as_str()).collect();
    assert_eq!(ids, vec!["A", "B"]);
    let solitaire = resp.active.iter().find(|e| e.game.name == "solitaire").unwrap();
    assert_eq!(solitaire.players.len(), 1);
    assert_eq!(solitaire.players[0].id, "C");
    assert!(chess.players.len() >= resp.online / 2);
}

#[test]
fn aggregate_skips_idle_players_but_counts_them() {
    let cat = catalog();
    let mut store = PresenceStore::new();
    store.report(player("A"), &vec!["chess".to_string()], 1);
    store.report(player("idle"), &vec![], 2);
    let resp = get_list(&store.snapshot(), &cat);
    assert_eq!(resp.online, 2);
    for entry in &resp.active {
        assert!(entry.players.iter().all(|p| p.id != "idle"));
    }
}

#[test]
fn aggregate_is_deterministic() {
    let cat = catalog();
    let mut store = PresenceStore::new();
    store.report(player("A"), &vec!["chess".to_string(), "doom".to_string()], 1);
    store.report(player("B"), &vec!["doom".to_string()], 2);
    let snap = store.snapshot();
    let r1 = get_list(&snap, &cat);
    let r2 = get_list(&snap, &cat);
    assert_eq!(r1.online, r2.online);
    assert_eq!(r1.active.len(), r2.active.len());
    for (a, b) in r1.active.iter().zip(r2.active.iter()) {
        assert_eq!(a.game.name, b.game.name);
        let ids_a: Vec<&str> = a.players.iter().map(|p| p.id.as_str()).collect();
        let ids_b: Vec<&str> = b.players.iter().map(|p| p.id.as_str()).collect();
        assert_eq!(ids_a, ids_b);
    }
}

#[test]
fn aggregate_ignores_games_outside_catalog() {
    let cat = catalog();
    let mut store = PresenceStore::new();
    store.report(player("A"), &vec!["tetris".to_string()], 1);
    let resp = get_list(&store.snapshot(), &cat);
    assert_eq!(resp.online, 1);
    assert!(resp.active.is_empty());
}

#[test]
fn conditional_current_token_gets_not_modified() {
    let cat = catalog();
    let mut data = SharedData::new(1_000);
    // A report at an earlier time does not move the clock past 1000.
    let (cond, _) = data.submit(entry("p1", &["chess"]), Some(1_000), &cat, 500);
    assert!(matches!(cond, Conditional::NotModified));
}

#[test]
fn conditional_stale_token_gets_fresh_aggregate_with_newer_version() {
    let cat = catalog();
    let mut data = SharedData::new(1_000);
    let token = 900;
    let (cond, _) = data.submit(entry("p1", &["chess"]), Some(token), &cat, 500);
    match cond {
        Conditional::Fresh { view, version } => {
            assert!(version > token);
            assert_eq!(version, 1_000);
            assert_eq!(view.online, 1);
            assert_eq!(view.active.len(), 1);
            assert_eq!(view.active[0].game.name, "chess");
        }
        Conditional::NotModified => panic!("stale token must get a payload"),
    }
}

#[test]
fn conditional_no_token_gets_fresh_aggregate() {
    let cat = catalog();
    let mut data = SharedData::new(0);
    let (cond, _) = data.submit(entry("p1", &["chess"]), None, &cat, 100);
    assert!(matches!(cond, Conditional::Fresh { .. }));
}

#[test]
fn submit_emits_played_ops_for_resolved_games() {
    let cat = catalog();
    let mut data = SharedData::new(0);
    let (_, ops) = data.submit(entry("p1", &["chess", "tetris"]), None, &cat, 10_000);
    // Only the catalog game is credited; the first report is credited one
    // poll interval.
    assert_eq!(ops.len(), 1);
    match &ops[0] {
        MetricsOp::Played { player, game, millis } => {
            assert_eq!(player.id, "p1");
            assert_eq!(game.name, "chess");
            assert_eq!(*millis, 5_000);
        }
        MetricsOp::Expired { .. } => panic!("first report expires nothing"),
    }
}

#[test]
fn submit_expires_games_no_longer_reported() {
    let cat = catalog();
    let mut data = SharedData::new(0);
    data.submit(entry("p1", &["chess", "doom"]), None, &cat, 5_000);
    let (_, ops) = data.submit(entry("p1", &["doom"]), None, &cat, 10_000);
    let mut played: Vec<&str> = vec![];
    let mut expired: Vec<&str> = vec![];
    for op in &ops {
        match op {
            MetricsOp::Played { game, millis, .. } => {
                assert_eq!(*millis, 5_000);
                played.push(game.name.as_str());
            }
            MetricsOp::Expired { game, .. } => expired.push(game.name.as_str()),
        }
    }
    assert_eq!(played, vec!["doom"]);
    assert_eq!(expired, vec!["chess"]);
}

#[test]
fn handle_rejects_malformed_version_token() {
    let cat = catalog();
    let mut data = SharedData::new(1_000);
    let before = data.last_update.value;
    let r = data.handle_now_playing(entry("p1", &["chess"]), Some("not-a-date"), &cat, 500);
    match r {
        Err(ApiError::BadVersionToken) => {}
        Ok(_) => panic!("malformed token must be rejected"),
    }
    // A rejected request changes no state.
    assert_eq!(data.last_update.value, before);
    assert!(data.store.snapshot().is_empty());
}

#[test]
fn handle_parses_rfc3339_token_to_milliseconds() {
    let cat = catalog();
    // The clock stands at 1000 ms; a token denoting exactly
    // 1970-01-01T00:00:01Z (1000 ms) is current, one millisecond earlier is
    // stale.
    let mut data = SharedData::new(1_000);
    let r = data
        .handle_now_playing(entry("p1", &["chess"]), Some("1970-01-01T00:00:01Z"), &cat, 500)
        .unwrap();
    assert!(matches!(r.0, Conditional::NotModified));
    let mut data = SharedData::new(1_000);
    let r = data
        .handle_now_playing(
            entry("p1", &["chess"]),
            Some("1970-01-01T00:00:00.999Z"),
            &cat,
            500,
        )
        .unwrap();
    assert!(matches!(r.0, Conditional::Fresh { version: 1_000, .. }));
}

#[test]
fn bad_token_error_message() {
    assert_eq!(ApiError::BadVersionToken.message(), "last_update: bad format");
}

#[test]
fn catalog_lookup_finds_first_match() {
    let cat = vec![game_labeled("chess", "Chess"), game_labeled("chess", "Duplicate")];
    let found = get_game(&cat, "chess").unwrap();
    assert_eq!(found.label, "Chess");
    assert!(get_game(&cat, "tetris").is_none());
}

#[test]
fn resolve_games_keeps_order_and_skips_unknown() {
    let cat = catalog();
    let names = vec!["doom".to_string(), "tetris".to_string(), "chess".to_string()];
    let resolved = resolve_games(&names, &cat);
    let got: Vec<&str> = resolved.iter().map(|g| g.name.as_str()).collect();
    assert_eq!(got, vec!["doom", "chess"]);
}

#[test]
fn game_equality_is_by_name() {
    let a = game_labeled("chess", "Chess");
    let b = game_labeled("chess", "Schach");
    assert!(a == b);
    let c = game_labeled("doom", "Chess");
    assert!(a != c);
}

#[test]
fn player_equality_is_by_id() {
    let a = Player { id: "x".to_string(), name: "Alice".to_string() };
    let b = Player { id: "x".to_string(), name: "Bob".to_string() };
    assert!(a == b);
}

use factorio_browser::coordinator::{FetchOutcome, RefreshCoordinator, sanitize_error};
use factorio_browser::records::{ApplicationVersion, GameServer, GameTime};
use factorio_browser::store::PersistOutcome;

fn game_server(game_id: u64, players: &[&str]) -> GameServer {
    GameServer {
        game_id,
        name: format!("server {}", game_id),
        description: String::new(),
        max_players: 16,
        players: players.iter().map(|p| p.to_string()).collect(),
        game_time_elapsed: GameTime::Number(42),
        has_password: false,
        tags: Vec::new(),
        mod_count: 0,
        host_address: None,
        application_version: ApplicationVersion {
            game_version: "1.1.110".to_string(),
            build_version: 1,
            build_mode: "headless".to_string(),
            platform: "linux64".to_string(),
        },
        has_mods: false,
        headless_server: true,
        server_id: None,
    }
}

const NOW: &str = "2024-06-01T12:00:00+00:00";
const CUTOFF: &str = "2024-05-31T12:00:00+00:00";

#[test]
fn a_successful_cycle_publishes_exactly_the_fetched_servers() {
    let mut c = RefreshCoordinator::new();
    c.start_cycle();
    let fetched = vec![game_server(1, &["alice"]), game_server(2, &["bob", "carol"])];
    c.on_fetch(FetchOutcome::Success(fetched), &NOW.to_string());
    c.record_step(PersistOutcome::Committed).unwrap();
    c.cache_step(PersistOutcome::Committed).unwrap();
    c.cleanup_step(&CUTOFF.to_string());

    let snap = c.current_snapshot();
    let ids: Vec<u64> = snap.iter().map(|s| s.game_id).collect();
    assert_eq!(ids, vec![2, 1]); // ordered by player count descending
    // player counts were recomputed from the roster
    assert_eq!(snap[0].player_count, 2);
    assert_eq!(snap[1].player_count, 1);
    assert!(c.current_error().is_none());
}

#[test]
fn a_second_cycle_replaces_the_whole_snapshot() {
    let mut c = RefreshCoordinator::new();
    for ids in [&[1u64, 2u64][..], &[3u64][..]] {
        c.start_cycle();
        let fetched: Vec<GameServer> = ids.iter().map(|&i| game_server(i, &["p"])).collect();
        c.on_fetch(FetchOutcome::Success(fetched), &NOW.to_string());
        c.record_step(PersistOutcome::Committed).unwrap();
        c.cache_step(PersistOutcome::Committed).unwrap();
        c.cleanup_step(&CUTOFF.to_string());
    }
    let ids: Vec<u64> = c.current_snapshot().iter().map(|s| s.game_id).collect();
    assert_eq!(ids, vec![3]);
}

#[test]
fn a_failed_replacement_keeps_the_published_snapshot() {
    let mut c = RefreshCoordinator::new();
    c.start_cycle();
    c.on_fetch(FetchOutcome::Success(vec![game_server(1, &["a"])]), &NOW.to_string());
    c.record_step(PersistOutcome::Committed).unwrap();
    c.cache_step(PersistOutcome::Committed).unwrap();
    c.cleanup_step(&CUTOFF.to_string());

    c.start_cycle();
    c.on_fetch(FetchOutcome::Success(vec![game_server(9, &["x"])]), &NOW.to_string());
    c.record_step(PersistOutcome::Committed).unwrap();
    assert!(c.cache_step(PersistOutcome::Aborted("tx aborted".to_string())).is_err());
    c.cleanup_step(&CUTOFF.to_string());

    let ids: Vec<u64> = c.current_snapshot().iter().map(|s| s.game_id).collect();
    assert_eq!(ids, vec![1]);
    assert_eq!(
        c.current_error().as_deref(),
        Some("Failed to update server cache.")
    );
}

#[test]
fn a_failed_fetch_surfaces_a_sanitized_error_and_skips_the_cycle() {
    let mut c = RefreshCoordinator::new();
    c.start_cycle();
    c.on_fetch(FetchOutcome::Success(vec![game_server(1, &["a"])]), &NOW.to_string());
    c.record_step(PersistOutcome::Committed).unwrap();
    c.cache_step(PersistOutcome::Committed).unwrap();
    c.cleanup_step(&CUTOFF.to_string());

    c.start_cycle();
    c.on_fetch(
        FetchOutcome::Failure(
            "request to https://multiplayer.factorio.com/get-games?token=abc123 failed"
                .to_string(),
        ),
        &NOW.to_string(),
    );
    c.cleanup_step(&CUTOFF.to_string());

    let err = c.current_error().clone().unwrap();
    assert_eq!(err, "Failed to connect to Factorio API. Please try again later.");
    assert!(!err.contains("abc123"));
    // the published snapshot is the one from the last committed cycle
    let ids: Vec<u64> = c.current_snapshot().iter().map(|s| s.game_id).collect();
    assert_eq!(ids, vec![1]);
}

#[test]
fn servers_without_players_record_no_history() {
    let mut c = RefreshCoordinator::new();
    c.start_cycle();
    c.on_fetch(
        FetchOutcome::Success(vec![game_server(1, &[]), game_server(2, &["p"])]),
        &NOW.to_string(),
    );
    assert_eq!(c.record_step(PersistOutcome::Committed), Ok(1));
    c.cache_step(PersistOutcome::Committed).unwrap();
    c.cleanup_step(&CUTOFF.to_string());
    assert_eq!(c.history(1, 24).len(), 0);
    assert_eq!(c.history(2, 24).len(), 1);
}

#[test]
fn lookup_reads_the_committed_store() {
    let mut c = RefreshCoordinator::new();
    c.start_cycle();
    c.on_fetch(FetchOutcome::Success(vec![game_server(7, &["p"])]), &NOW.to_string());
    c.record_step(PersistOutcome::Committed).unwrap();
    c.cache_step(PersistOutcome::Committed).unwrap();
    c.cleanup_step(&CUTOFF.to_string());
    assert_eq!(c.lookup(7).map(|s| s.game_id), Some(7));
    assert!(c.lookup(8).is_none());
}

#[test]
fn sanitize_error_strips_urls() {
    assert_eq!(
        sanitize_error("boom at https://example.net/x?q=1"),
        "A network error occurred. Please try again later."
    );
    assert_eq!(
        sanitize_error("get-games returned 500 via http://host"),
        "Failed to connect to Factorio API. Please try again later."
    );
    assert_eq!(
        sanitize_error("database exploded"),
        "An error occurred while fetching server data."
    );
}

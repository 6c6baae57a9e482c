use factorio_browser::records::{NewCachedServer, NewServerHistory};
use factorio_browser::store::{server_details_response, DbError, PersistOutcome, ServerStore};

fn record(game_id: u64, player_count: usize) -> NewCachedServer {
    NewCachedServer {
        game_id,
        name: format!("server {}", game_id),
        description: String::new(),
        max_players: 32,
        player_count,
        players: Vec::new(),
        game_time_elapsed: 10,
        has_password: false,
        tags: Vec::new(),
        mod_count: 0,
        game_version: "1.1.110".to_string(),
        build_version: 1,
        host_address: None,
        headless_server: false,
        cached_at: "2024-06-01T12:00:00+00:00".to_string(),
    }
}

fn sample(game_id: u64, player_count: usize, recorded_at: &str) -> NewServerHistory {
    NewServerHistory { game_id, player_count, recorded_at: recorded_at.to_string() }
}

#[test]
fn replace_all_installs_exactly_the_new_generation() {
    let mut store = ServerStore::new();
    let first = vec![record(1, 5), record(2, 9)];
    assert_eq!(store.replace_all(first, PersistOutcome::Committed), Ok(2));

    let second = vec![record(3, 1), record(4, 7), record(5, 3)];
    assert_eq!(store.replace_all(second, PersistOutcome::Committed), Ok(3));

    let all = store.get_all();
    let ids: Vec<u64> = all.iter().map(|s| s.game_id).collect();
    // exactly the second cycle's records, nothing left over, sorted by
    // player count descending
    assert_eq!(ids, vec![4, 5, 3]);
}

#[test]
fn aborted_replace_keeps_previous_snapshot() {
    let mut store = ServerStore::new();
    let first = vec![record(1, 5), record(2, 9)];
    assert_eq!(store.replace_all(first, PersistOutcome::Committed), Ok(2));

    let second = vec![record(7, 100)];
    let res = store.replace_all(second, PersistOutcome::Aborted("disk full".to_string()));
    assert_eq!(res, Err(DbError::Query("disk full".to_string())));

    let all = store.get_all();
    let ids: Vec<u64> = all.iter().map(|s| s.game_id).collect();
    assert_eq!(ids, vec![2, 1]);
}

#[test]
fn duplicate_game_ids_are_refused_whole() {
    let mut store = ServerStore::new();
    assert_eq!(store.replace_all(vec![record(1, 1)], PersistOutcome::Committed), Ok(1));
    let dup = vec![record(5, 1), record(5, 2)];
    assert!(store.replace_all(dup, PersistOutcome::Committed).is_err());
    // the previous snapshot is untouched
    let ids: Vec<u64> = store.get_all().iter().map(|s| s.game_id).collect();
    assert_eq!(ids, vec![1]);
}

#[test]
fn append_history_keeps_only_active_samples() {
    let mut store = ServerStore::new();
    let batch = vec![
        sample(1, 0, "2024-06-01T10:00:00+00:00"),
        sample(1, 5, "2024-06-01T10:00:00+00:00"),
    ];
    assert_eq!(store.append_history(batch, PersistOutcome::Committed), Ok(1));
    let history = store.get_history(1, 24);
    assert_eq!(history.len(), 1);
    assert_eq!(history[0].player_count, 5);
}

#[test]
fn empty_batch_after_filtering_is_a_no_op() {
    let mut store = ServerStore::new();
    let batch = vec![sample(1, 0, "2024-06-01T10:00:00+00:00")];
    // even an aborted backend cannot fail a batch that records nothing
    assert_eq!(
        store.append_history(batch, PersistOutcome::Aborted("down".to_string())),
        Ok(0)
    );
    assert_eq!(store.get_history(1, 24).len(), 0);
}

#[test]
fn aborted_append_records_nothing() {
    let mut store = ServerStore::new();
    let batch = vec![sample(1, 4, "2024-06-01T10:00:00+00:00")];
    assert!(store
        .append_history(batch, PersistOutcome::Aborted("down".to_string()))
        .is_err());
    assert_eq!(store.get_history(1, 24).len(), 0);
}

#[test]
fn get_by_game_id_finds_the_record_or_nothing() {
    let mut store = ServerStore::new();
    store
        .replace_all(vec![record(1, 5), record(2, 9)], PersistOutcome::Committed)
        .unwrap();
    assert_eq!(store.get_by_game_id(2).map(|s| s.player_count), Some(9));
    assert!(store.get_by_game_id(99).is_none());
}

#[test]
fn history_comes_newest_first() {
    let mut store = ServerStore::new();
    let batch = vec![
        sample(1, 1, "2024-06-01T10:00:00+00:00"),
        sample(1, 2, "2024-06-01T12:00:00+00:00"),
        sample(1, 3, "2024-06-01T11:00:00+00:00"),
        sample(2, 9, "2024-06-01T13:00:00+00:00"),
    ];
    store.append_history(batch, PersistOutcome::Committed).unwrap();
    let history = store.get_history(1, 24);
    let counts: Vec<usize> = history.iter().map(|h| h.player_count).collect();
    assert_eq!(counts, vec![2, 3, 1]);
}

#[test]
fn history_is_capped_by_the_window() {
    let mut store = ServerStore::new();
    let mut batch = Vec::new();
    for m in 0..90 {
        batch.push(sample(1, m + 1, &format!("2024-06-01T10:{:02}:00+00:00", 90 - m - 1)));
    }
    store.append_history(batch, PersistOutcome::Committed).unwrap();
    // one hour's window holds at most sixty samples
    assert_eq!(store.get_history(1, 1).len(), 60);
}

#[test]
fn details_response_pairs_record_and_history() {
    let mut store = ServerStore::new();
    store.replace_all(vec![record(1, 5)], PersistOutcome::Committed).unwrap();
    store
        .append_history(
            vec![sample(1, 5, "2024-06-01T10:00:00+00:00"), sample(2, 9, "2024-06-01T10:00:00+00:00")],
            PersistOutcome::Committed,
        )
        .unwrap();
    let r = server_details_response(&store, 1);
    assert_eq!(r.server.map(|s| s.game_id), Some(1));
    assert_eq!(r.history.len(), 1);
    assert_eq!(r.history[0].player_count, 5);

    let missing = server_details_response(&store, 42);
    assert!(missing.server.is_none());
    assert!(missing.history.is_empty());
}

#[test]
fn last_cache_time_is_the_snapshot_stamp() {
    let mut store = ServerStore::new();
    assert!(store.get_last_cache_time().is_none());
    store.replace_all(vec![record(1, 5)], PersistOutcome::Committed).unwrap();
    assert_eq!(
        store.get_last_cache_time().as_deref(),
        Some("2024-06-01T12:00:00+00:00")
    );
}

#[test]
fn purge_drops_only_older_samples_and_is_idempotent() {
    let mut store = ServerStore::new();
    let batch = vec![
        sample(1, 1, "2024-06-01T10:00:00+00:00"),
        sample(1, 2, "2024-06-02T10:00:00+00:00"),
    ];
    store.append_history(batch, PersistOutcome::Committed).unwrap();
    let cutoff = "2024-06-01T22:00:00+00:00".to_string();
    store.purge_history_older_than(&cutoff);
    let counts: Vec<usize> = store.get_history(1, 24).iter().map(|h| h.player_count).collect();
    assert_eq!(counts, vec![2]);
    store.purge_history_older_than(&cutoff);
    let again: Vec<usize> = store.get_history(1, 24).iter().map(|h| h.player_count).collect();
    assert_eq!(again, vec![2]);
}

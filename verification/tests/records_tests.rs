use factorio_browser::records::{
    samples_from_servers, ApplicationVersion, GameServer, GameTime, NewCachedServer,
};

#[test]
fn game_time_normalizes_numbers_and_text() {
    assert_eq!(GameTime::Number(90).as_u64(), 90);
    assert_eq!(GameTime::Text("123".to_string()).as_u64(), 123);
    assert_eq!(GameTime::Text("+7".to_string()).as_u64(), 7);
    assert_eq!(GameTime::Text("".to_string()).as_u64(), 0);
    assert_eq!(GameTime::Text("12h".to_string()).as_u64(), 0);
    assert_eq!(GameTime::Text("18446744073709551615".to_string()).as_u64(), u64::MAX);
    // one past the largest value no longer fits, so it reads as zero
    assert_eq!(GameTime::Text("18446744073709551616".to_string()).as_u64(), 0);
}

fn fetched(game_id: u64, players: &[&str], reported_time: GameTime) -> GameServer {
    GameServer {
        game_id,
        name: "n".to_string(),
        description: "d".to_string(),
        max_players: 10,
        players: players.iter().map(|p| p.to_string()).collect(),
        game_time_elapsed: reported_time,
        has_password: true,
        tags: vec!["pvp".to_string()],
        mod_count: 3,
        host_address: Some("1.2.3.4:34197".to_string()),
        application_version: ApplicationVersion {
            game_version: "1.1.100".to_string(),
            build_version: 5,
            build_mode: "headless".to_string(),
            platform: "linux64".to_string(),
        },
        has_mods: true,
        headless_server: true,
        server_id: None,
    }
}

#[test]
fn game_time_splits_into_days_hours_minutes() {
    assert_eq!(factorio_browser::records::game_time_parts(0), (0, 0, 0));
    assert_eq!(factorio_browser::records::game_time_parts(1505), (1, 1, 5));
}

#[test]
fn normalization_recomputes_the_player_count() {
    let s = fetched(4, &["a", "b", "c"], GameTime::Text("55".to_string()));
    let rec = NewCachedServer::from_server(s, "2024-06-01T00:00:00+00:00".to_string());
    assert_eq!(rec.player_count, 3);
    assert_eq!(rec.game_time_elapsed, 55);
    assert_eq!(rec.game_version, "1.1.100");
    assert_eq!(rec.cached_at, "2024-06-01T00:00:00+00:00");
}

#[test]
fn sample_derivation_skips_empty_rosters() {
    let servers = vec![
        fetched(1, &[], GameTime::Number(0)),
        fetched(2, &["a", "b"], GameTime::Number(0)),
    ];
    let now = "2024-06-01T00:00:00+00:00".to_string();
    let samples = samples_from_servers(&servers, &now);
    assert_eq!(samples.len(), 1);
    assert_eq!(samples[0].game_id, 2);
    assert_eq!(samples[0].player_count, 2);
    assert_eq!(samples[0].recorded_at, now);
}

use factorio_browser::filter::{filter_servers, query_servers, servers_response, FilterState};
use factorio_browser::records::{CachedServer, ServerFilters};

fn server(game_id: u64, name: &str, players: usize) -> CachedServer {
    CachedServer {
        game_id,
        name: name.to_string(),
        description: String::new(),
        max_players: 32,
        player_count: players,
        players: Vec::new(),
        game_time_elapsed: 0,
        has_password: false,
        tags: Vec::new(),
        mod_count: 0,
        game_version: "1.1.110".to_string(),
        build_version: 1,
        host_address: None,
        headless_server: false,
        cached_at: String::new(),
    }
}

fn no_filter() -> FilterState {
    FilterState {
        search: String::new(),
        version: String::new(),
        has_players: false,
        no_password: false,
        is_dedicated: false,
        tags: Vec::new(),
    }
}

#[test]
fn no_password_filter_excludes_passworded_servers() {
    let mut open_server = server(1, "open", 3);
    open_server.has_password = false;
    let mut locked = server(2, "locked", 9);
    locked.has_password = true;
    let mut also_locked = server(3, "also locked", 0);
    also_locked.has_password = true;

    let f = FilterState { no_password: true, ..no_filter() };
    let out = filter_servers(&vec![open_server, locked, also_locked], &f, &String::new());
    assert_eq!(out.len(), 1);
    assert_eq!(out[0].game_id, 1);
    assert!(out.iter().all(|s| !s.has_password));
}

#[test]
fn search_is_case_insensitive_over_name_description_and_tags() {
    let mut a = server(1, "Mega Factory", 0);
    a.description = "friendly place".to_string();
    let mut b = server(2, "other", 0);
    b.description = "A MEGA base awaits".to_string();
    let mut c = server(3, "third", 0);
    c.tags = vec!["megabase".to_string()];
    let d = server(4, "unrelated", 0);

    let f = FilterState { search: "MEGA".to_string(), ..no_filter() };
    let out = filter_servers(&vec![a, b, c, d], &f, &String::new());
    let ids: Vec<u64> = out.iter().map(|s| s.game_id).collect();
    assert_eq!(ids, vec![1, 2, 3]);
}

#[test]
fn version_filter_matches_prefixes() {
    let mut old = server(1, "old", 0);
    old.game_version = "0.17.79".to_string();
    let new = server(2, "new", 0);

    let out = filter_servers(&vec![old, new], &no_filter(), &"1.1".to_string());
    assert_eq!(out.len(), 1);
    assert_eq!(out[0].game_id, 2);
}

#[test]
fn has_players_filter_drops_empty_servers() {
    let f = FilterState { has_players: true, ..no_filter() };
    let out = filter_servers(&vec![server(1, "a", 0), server(2, "b", 4)], &f, &String::new());
    assert_eq!(out.len(), 1);
    assert_eq!(out[0].game_id, 2);
}

#[test]
fn dedicated_filter_keeps_headless_servers() {
    let mut headless = server(1, "a", 0);
    headless.headless_server = true;
    let listen = server(2, "b", 0);
    let f = FilterState { is_dedicated: true, ..no_filter() };
    let out = filter_servers(&vec![headless, listen], &f, &String::new());
    assert_eq!(out.len(), 1);
    assert_eq!(out[0].game_id, 1);
}

#[test]
fn selected_tags_match_any_of_them() {
    let mut a = server(1, "a", 0);
    a.tags = vec!["pvp".to_string()];
    let mut b = server(2, "b", 0);
    b.tags = vec!["trains".to_string(), "friendly".to_string()];
    let mut c = server(3, "c", 0);
    c.tags = vec!["speedrun".to_string()];

    let f = FilterState {
        tags: vec!["pvp".to_string(), "trains".to_string()],
        ..no_filter()
    };
    let out = filter_servers(&vec![a, b, c], &f, &String::new());
    let ids: Vec<u64> = out.iter().map(|s| s.game_id).collect();
    assert_eq!(ids, vec![1, 2]);
}

#[test]
fn query_filters_count_before_the_limit() {
    let servers = vec![server(1, "alpha", 1), server(2, "alphabet", 2), server(3, "beta", 3)];
    let f = ServerFilters {
        search: Some("ALPHA".to_string()),
        version: None,
        has_players: None,
        no_password: None,
        min_mods: None,
        limit: Some(1),
    };
    let (out, total) = query_servers(&servers, &f);
    assert_eq!(total, 2);
    assert_eq!(out.len(), 1);
    assert_eq!(out[0].game_id, 1);
}

#[test]
fn servers_response_carries_total_and_stamp() {
    let mut a = server(1, "alpha", 1);
    a.cached_at = "2024-06-01T12:00:00+00:00".to_string();
    let b = server(2, "beta", 2);
    let f = ServerFilters { limit: Some(1), ..Default::default() };
    let r = servers_response(&vec![a, b], &f);
    assert_eq!(r.total, 2);
    assert_eq!(r.servers.len(), 1);
    assert_eq!(r.cached_at.as_deref(), Some("2024-06-01T12:00:00+00:00"));

    let none = servers_response(&Vec::new(), &ServerFilters::default());
    assert_eq!(none.total, 0);
    assert!(none.cached_at.is_none());
}

#[test]
fn query_min_mods_filters() {
    let mut modded = server(1, "modded", 0);
    modded.mod_count = 12;
    let vanilla = server(2, "vanilla", 0);
    let f = ServerFilters { min_mods: Some(5), ..Default::default() };
    let (out, total) = query_servers(&vec![modded, vanilla], &f);
    assert_eq!(total, 1);
    assert_eq!(out[0].game_id, 1);
}
